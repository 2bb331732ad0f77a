# cgroup_mcp

A read-only MCP server exposing Linux cgroup v2 state (resource accounting,
PSI, OOM events) as structured tools, with its logic verified by Verus.

- `src/` is the verified library: the parsers of the cgroup stat and
  pressure files, the cgroup tree walk, counter deltas between snapshots,
  path checks, and the decisions of each tool (which cgroups, which files,
  and, for every tool but `top_io`, how results are ranked and cut;
  `top_io` ranks by a floating-point rate, which app/ computes). It takes
  file contents and directory listings as plain values.
- `app/` is the server around it: argument handling, reading files and
  directories, the MCP transport and tool catalog (rmcp), the JSON shapes
  (serde, schemars), the sampling sleep of `top_cpu` and `top_io`, and the
  floating-point rates.
- `tests/` exercises the library on concrete inputs.
