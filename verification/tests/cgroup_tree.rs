use cgroup_mcp::collector::tree::{read_cgroup_tree, CgroupDir, CgroupKind, CgroupNode};

/// A directory listing in which each path is a cgroup directory, as is
/// every directory along the way; the root is a cgroup too.
fn synthetic_tree(paths: &[&str]) -> CgroupDir {
    let mut root = CgroupDir { is_cgroup: true, subdirs: Vec::new() };
    for rel in paths {
        let mut cur = &mut root;
        for component in rel.split('/') {
            let pos = cur.subdirs.iter().position(|(n, _)| n == component);
            let idx = match pos {
                Some(i) => i,
                None => {
                    cur.subdirs.push((
                        component.to_string(),
                        CgroupDir { is_cgroup: true, subdirs: Vec::new() },
                    ));
                    cur.subdirs.len() - 1
                }
            };
            cur = &mut cur.subdirs[idx].1;
        }
    }
    root
}

fn find_descendant<'a>(node: &'a CgroupNode, rel: &str) -> Option<&'a CgroupNode> {
    if node.relative_path == rel {
        return Some(node);
    }
    for c in &node.children {
        if let Some(n) = find_descendant(c, rel) {
            return Some(n);
        }
    }
    None
}

#[test]
fn rejects_non_cgroup_root() {
    let dir = CgroupDir { is_cgroup: false, subdirs: Vec::new() };
    let err = read_cgroup_tree(&dir, None).unwrap_err();
    assert!(err.message().contains("cgroup.controllers"), "error was: {}", err.message());
}

#[test]
fn walks_simple_synthetic_tree() {
    let dir = synthetic_tree(&["system.slice", "system.slice/foo.service", "user.slice"]);
    let tree = read_cgroup_tree(&dir, None).unwrap();
    assert_eq!(tree.kind, CgroupKind::Root);
    assert_eq!(tree.name, "");
    assert_eq!(tree.relative_path, "");
    assert_eq!(tree.children.len(), 2);
    // sorted alphabetically
    assert_eq!(tree.children[0].name, "system.slice");
    assert_eq!(tree.children[0].kind, CgroupKind::Slice);
    assert_eq!(tree.children[1].name, "user.slice");
    let foo = &tree.children[0].children[0];
    assert_eq!(foo.name, "foo.service");
    assert_eq!(foo.kind, CgroupKind::Service);
    assert_eq!(foo.relative_path, "system.slice/foo.service");
}

#[test]
fn skips_non_cgroup_directories() {
    let dir = CgroupDir {
        is_cgroup: true,
        subdirs: vec![
            ("real.service".to_string(), CgroupDir { is_cgroup: true, subdirs: vec![] }),
            ("not_a_cgroup".to_string(), CgroupDir { is_cgroup: false, subdirs: vec![] }),
        ],
    };
    let tree = read_cgroup_tree(&dir, None).unwrap();
    assert_eq!(tree.children.len(), 1);
    assert_eq!(tree.children[0].name, "real.service");
}

#[test]
fn max_depth_zero_returns_root_only_and_marks_truncated() {
    let dir = synthetic_tree(&["system.slice", "system.slice/foo.service"]);
    let tree = read_cgroup_tree(&dir, Some(0)).unwrap();
    assert!(tree.children.is_empty());
    assert!(tree.truncated, "root should be marked truncated when it has children");
}

#[test]
fn max_depth_zero_on_leaf_is_not_truncated() {
    let dir = CgroupDir { is_cgroup: true, subdirs: vec![] };
    let tree = read_cgroup_tree(&dir, Some(0)).unwrap();
    assert!(!tree.truncated);
}

#[test]
fn max_depth_one_includes_immediate_children_and_marks_them_truncated() {
    let dir = synthetic_tree(&["system.slice", "system.slice/foo.service", "user.slice"]);
    let tree = read_cgroup_tree(&dir, Some(1)).unwrap();
    assert_eq!(tree.children.len(), 2);
    let sys = &tree.children[0];
    assert_eq!(sys.name, "system.slice");
    assert!(sys.children.is_empty());
    assert!(sys.truncated, "system.slice has children; should be truncated at depth 1");
    let user = &tree.children[1];
    assert!(!user.truncated, "user.slice is empty; should not be truncated");
}

#[test]
fn detects_various_unit_kinds() {
    let dir = synthetic_tree(&[
        "thing.slice",
        "thing.service",
        "thing.scope",
        "thing.mount",
        "thing.socket",
        "thing.timer",
        "no_extension",
    ]);
    let tree = read_cgroup_tree(&dir, None).unwrap();
    let kinds: std::collections::HashMap<_, _> = tree
        .children
        .iter()
        .map(|c| (c.name.clone(), c.kind.clone()))
        .collect();

    assert_eq!(kinds["thing.slice"], CgroupKind::Slice);
    assert_eq!(kinds["thing.service"], CgroupKind::Service);
    assert_eq!(kinds["thing.scope"], CgroupKind::Scope);
    assert_eq!(kinds["thing.mount"], CgroupKind::Mount);
    assert_eq!(kinds["thing.socket"], CgroupKind::Socket);
    assert_eq!(kinds["thing.timer"], CgroupKind::Other("timer".into()));
    assert_eq!(kinds["no_extension"], CgroupKind::Other("no_extension".into()));
}

#[test]
fn handles_systemd_escaped_names() {
    let dir = synthetic_tree(&["system.slice/system-systemd\\x2dcoredump.slice"]);
    let tree = read_cgroup_tree(&dir, None).unwrap();
    let escaped = &tree.children[0].children[0];
    assert_eq!(escaped.name, "system-systemd\\x2dcoredump.slice");
    assert_eq!(escaped.kind, CgroupKind::Slice);
}

// ---- further cases ----

#[test]
fn children_sort_by_code_point_order() {
    let dir = synthetic_tree(&["b.service", "B.service", "a.service", "a.slice", "ä.scope"]);
    let tree = read_cgroup_tree(&dir, None).unwrap();
    let names: Vec<&str> = tree.children.iter().map(|c| c.name.as_str()).collect();
    assert_eq!(names, vec!["B.service", "a.service", "a.slice", "b.service", "ä.scope"]);
}

#[test]
fn nested_paths_join_with_slashes() {
    let dir = synthetic_tree(&["a.slice/b.slice/c.service"]);
    let tree = read_cgroup_tree(&dir, Some(5)).unwrap();
    let c = find_descendant(&tree, "a.slice/b.slice/c.service").expect("present");
    assert_eq!(c.name, "c.service");
    assert!(!c.truncated);
    let trailing_dot = synthetic_tree(&["weird."]);
    let t = read_cgroup_tree(&trailing_dot, None).unwrap();
    assert_eq!(t.children[0].kind, CgroupKind::Other(String::new()));
}

fn deepest(node: &CgroupNode) -> usize {
    node.children.iter().map(|c| 1 + deepest(c)).max().unwrap_or(0)
}

#[test]
fn max_depth_bounds_every_branch() {
    let dir = synthetic_tree(&["a.slice/b.slice/c.service", "a.slice/d.service", "e.slice/f.slice/g.slice/h.scope"]);
    for d in 0..5usize {
        let tree = read_cgroup_tree(&dir, Some(d)).unwrap();
        assert!(deepest(&tree) <= d, "depth {d}: {}", deepest(&tree));
    }
    let full = read_cgroup_tree(&dir, None).unwrap();
    assert_eq!(deepest(&full), 4);
    let two = read_cgroup_tree(&dir, Some(2)).unwrap();
    let b = find_descendant(&two, "a.slice/b.slice").unwrap();
    assert!(b.children.is_empty() && b.truncated);
    let dsvc = find_descendant(&two, "a.slice/d.service").unwrap();
    assert!(dsvc.children.is_empty() && !dsvc.truncated);
}

fn prune(n: &CgroupNode, levels: usize) -> CgroupNode {
    CgroupNode {
        name: n.name.clone(),
        relative_path: n.relative_path.clone(),
        kind: n.kind.clone(),
        children: if levels == 0 { Vec::new() } else { n.children.iter().map(|c| prune(c, levels - 1)).collect() },
        truncated: levels == 0 && !n.children.is_empty(),
    }
}

fn paths(n: &CgroupNode, out: &mut Vec<String>) {
    out.push(n.relative_path.clone());
    for c in &n.children {
        assert_eq!(c.relative_path, if n.relative_path.is_empty() { c.name.clone() } else { format!("{}/{}", n.relative_path, c.name) });
        assert!(!c.truncated);
        paths(c, out);
    }
}

#[test]
fn limited_walk_is_the_full_walk_cut() {
    let dir = synthetic_tree(&["a.slice/b.slice/c.service", "a.slice/d.service", "e.slice/f.slice/g.slice/h.scope", "z.scope"]);
    let full = read_cgroup_tree(&dir, None).unwrap();
    for d in 0..6usize {
        assert_eq!(read_cgroup_tree(&dir, Some(d)).unwrap(), prune(&full, d), "depth {d}");
    }
}

#[test]
fn full_walk_holds_every_cgroup_path() {
    let mut dir = synthetic_tree(&["a.slice/b.slice/c.service", "a.slice/d.service", "z.scope"]);
    dir.subdirs.push(("plain".to_string(), CgroupDir { is_cgroup: false, subdirs: vec![("x.service".to_string(), CgroupDir { is_cgroup: true, subdirs: Vec::new() })] }));
    let full = read_cgroup_tree(&dir, None).unwrap();
    assert_eq!(full.kind, CgroupKind::Root);
    let mut got = Vec::new();
    paths(&full, &mut got);
    got.sort();
    assert_eq!(got, vec!["", "a.slice", "a.slice/b.slice", "a.slice/b.slice/c.service", "a.slice/d.service", "z.scope"]);
}

#[test]
fn trees_clone_whole() {
    let dir = synthetic_tree(&["a.slice/b.service", "c.scope"]);
    let t = read_cgroup_tree(&dir, Some(1)).unwrap();
    let c = t.clone();
    assert_eq!(c, t);
    assert_eq!(c.children[0].children.len(), 0);
    assert!(c.children[0].truncated);
}

#[test]
fn distinct_names_give_strictly_ascending_siblings() {
    let dir = synthetic_tree(&["b.slice/y.service", "b.slice/x.service", "a.scope", "B.slice"]);
    let t = read_cgroup_tree(&dir, None).unwrap();
    fn check(n: &CgroupNode) {
        for w in n.children.windows(2) {
            assert!(w[0].name < w[1].name, "{} !< {}", w[0].name, w[1].name);
        }
        n.children.iter().for_each(check);
    }
    check(&t);
}
