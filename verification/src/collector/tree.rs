//! The cgroup hierarchy as a tree of named nodes, built from a listing of
//! the directories under the cgroup root.

use crate::sort::{
    in_order_by, lemma_sort_in_order, lemma_sort_map, lemma_sort_permutes, order_of, sort_by,
    sort_vec, strict_by, SortOrder,
};
use crate::text::{
    after_last, after_last_of, chars_equal_str, chars_less, chars_lt, chars_of,
    lemma_chars_lt_transitive, lemma_chars_lt_trichotomy,
    push_chars, push_str, string_from_chars,
};
use vstd::prelude::*;

verus! {

/// What a cgroup is, by the suffix of its systemd unit name.
#[derive(Clone, Debug, PartialEq)]
pub enum CgroupKind {
    Root,
    Slice,
    Service,
    Scope,
    Mount,
    Socket,
    /// Any other suffix, or the whole name when it holds no `.`.
    Other(String),
}

pub enum CgroupKindView {
    Root,
    Slice,
    Service,
    Scope,
    Mount,
    Socket,
    Other(Seq<char>),
}

impl View for CgroupKind {
    type V = CgroupKindView;

    open spec fn view(&self) -> CgroupKindView {
        match self {
            CgroupKind::Root => CgroupKindView::Root,
            CgroupKind::Slice => CgroupKindView::Slice,
            CgroupKind::Service => CgroupKindView::Service,
            CgroupKind::Scope => CgroupKindView::Scope,
            CgroupKind::Mount => CgroupKindView::Mount,
            CgroupKind::Socket => CgroupKindView::Socket,
            CgroupKind::Other(s) => CgroupKindView::Other(s@),
        }
    }
}

/// The kind of a cgroup that is not the root, read from the part of its
/// name after the last `.`.
pub open spec fn kind_of_name(name: Seq<char>) -> CgroupKindView {
    let suffix = after_last(name, '.');
    if suffix == "slice"@ {
        CgroupKindView::Slice
    } else if suffix == "service"@ {
        CgroupKindView::Service
    } else if suffix == "scope"@ {
        CgroupKindView::Scope
    } else if suffix == "mount"@ {
        CgroupKindView::Mount
    } else if suffix == "socket"@ {
        CgroupKindView::Socket
    } else {
        CgroupKindView::Other(suffix)
    }
}

/// The kind of the cgroup named `name`.
pub fn kind_from_name(name: &Vec<char>) -> (r: CgroupKind)
    ensures
        r@ == kind_of_name(name@),
{
    let suffix = after_last_of(name, '.');
    if chars_equal_str(&suffix, "slice") {
        CgroupKind::Slice
    } else if chars_equal_str(&suffix, "service") {
        CgroupKind::Service
    } else if chars_equal_str(&suffix, "scope") {
        CgroupKind::Scope
    } else if chars_equal_str(&suffix, "mount") {
        CgroupKind::Mount
    } else if chars_equal_str(&suffix, "socket") {
        CgroupKind::Socket
    } else {
        CgroupKind::Other(string_from_chars(&suffix))
    }
}

/// One cgroup in the tree.
#[derive(Debug, PartialEq)]
pub struct CgroupNode {
    /// The directory name; empty for the root.
    pub name: String,
    /// The path from the root, components joined by `/`; empty for the root.
    pub relative_path: String,
    pub kind: CgroupKind,
    /// The child cgroups, sorted by name.
    pub children: Vec<CgroupNode>,
    /// The walk stopped at this node although it has child cgroups.
    pub truncated: bool,
}

/// The contents of a `CgroupNode`.
pub struct CgroupNodeView {
    pub name: Seq<char>,
    pub relative_path: Seq<char>,
    pub kind: CgroupKindView,
    pub children: Seq<CgroupNodeView>,
    pub truncated: bool,
}

pub open spec fn node_view(n: CgroupNode) -> CgroupNodeView
    decreases n, 1nat,
{
    CgroupNodeView {
        name: n.name@,
        relative_path: n.relative_path@,
        kind: n.kind@,
        children: nodes_view(n.children@),
        truncated: n.truncated,
    }
}

pub open spec fn nodes_view(s: Seq<CgroupNode>) -> Seq<CgroupNodeView>
    decreases s, 0nat,
{
    if s.len() == 0 {
        Seq::empty()
    } else {
        nodes_view(s.drop_last()).push(node_view(s.last()))
    }
}

impl View for CgroupNode {
    type V = CgroupNodeView;

    open spec fn view(&self) -> CgroupNodeView {
        node_view(*self)
    }
}

/// A copy of `k`.
pub fn clone_kind(k: &CgroupKind) -> (r: CgroupKind)
    ensures
        r@ == k@,
{
    match k {
        CgroupKind::Root => CgroupKind::Root,
        CgroupKind::Slice => CgroupKind::Slice,
        CgroupKind::Service => CgroupKind::Service,
        CgroupKind::Scope => CgroupKind::Scope,
        CgroupKind::Mount => CgroupKind::Mount,
        CgroupKind::Socket => CgroupKind::Socket,
        CgroupKind::Other(s) => CgroupKind::Other(s.clone()),
    }
}

impl Clone for CgroupNode {
    /// A copy of the node and of every node below it.
    fn clone(&self) -> (r: Self)
        ensures
            r@ == self@,
        decreases self,
    {
        let mut children: Vec<CgroupNode> = Vec::new();
        for i in 0..self.children.len()
            invariant
                nodes_view(children@) == nodes_view(self.children@.take(i as int)),
        {
            let c = self.children[i].clone();
            let ghost old_children = children@;
            children.push(c);
            assert(children@.drop_last() == old_children);
            assert(self.children@.take(i + 1).drop_last() == self.children@.take(i as int));
        }
        assert(self.children@.take(self.children@.len() as int) == self.children@);
        CgroupNode {
            name: self.name.clone(),
            relative_path: self.relative_path.clone(),
            kind: clone_kind(&self.kind),
            children,
            truncated: self.truncated,
        }
    }
}

/// Nodes sort by name, in the order of `String`.
pub open spec fn name_order() -> spec_fn(CgroupNodeView, CgroupNodeView) -> bool {
    |a: CgroupNodeView, b: CgroupNodeView| chars_lt(b.name, a.name)
}

/// Children sort by name, in the order of `String`.
impl SortOrder for CgroupNode {
    open spec fn goes_after(&self, other: &Self) -> bool {
        chars_lt(other.name@, self.name@)
    }

    fn is_after(&self, other: &Self) -> (r: bool) {
        let a = chars_of(other.name.as_str());
        let b = chars_of(self.name.as_str());
        chars_less(&a, &b)
    }
}

/// What the walk needs to know of a directory: whether it is a cgroup (it
/// holds a `cgroup.controllers` file) and the directories inside it, by
/// name, in any order. Where the walk stops, the directories inside are
/// known but not what they hold.
#[derive(Debug)]
pub struct CgroupDir {
    pub is_cgroup: bool,
    pub subdirs: Vec<(String, CgroupDir)>,
}

/// The walk goes no deeper than `max_depth` levels below the root.
pub open spec fn at_limit(depth: nat, max_depth: Option<usize>) -> bool {
    match max_depth {
        Some(d) => depth >= d,
        None => false,
    }
}

/// The depth of the children of a node at `depth`. Without a limit the
/// depth is not counted.
pub open spec fn next_depth(depth: nat, max_depth: Option<usize>) -> nat {
    match max_depth {
        Some(_) => depth + 1,
        None => depth,
    }
}

/// The path of child `name` of the node at path `parent`.
pub open spec fn join_rel(parent: Seq<char>, name: Seq<char>) -> Seq<char> {
    if parent.len() == 0 {
        name
    } else {
        parent + "/"@ + name
    }
}

/// Some directory inside `dir` is a cgroup.
pub open spec fn has_cgroup_child(dir: CgroupDir) -> bool {
    exists|k: int| 0 <= k < dir.subdirs@.len() && (#[trigger] dir.subdirs@[k]).1.is_cgroup
}

/// The tree of the cgroup directory `dir`, named `name` at path `rel`,
/// `depth` levels down: its kind comes from its name (the root's is
/// `Root`); below the depth limit its children are the trees of the
/// cgroups inside `dir`, sorted by name; at the limit it has no children
/// and is marked truncated when `dir` holds a cgroup.
pub open spec fn tree_of(
    dir: CgroupDir,
    name: Seq<char>,
    rel: Seq<char>,
    is_root: bool,
    depth: nat,
    max_depth: Option<usize>,
) -> CgroupNodeView
    decreases dir, 1nat,
{
    CgroupNodeView {
        name,
        relative_path: rel,
        kind: if is_root {
            CgroupKindView::Root
        } else {
            kind_of_name(name)
        },
        children: if at_limit(depth, max_depth) {
            Seq::empty()
        } else {
            sort_by(
                subtrees(dir.subdirs@, rel, next_depth(depth, max_depth), max_depth),
                name_order(),
            )
        },
        truncated: at_limit(depth, max_depth) && has_cgroup_child(dir),
    }
}

/// The trees of the cgroups among the directories `subs` under the node at
/// path `rel`, in the order of `subs`.
pub open spec fn subtrees(
    subs: Seq<(String, CgroupDir)>,
    rel: Seq<char>,
    depth: nat,
    max_depth: Option<usize>,
) -> Seq<CgroupNodeView>
    decreases subs, 0nat,
{
    if subs.len() == 0 {
        Seq::empty()
    } else {
        let r = subtrees(subs.drop_last(), rel, depth, max_depth);
        if subs.last().1.is_cgroup {
            r.push(
                tree_of(
                    subs.last().1,
                    subs.last().0@,
                    join_rel(rel, subs.last().0@),
                    false,
                    depth,
                    max_depth,
                ),
            )
        } else {
            r
        }
    }
}

/// The tree of a cgroup root `root`, walked at most `max_depth` levels down.
pub open spec fn cgroup_tree(root: CgroupDir, max_depth: Option<usize>) -> CgroupNodeView {
    tree_of(root, Seq::empty(), Seq::empty(), true, 0, max_depth)
}

proof fn lemma_nodes_view_map(s: Seq<CgroupNode>)
    ensures
        nodes_view(s) == s.map_values(|n: CgroupNode| node_view(n)),
    decreases s.len(),
{
    if s.len() > 0 {
        lemma_nodes_view_map(s.drop_last());
        assert(s.drop_last().map_values(|n: CgroupNode| node_view(n)).push(node_view(s.last()))
            =~= s.map_values(|n: CgroupNode| node_view(n)));
    }
}

/// The order of nodes is the order of their views.
proof fn lemma_sort_nodes_view(s: Seq<CgroupNode>)
    ensures
        nodes_view(sort_by(s, order_of::<CgroupNode>())) == sort_by(nodes_view(s), name_order()),
{
    let f = |n: CgroupNode| node_view(n);
    assert forall|a: CgroupNode, b: CgroupNode| #[trigger]
        order_of::<CgroupNode>()(a, b) == name_order()(f(a), f(b)) by {}
    lemma_sort_map(s, f, order_of::<CgroupNode>(), name_order());
    lemma_nodes_view_map(s);
    lemma_nodes_view_map(sort_by(s, order_of::<CgroupNode>()));
}

/// Why no tree could be built.
#[derive(Clone, Copy, Debug, PartialEq, Eq, Structural)]
pub enum TreeError {
    /// The root directory holds no `cgroup.controllers` file.
    NotCgroupDir,
}

impl TreeError {
    /// The text that tells this error.
    pub fn message(&self) -> (r: String)
        ensures
            r@ == "not a cgroup directory (no cgroup.controllers)"@,
    {
        let mut out: Vec<char> = Vec::new();
        push_str(&mut out, "not a cgroup directory (no cgroup.controllers)");
        string_from_chars(&out)
    }
}

/// The path of child `name` under `parent`.
pub fn join_relative(parent: &Vec<char>, name: &Vec<char>) -> (r: Vec<char>)
    ensures
        r@ == join_rel(parent@, name@),
{
    if parent.len() == 0 {
        let mut r: Vec<char> = Vec::new();
        push_chars(&mut r, name);
        r
    } else {
        let mut r: Vec<char> = Vec::new();
        push_chars(&mut r, parent);
        push_str(&mut r, "/");
        push_chars(&mut r, name);
        r
    }
}

fn any_cgroup(dir: &CgroupDir) -> (r: bool)
    ensures
        r == has_cgroup_child(*dir),
{
    for k in 0..dir.subdirs.len()
        invariant
            forall|j: int| 0 <= j < k ==> !(#[trigger] dir.subdirs@[j]).1.is_cgroup,
    {
        if dir.subdirs[k].1.is_cgroup {
            assert(dir.subdirs@[k as int].1.is_cgroup);
            return true;
        }
    }
    false
}

fn build_children(dir: &CgroupDir, rel: &Vec<char>, nd: usize, max_depth: Option<usize>) -> (r:
    Vec<CgroupNode>)
    requires
        max_depth matches Some(d) ==> nd <= d,
    ensures
        nodes_view(r@) == subtrees(dir.subdirs@, rel@, nd as nat, max_depth),
    decreases dir, 0nat,
{
    let ghost subs = dir.subdirs@;
    let mut nodes: Vec<CgroupNode> = Vec::new();
    for k in 0..dir.subdirs.len()
        invariant
            subs == dir.subdirs@,
            max_depth matches Some(d) ==> nd <= d,
            nodes_view(nodes@) == subtrees(subs.take(k as int), rel@, nd as nat, max_depth),
    {
        assert(subs.take(k + 1).drop_last() == subs.take(k as int));
        assert(subs.take(k + 1).last() == subs[k as int]);
        let entry = &dir.subdirs[k];
        if entry.1.is_cgroup {
            let cn = chars_of(entry.0.as_str());
            let crel = join_relative(rel, &cn);
            let child = walk(&entry.1, cn, crel, false, nd, max_depth);
            let ghost old_nodes = nodes@;
            nodes.push(child);
            assert(nodes@.drop_last() == old_nodes);
        }
    }
    assert(subs.take(subs.len() as int) == subs);
    nodes
}

fn walk(
    dir: &CgroupDir,
    name: Vec<char>,
    rel: Vec<char>,
    is_root: bool,
    depth: usize,
    max_depth: Option<usize>,
) -> (r: CgroupNode)
    requires
        max_depth matches Some(d) ==> depth <= d,
    ensures
        r@ == tree_of(*dir, name@, rel@, is_root, depth as nat, max_depth),
    decreases dir, 1nat,
{
    let kind = if is_root {
        CgroupKind::Root
    } else {
        kind_from_name(&name)
    };
    let limit = match max_depth {
        Some(d) => depth >= d,
        None => false,
    };
    if limit {
        let truncated = any_cgroup(dir);
        let node = CgroupNode {
            name: string_from_chars(&name),
            relative_path: string_from_chars(&rel),
            kind,
            children: Vec::new(),
            truncated,
        };
        assert(nodes_view(node.children@) =~= Seq::<CgroupNodeView>::empty());
        return node;
    }
    let nd: usize = match max_depth {
        Some(_) => depth + 1,
        None => depth,
    };
    let nodes = build_children(dir, &rel, nd, max_depth);
    let ghost unsorted = nodes@;
    let sorted = sort_vec(nodes);
    proof {
        lemma_sort_nodes_view(unsorted);
    }
    CgroupNode {
        name: string_from_chars(&name),
        relative_path: string_from_chars(&rel),
        kind,
        children: sorted,
        truncated: false,
    }
}

/// Builds the cgroup tree of `root`, going at most `max_depth` levels
/// down; an error when `root` is no cgroup.
pub fn read_cgroup_tree(root: &CgroupDir, max_depth: Option<usize>) -> (r: Result<
    CgroupNode,
    TreeError,
>)
    ensures
        !root.is_cgroup ==> r == Err::<CgroupNode, TreeError>(TreeError::NotCgroupDir),
        root.is_cgroup ==> (r matches Ok(n) && n@ == cgroup_tree(*root, max_depth)),
{
    if !root.is_cgroup {
        return Err(TreeError::NotCgroupDir);
    }
    let node = walk(root, Vec::new(), Vec::new(), true, 0, max_depth);
    Ok(node)
}

/// The children of every node of a tree are sorted by name.
pub proof fn lemma_children_in_name_order(
    dir: CgroupDir,
    name: Seq<char>,
    rel: Seq<char>,
    is_root: bool,
    depth: nat,
    max_depth: Option<usize>,
)
    ensures
        in_order_by(tree_of(dir, name, rel, is_root, depth, max_depth).children, name_order()),
{
    assert(strict_by(name_order())) by {
        assert forall|a: CgroupNodeView, b: CgroupNodeView| #[trigger]
            name_order()(a, b) implies !name_order()(b, a) by {
            lemma_chars_lt_trichotomy(a.name, b.name);
        }
        assert forall|a: CgroupNodeView, b: CgroupNodeView, c: CgroupNodeView| #[trigger]
            name_order()(a, b) && #[trigger] name_order()(b, c) implies name_order()(a, c) by {
            lemma_chars_lt_transitive(c.name, b.name, a.name);
        }
    }
    if !at_limit(depth, max_depth) {
        lemma_sort_in_order(
            subtrees(dir.subdirs@, rel, next_depth(depth, max_depth), max_depth),
            name_order(),
        );
    }
}

/// Every node of `n` lies at most `levels` levels below it: the nodes
/// `levels` levels down have no children.
pub open spec fn within_levels(n: CgroupNodeView, levels: nat) -> bool
    decreases levels,
{
    if levels == 0 {
        n.children.len() == 0
    } else {
        forall|i: int|
            0 <= i < n.children.len() ==> within_levels(
                #[trigger] n.children[i],
                (levels - 1) as nat,
            )
    }
}

proof fn lemma_subtrees_within(
    subs: Seq<(String, CgroupDir)>,
    rel: Seq<char>,
    depth: nat,
    d: usize,
)
    requires
        depth <= d,
    ensures
        forall|i: int|
            0 <= i < subtrees(subs, rel, depth, Some(d)).len() ==> within_levels(
                #[trigger] subtrees(subs, rel, depth, Some(d))[i],
                (d - depth) as nat,
            ),
    decreases subs, 0nat,
{
    if subs.len() > 0 {
        let r = subtrees(subs.drop_last(), rel, depth, Some(d));
        lemma_subtrees_within(subs.drop_last(), rel, depth, d);
        if subs.last().1.is_cgroup {
            let t = tree_of(
                subs.last().1,
                subs.last().0@,
                join_rel(rel, subs.last().0@),
                false,
                depth,
                Some(d),
            );
            lemma_tree_within_depth(
                subs.last().1,
                subs.last().0@,
                join_rel(rel, subs.last().0@),
                false,
                depth,
                d,
            );
            assert(subtrees(subs, rel, depth, Some(d)) == r.push(t));
            assert forall|i: int| 0 <= i < r.len() + 1 implies within_levels(
                #[trigger] r.push(t)[i],
                (d - depth) as nat,
            ) by {
                if i < r.len() {
                    assert(r.push(t)[i] == r[i]);
                }
            }
        }
    }
}

/// A walk limited to `d` levels goes no deeper: below a node `depth`
/// levels down, no node lies more than `d - depth` levels further down.
pub proof fn lemma_tree_within_depth(
    dir: CgroupDir,
    name: Seq<char>,
    rel: Seq<char>,
    is_root: bool,
    depth: nat,
    d: usize,
)
    requires
        depth <= d,
    ensures
        within_levels(tree_of(dir, name, rel, is_root, depth, Some(d)), (d - depth) as nat),
    decreases dir, 1nat,
{
    if depth < d {
        let subs = subtrees(dir.subdirs@, rel, depth + 1, Some(d));
        lemma_subtrees_within(dir.subdirs@, rel, depth + 1, d);
        lemma_sort_permutes(subs, name_order());
        let sorted = sort_by(subs, name_order());
        assert forall|i: int| 0 <= i < sorted.len() implies within_levels(
            #[trigger] sorted[i],
            (d - depth - 1) as nat,
        ) by {
            broadcast use vstd::seq_lib::group_to_multiset_ensures;

            assert(sorted.contains(sorted[i]));
            assert(subs.to_multiset().count(sorted[i]) > 0);
            assert(subs.contains(sorted[i]));
            let j = choose|j: int| 0 <= j < subs.len() && subs[j] == sorted[i];
            assert(within_levels(subs[j], (d - (depth + 1)) as nat));
        }
    }
}

/// The tree that `read_cgroup_tree` builds with the limit `d` holds no node
/// more than `d` levels below the root.
pub proof fn lemma_cgroup_tree_depth(root: CgroupDir, d: usize)
    ensures
        within_levels(cgroup_tree(root, Some(d)), d as nat),
{
    lemma_tree_within_depth(root, Seq::empty(), Seq::empty(), true, 0, d);
}

/// The tree `n` cut `levels` levels down: the nodes at that depth lose
/// their children and are marked truncated exactly when they had some;
/// the nodes above keep theirs and are not truncated.
pub open spec fn prune(n: CgroupNodeView, levels: nat) -> CgroupNodeView
    decreases levels, 0nat,
{
    if levels == 0 {
        CgroupNodeView {
            name: n.name,
            relative_path: n.relative_path,
            kind: n.kind,
            children: Seq::empty(),
            truncated: n.children.len() > 0,
        }
    } else {
        CgroupNodeView {
            name: n.name,
            relative_path: n.relative_path,
            kind: n.kind,
            children: prune_all(n.children, (levels - 1) as nat),
            truncated: false,
        }
    }
}

/// Each of the trees `s` cut `levels` levels down.
pub open spec fn prune_all(s: Seq<CgroupNodeView>, levels: nat) -> Seq<CgroupNodeView>
    decreases levels, s.len() + 1,
{
    if s.len() == 0 {
        Seq::empty()
    } else {
        prune_all(s.drop_last(), levels).push(prune(s.last(), levels))
    }
}

proof fn lemma_prune_all_map(s: Seq<CgroupNodeView>, levels: nat)
    ensures
        prune_all(s, levels) == s.map_values(|c: CgroupNodeView| prune(c, levels)),
    decreases s.len(),
{
    if s.len() > 0 {
        lemma_prune_all_map(s.drop_last(), levels);
        assert(s.drop_last().map_values(|c: CgroupNodeView| prune(c, levels)).push(
            prune(s.last(), levels),
        ) =~= s.map_values(|c: CgroupNodeView| prune(c, levels)));
    }
}

proof fn lemma_subtrees_len(subs: Seq<(String, CgroupDir)>, rel: Seq<char>, depth: nat, max_depth: Option<usize>)
    ensures
        subtrees(subs, rel, depth, max_depth).len() > 0 <==> exists|k: int|
            0 <= k < subs.len() && (#[trigger] subs[k]).1.is_cgroup,
    decreases subs.len(),
{
    if subs.len() > 0 {
        lemma_subtrees_len(subs.drop_last(), rel, depth, max_depth);
        if exists|k: int| 0 <= k < subs.len() && (#[trigger] subs[k]).1.is_cgroup {
            let k = choose|k: int| 0 <= k < subs.len() && (#[trigger] subs[k]).1.is_cgroup;
            if k < subs.len() - 1 {
                assert(subs.drop_last()[k] == subs[k]);
            }
        }
        if exists|k: int| 0 <= k < subs.len() - 1 && (#[trigger] subs.drop_last()[k]).1.is_cgroup {
            let k = choose|k: int| 0 <= k < subs.len() - 1 && (#[trigger] subs.drop_last()[k]).1.is_cgroup;
            assert(subs[k] == subs.drop_last()[k]);
        }
    }
}

proof fn lemma_subtrees_prune(subs: Seq<(String, CgroupDir)>, rel: Seq<char>, depth: nat, d: usize)
    requires
        depth <= d,
    ensures
        subtrees(subs, rel, depth, Some(d)) == prune_all(subtrees(subs, rel, 0, None), (d - depth) as nat),
    decreases subs, 0nat,
{
    if subs.len() > 0 {
        lemma_subtrees_prune(subs.drop_last(), rel, depth, d);
        if subs.last().1.is_cgroup {
            let rf = subtrees(subs.drop_last(), rel, 0, None);
            let tf = tree_of(subs.last().1, subs.last().0@, join_rel(rel, subs.last().0@), false, 0, None);
            assert(rf.push(tf).drop_last() == rf);
            assert(rf.push(tf).last() == tf);
            lemma_tree_prune(
                subs.last().1,
                subs.last().0@,
                join_rel(rel, subs.last().0@),
                false,
                depth,
                d,
            );
        }
    }
}

/// A walk limited to `d` levels gives the unlimited walk cut at `d`:
/// below a node `depth` levels down, its tree is the full tree of that
/// node cut `d - depth` levels further down.
pub proof fn lemma_tree_prune(
    dir: CgroupDir,
    name: Seq<char>,
    rel: Seq<char>,
    is_root: bool,
    depth: nat,
    d: usize,
)
    requires
        depth <= d,
    ensures
        tree_of(dir, name, rel, is_root, depth, Some(d)) == prune(
            tree_of(dir, name, rel, is_root, 0, None),
            (d - depth) as nat,
        ),
    decreases dir, 1nat,
{
    let full = tree_of(dir, name, rel, is_root, 0, None);
    let cut = tree_of(dir, name, rel, is_root, depth, Some(d));
    let fs = subtrees(dir.subdirs@, rel, 0, None);
    lemma_sort_permutes(fs, name_order());
    if depth == d {
        lemma_subtrees_len(dir.subdirs@, rel, 0, None);
        assert(has_cgroup_child(dir) <==> exists|k: int|
            0 <= k < dir.subdirs@.len() && (#[trigger] dir.subdirs@[k]).1.is_cgroup);
        assert(cut.children =~= prune(full, 0).children);
    } else {
        let l = (d - depth - 1) as nat;
        lemma_subtrees_prune(dir.subdirs@, rel, depth + 1, d);
        let f = |c: CgroupNodeView| prune(c, l);
        lemma_prune_all_map(fs, l);
        lemma_prune_all_map(sort_by(fs, name_order()), l);
        assert forall|a: CgroupNodeView, b: CgroupNodeView| #[trigger]
            name_order()(a, b) == name_order()(f(a), f(b)) by {}
        lemma_sort_map(fs, f, name_order(), name_order());
        assert(cut.children == prune(full, (d - depth) as nat).children);
    }
}

/// The tree that `read_cgroup_tree` builds with the limit `d` is the tree
/// it builds without a limit, cut `d` levels down.
pub proof fn lemma_cgroup_tree_prune(root: CgroupDir, d: usize)
    ensures
        cgroup_tree(root, Some(d)) == prune(cgroup_tree(root, None), d as nat),
{
    lemma_tree_prune(root, Seq::empty(), Seq::empty(), true, 0, d);
}

/// The paths of `n` and of every node below it.
pub open spec fn node_paths(n: CgroupNodeView) -> Set<Seq<char>>
    decreases n, 1nat,
{
    set![n.relative_path].union(forest_paths(n.children))
}

/// The paths of the nodes of the trees `s`.
pub open spec fn forest_paths(s: Seq<CgroupNodeView>) -> Set<Seq<char>>
    decreases s, 0nat,
{
    if s.len() == 0 {
        Set::empty()
    } else {
        forest_paths(s.drop_last()).union(node_paths(s.last()))
    }
}

/// The paths, under the path `rel` of `dir`, of the directories reached
/// from `dir` through cgroup directories only, each a cgroup itself.
pub open spec fn dir_paths(dir: CgroupDir, rel: Seq<char>) -> Set<Seq<char>>
    decreases dir, 1nat,
{
    sub_paths(dir.subdirs@, rel)
}

/// The paths of the cgroups among the directories `subs` under `rel`, and
/// of those reached through them.
pub open spec fn sub_paths(subs: Seq<(String, CgroupDir)>, rel: Seq<char>) -> Set<Seq<char>>
    decreases subs, 0nat,
{
    if subs.len() == 0 {
        Set::empty()
    } else {
        let r = sub_paths(subs.drop_last(), rel);
        if subs.last().1.is_cgroup {
            let p = join_rel(rel, subs.last().0@);
            r.union(set![p]).union(dir_paths(subs.last().1, p))
        } else {
            r
        }
    }
}

/// What holds of each node of a walk without a limit: it is not
/// truncated, each child's path is the node's path joined with the child's
/// name, each child's kind comes from its name, and the children come in
/// name order.
pub open spec fn walked_node(n: CgroupNodeView) -> bool {
    &&& !n.truncated
    &&& forall|i: int|
        0 <= i < n.children.len() ==> (#[trigger] n.children[i]).relative_path == join_rel(
            n.relative_path,
            n.children[i].name,
        ) && n.children[i].kind == kind_of_name(n.children[i].name)
    &&& in_order_by(n.children, name_order())
}

/// `walked_node` holds of `n` and of every node below it.
pub open spec fn all_walked(n: CgroupNodeView) -> bool
    decreases n, 1nat,
{
    walked_node(n) && all_walked_forest(n.children)
}

pub open spec fn all_walked_forest(s: Seq<CgroupNodeView>) -> bool
    decreases s, 0nat,
{
    s.len() == 0 || (all_walked_forest(s.drop_last()) && all_walked(s.last()))
}

proof fn lemma_forest_paths_at(s: Seq<CgroupNodeView>, p: Seq<char>)
    ensures
        forest_paths(s).contains(p) <==> exists|i: int|
            0 <= i < s.len() && node_paths(#[trigger] s[i]).contains(p),
    decreases s.len(),
{
    if s.len() > 0 {
        lemma_forest_paths_at(s.drop_last(), p);
        if exists|i: int| 0 <= i < s.len() && node_paths(#[trigger] s[i]).contains(p) {
            let i = choose|i: int| 0 <= i < s.len() && node_paths(#[trigger] s[i]).contains(p);
            if i < s.len() - 1 {
                assert(s.drop_last()[i] == s[i]);
            }
        }
        if exists|i: int| 0 <= i < s.len() - 1 && node_paths(#[trigger] s.drop_last()[i]).contains(p) {
            let i = choose|i: int| 0 <= i < s.len() - 1 && node_paths(#[trigger] s.drop_last()[i]).contains(p);
            assert(s[i] == s.drop_last()[i]);
        }
    }
}

proof fn lemma_all_walked_forest_at(s: Seq<CgroupNodeView>)
    ensures
        all_walked_forest(s) <==> forall|i: int| 0 <= i < s.len() ==> all_walked(#[trigger] s[i]),
    decreases s.len(),
{
    if s.len() > 0 {
        let pre = s.drop_last();
        lemma_all_walked_forest_at(pre);
        assert forall|i: int| 0 <= i < s.len() - 1 implies #[trigger] pre[i] == s[i] by {}
        if forall|i: int| 0 <= i < s.len() ==> all_walked(#[trigger] s[i]) {
            assert forall|i: int| 0 <= i < pre.len() implies all_walked(#[trigger] pre[i]) by {
                assert(all_walked(s[i]));
            }
            assert(all_walked(s[s.len() - 1]));
        }
        if all_walked_forest(s) {
            assert forall|i: int| 0 <= i < s.len() implies all_walked(#[trigger] s[i]) by {
                if i < s.len() - 1 {
                    assert(all_walked(pre[i]));
                }
            }
        }
    }
}

/// Two forests with the same trees, in any order, hold the same paths and
/// are walked alike.
proof fn lemma_forest_perm(s: Seq<CgroupNodeView>, t: Seq<CgroupNodeView>)
    requires
        s.to_multiset() == t.to_multiset(),
    ensures
        forest_paths(s) == forest_paths(t),
        all_walked_forest(s) <==> all_walked_forest(t),
{
    broadcast use vstd::seq_lib::group_to_multiset_ensures;

    assert forall|p: Seq<char>| forest_paths(s).contains(p) <==> forest_paths(t).contains(p) by {
        lemma_forest_paths_at(s, p);
        lemma_forest_paths_at(t, p);
        if forest_paths(s).contains(p) {
            let i = choose|i: int| 0 <= i < s.len() && node_paths(#[trigger] s[i]).contains(p);
            assert(s.contains(s[i]));
            assert(s.to_multiset().count(s[i]) > 0);
            assert(t.contains(s[i]));
            let j = choose|j: int| 0 <= j < t.len() && t[j] == s[i];
            assert(node_paths(t[j]).contains(p));
        }
        if forest_paths(t).contains(p) {
            let i = choose|i: int| 0 <= i < t.len() && node_paths(#[trigger] t[i]).contains(p);
            assert(t.contains(t[i]));
            assert(t.to_multiset().count(t[i]) > 0);
            assert(s.contains(t[i]));
            let j = choose|j: int| 0 <= j < s.len() && s[j] == t[i];
            assert(node_paths(s[j]).contains(p));
        }
    }
    assert(forest_paths(s) =~= forest_paths(t));
    lemma_all_walked_forest_at(s);
    lemma_all_walked_forest_at(t);
    if all_walked_forest(s) {
        assert forall|i: int| 0 <= i < t.len() implies all_walked(#[trigger] t[i]) by {
            assert(t.contains(t[i]));
            assert(t.to_multiset().count(t[i]) > 0);
            assert(s.contains(t[i]));
            let j = choose|j: int| 0 <= j < s.len() && s[j] == t[i];
            assert(all_walked(s[j]));
        }
    }
    if all_walked_forest(t) {
        assert forall|i: int| 0 <= i < s.len() implies all_walked(#[trigger] s[i]) by {
            assert(s.contains(s[i]));
            assert(s.to_multiset().count(s[i]) > 0);
            assert(t.contains(s[i]));
            let j = choose|j: int| 0 <= j < t.len() && t[j] == s[i];
            assert(all_walked(t[j]));
        }
    }
}

proof fn lemma_subtrees_walked(subs: Seq<(String, CgroupDir)>, rel: Seq<char>)
    ensures
        forest_paths(subtrees(subs, rel, 0, None)) == sub_paths(subs, rel),
        all_walked_forest(subtrees(subs, rel, 0, None)),
        forall|i: int|
            0 <= i < subtrees(subs, rel, 0, None).len() ==> (#[trigger] subtrees(
                subs,
                rel,
                0,
                None,
            )[i]).relative_path == join_rel(rel, subtrees(subs, rel, 0, None)[i].name)
                && subtrees(subs, rel, 0, None)[i].kind == kind_of_name(
                subtrees(subs, rel, 0, None)[i].name,
            ),
    decreases subs, 0nat,
{
    if subs.len() > 0 {
        let r = subtrees(subs.drop_last(), rel, 0, None);
        lemma_subtrees_walked(subs.drop_last(), rel);
        if subs.last().1.is_cgroup {
            let p = join_rel(rel, subs.last().0@);
            let t = tree_of(subs.last().1, subs.last().0@, p, false, 0, None);
            lemma_tree_walked(subs.last().1, subs.last().0@, p, false);
            let r2 = r.push(t);
            assert(subtrees(subs, rel, 0, None) == r2);
            assert(r2.drop_last() == r);
            assert(r2.last() == t);
            assert(forest_paths(r2) =~= sub_paths(subs, rel));
            assert forall|i: int| 0 <= i < r2.len() implies (#[trigger] r2[i]).relative_path
                == join_rel(rel, r2[i].name) && r2[i].kind == kind_of_name(r2[i].name) by {
                if i < r.len() {
                    assert(r2[i] == r[i]);
                }
            }
        }
    }
}

/// The tree of a cgroup directory walked without a limit holds exactly the
/// paths of the directories reached from it through cgroup directories,
/// and every node of it is walked as `walked_node` says.
pub proof fn lemma_tree_walked(dir: CgroupDir, name: Seq<char>, rel: Seq<char>, is_root: bool)
    ensures
        node_paths(tree_of(dir, name, rel, is_root, 0, None)) == set![rel].union(
            dir_paths(dir, rel),
        ),
        all_walked(tree_of(dir, name, rel, is_root, 0, None)),
    decreases dir, 1nat,
{
    let fs = subtrees(dir.subdirs@, rel, 0, None);
    let sorted = sort_by(fs, name_order());
    lemma_subtrees_walked(dir.subdirs@, rel);
    lemma_sort_permutes(fs, name_order());
    lemma_forest_perm(fs, sorted);
    lemma_children_in_name_order(dir, name, rel, is_root, 0, None);
    let t = tree_of(dir, name, rel, is_root, 0, None);
    assert(t.children == sorted);
    assert forall|i: int| 0 <= i < sorted.len() implies (#[trigger] sorted[i]).relative_path
        == join_rel(rel, sorted[i].name) && sorted[i].kind == kind_of_name(sorted[i].name) by {
        broadcast use vstd::seq_lib::group_to_multiset_ensures;

        assert(sorted.contains(sorted[i]));
        assert(sorted.to_multiset().count(sorted[i]) > 0);
        assert(fs.contains(sorted[i]));
        let j = choose|j: int| 0 <= j < fs.len() && fs[j] == sorted[i];
        assert(fs[j].relative_path == join_rel(rel, fs[j].name));
    }
    assert(walked_node(t));
}

/// The tree that `read_cgroup_tree` builds without a limit: the root is
/// named `""` at path `""` with kind `Root`; its paths are `""` and those of
/// the directories reached from the root through cgroup directories, each
/// a cgroup; no node is truncated, each child's path joins its parent's
/// path and its name, each child's kind comes from its name, and children
/// come in name order, strictly where no directory holds two entries of one
/// name.
pub proof fn lemma_cgroup_tree_full(root: CgroupDir)
    ensures
        cgroup_tree(root, None).name == Seq::<char>::empty(),
        cgroup_tree(root, None).relative_path == Seq::<char>::empty(),
        cgroup_tree(root, None).kind == CgroupKindView::Root,
        node_paths(cgroup_tree(root, None)) == set![Seq::<char>::empty()].union(
            dir_paths(root, Seq::empty()),
        ),
        all_walked(cgroup_tree(root, None)),
        dir_names_distinct(root) ==> all_strict(cgroup_tree(root, None)),
{
    lemma_tree_walked(root, Seq::empty(), Seq::empty(), true);
    if dir_names_distinct(root) {
        lemma_tree_strict(root, Seq::empty(), Seq::empty(), true);
    }
}

/// No two of the directories `subs` share a name.
pub open spec fn names_distinct(subs: Seq<(String, CgroupDir)>) -> bool {
    forall|a: int, b: int| 0 <= a < b < subs.len() ==> (#[trigger] subs[a]).0@ != (#[trigger] subs[b]).0@
}

/// No directory of the listing `dir`, at any depth, holds two entries of
/// one name, as in a file system.
pub open spec fn dir_names_distinct(dir: CgroupDir) -> bool
    decreases dir, 1nat,
{
    names_distinct(dir.subdirs@) && subs_names_distinct(dir.subdirs@)
}

pub open spec fn subs_names_distinct(subs: Seq<(String, CgroupDir)>) -> bool
    decreases subs, 0nat,
{
    subs.len() == 0 || (subs_names_distinct(subs.drop_last()) && dir_names_distinct(subs.last().1))
}

/// The names of `s` ascend strictly.
pub open spec fn strictly_by_name(s: Seq<CgroupNodeView>) -> bool {
    forall|i: int, j: int| 0 <= i < j < s.len() ==> chars_lt((#[trigger] s[i]).name, (#[trigger] s[j]).name)
}

/// At `n` and every node below it, the children's names ascend strictly.
pub open spec fn all_strict(n: CgroupNodeView) -> bool
    decreases n, 1nat,
{
    strictly_by_name(n.children) && all_strict_forest(n.children)
}

pub open spec fn all_strict_forest(s: Seq<CgroupNodeView>) -> bool
    decreases s, 0nat,
{
    s.len() == 0 || (all_strict_forest(s.drop_last()) && all_strict(s.last()))
}

proof fn lemma_all_strict_forest_at(s: Seq<CgroupNodeView>)
    ensures
        all_strict_forest(s) <==> forall|i: int| 0 <= i < s.len() ==> all_strict(#[trigger] s[i]),
    decreases s.len(),
{
    if s.len() > 0 {
        let pre = s.drop_last();
        lemma_all_strict_forest_at(pre);
        assert forall|i: int| 0 <= i < s.len() - 1 implies #[trigger] pre[i] == s[i] by {}
        if forall|i: int| 0 <= i < s.len() ==> all_strict(#[trigger] s[i]) {
            assert forall|i: int| 0 <= i < pre.len() implies all_strict(#[trigger] pre[i]) by {
                assert(all_strict(s[i]));
            }
            assert(all_strict(s[s.len() - 1]));
        }
        if all_strict_forest(s) {
            assert forall|i: int| 0 <= i < s.len() implies all_strict(#[trigger] s[i]) by {
                if i < s.len() - 1 {
                    assert(all_strict(pre[i]));
                }
            }
        }
    }
}

proof fn lemma_subs_names_distinct_at(subs: Seq<(String, CgroupDir)>)
    ensures
        subs_names_distinct(subs) <==> forall|k: int|
            0 <= k < subs.len() ==> dir_names_distinct((#[trigger] subs[k]).1),
    decreases subs.len(),
{
    if subs.len() > 0 {
        let pre = subs.drop_last();
        lemma_subs_names_distinct_at(pre);
        assert forall|k: int| 0 <= k < subs.len() - 1 implies #[trigger] pre[k] == subs[k] by {}
        if forall|k: int| 0 <= k < subs.len() ==> dir_names_distinct((#[trigger] subs[k]).1) {
            assert forall|k: int| 0 <= k < pre.len() implies dir_names_distinct((#[trigger] pre[k]).1) by {
                assert(dir_names_distinct(subs[k].1));
            }
            assert(dir_names_distinct(subs[subs.len() - 1].1));
        }
        if subs_names_distinct(subs) {
            assert forall|k: int| 0 <= k < subs.len() implies dir_names_distinct((#[trigger] subs[k]).1) by {
                if k < subs.len() - 1 {
                    assert(dir_names_distinct(pre[k].1));
                }
            }
        }
    }
}

proof fn lemma_subtrees_strict(subs: Seq<(String, CgroupDir)>, rel: Seq<char>)
    requires
        subs_names_distinct(subs),
    ensures
        all_strict_forest(subtrees(subs, rel, 0, None)),
        forall|i: int|
            0 <= i < subtrees(subs, rel, 0, None).len() ==> exists|k: int|
                0 <= k < subs.len() && (#[trigger] subtrees(subs, rel, 0, None)[i]).name == (
                #[trigger] subs[k]).0@,
        names_distinct(subs) ==> forall|i: int, j: int|
            0 <= i < j < subtrees(subs, rel, 0, None).len() ==> (#[trigger] subtrees(
                subs,
                rel,
                0,
                None,
            )[i]).name != (#[trigger] subtrees(subs, rel, 0, None)[j]).name,
    decreases subs, 0nat,
{
    if subs.len() > 0 {
        let pre = subs.drop_last();
        let r = subtrees(pre, rel, 0, None);
        lemma_subtrees_strict(pre, rel);
        assert forall|k: int| 0 <= k < pre.len() implies #[trigger] pre[k] == subs[k] by {}
        if names_distinct(subs) {
            assert forall|a: int, b: int| 0 <= a < b < pre.len() implies (#[trigger] pre[a]).0@
                != (#[trigger] pre[b]).0@ by {
                assert(subs[a].0@ != subs[b].0@);
            }
        }
        if subs.last().1.is_cgroup {
            let p = join_rel(rel, subs.last().0@);
            let t = tree_of(subs.last().1, subs.last().0@, p, false, 0, None);
            lemma_tree_strict(subs.last().1, subs.last().0@, p, false);
            let r2 = r.push(t);
            assert(subtrees(subs, rel, 0, None) == r2);
            assert(r2.drop_last() == r);
            assert(r2.last() == t);
            assert forall|i: int| 0 <= i < r2.len() implies exists|k: int|
                0 <= k < subs.len() && (#[trigger] r2[i]).name == (#[trigger] subs[k]).0@ by {
                if i < r.len() {
                    assert(r2[i] == r[i]);
                    let k = choose|k: int| 0 <= k < pre.len() && r[i].name == (#[trigger] pre[k]).0@;
                    assert(subs[k] == pre[k]);
                } else {
                    assert(r2[i].name == subs[subs.len() - 1].0@);
                }
            }
            if names_distinct(subs) {
                assert forall|i: int, j: int| 0 <= i < j < r2.len() implies (#[trigger] r2[i]).name
                    != (#[trigger] r2[j]).name by {
                    if j < r.len() {
                        assert(r2[i] == r[i] && r2[j] == r[j]);
                    } else {
                        assert(r2[i] == r[i]);
                        let k = choose|k: int| 0 <= k < pre.len() && r[i].name == (#[trigger] pre[k]).0@;
                        assert(subs[k] == pre[k]);
                        assert(subs[k].0@ != subs[subs.len() - 1].0@);
                    }
                }
            }
        } else {
            assert forall|i: int| 0 <= i < r.len() implies exists|k: int|
                0 <= k < subs.len() && (#[trigger] r[i]).name == (#[trigger] subs[k]).0@ by {
                let k = choose|k: int| 0 <= k < pre.len() && r[i].name == (#[trigger] pre[k]).0@;
                assert(subs[k] == pre[k]);
            }
        }
    }
}

/// Where no directory holds two entries of one name, the tree of `dir`
/// walked without a limit has the children of every node in strictly
/// ascending name order.
pub proof fn lemma_tree_strict(dir: CgroupDir, name: Seq<char>, rel: Seq<char>, is_root: bool)
    requires
        dir_names_distinct(dir),
    ensures
        all_strict(tree_of(dir, name, rel, is_root, 0, None)),
    decreases dir, 1nat,
{
    lemma_subs_names_distinct_at(dir.subdirs@);
    broadcast use vstd::seq_lib::group_to_multiset_ensures;

    let fs = subtrees(dir.subdirs@, rel, 0, None);
    let sorted = sort_by(fs, name_order());
    lemma_subtrees_strict(dir.subdirs@, rel);
    lemma_sort_permutes(fs, name_order());
    lemma_children_in_name_order(dir, name, rel, is_root, 0, None);
    lemma_all_strict_forest_at(fs);
    lemma_all_strict_forest_at(sorted);
    assert forall|i: int| 0 <= i < sorted.len() implies exists|j: int|
        0 <= j < fs.len() && fs[j] == #[trigger] sorted[i] by {
        assert(sorted.contains(sorted[i]));
        assert(sorted.to_multiset().count(sorted[i]) > 0);
        assert(fs.contains(sorted[i]));
    }
    assert forall|i: int| 0 <= i < sorted.len() implies all_strict(#[trigger] sorted[i]) by {
        let j = choose|j: int| 0 <= j < fs.len() && fs[j] == sorted[i];
        assert(all_strict(fs[j]));
    }
    if names_distinct(dir.subdirs@) {
        assert(fs.no_duplicates()) by {
            assert forall|a: int, b: int| 0 <= a < fs.len() && 0 <= b < fs.len() && a != b implies fs[a]
                != fs[b] by {
                if a < b {
                    assert(fs[a].name != fs[b].name);
                } else {
                    assert(fs[b].name != fs[a].name);
                }
            }
        }
        fs.lemma_multiset_has_no_duplicates();
        sorted.lemma_multiset_has_no_duplicates_conv();
        assert forall|i: int, j: int| 0 <= i < j < sorted.len() implies chars_lt(
            (#[trigger] sorted[i]).name,
            (#[trigger] sorted[j]).name,
        ) by {
            assert(!name_order()(sorted[i], sorted[j]));
            lemma_chars_lt_trichotomy(sorted[i].name, sorted[j].name);
            let a = choose|a: int| 0 <= a < fs.len() && fs[a] == sorted[i];
            let b = choose|b: int| 0 <= b < fs.len() && fs[b] == sorted[j];
            assert(sorted[i] != sorted[j]);
            if a < b {
                assert(fs[a].name != fs[b].name);
            } else {
                assert(fs[b].name != fs[a].name);
            }
        }
    }
}

proof fn lemma_after_last_word(pre: Seq<char>, w: Seq<char>, c: char)
    requires
        forall|i: int| 0 <= i < w.len() ==> w[i] != c,
    ensures
        after_last(pre.push(c) + w, c) == w,
    decreases w.len(),
{
    if w.len() == 0 {
        assert(pre.push(c) + w =~= pre.push(c));
    } else {
        let w2 = w.drop_last();
        assert forall|i: int| 0 <= i < w2.len() implies w2[i] != c by {
            assert(w2[i] == w[i]);
        }
        lemma_after_last_word(pre, w2, c);
        assert((pre.push(c) + w).drop_last() =~= pre.push(c) + w2);
        assert((pre.push(c) + w).last() == w[w.len() - 1]);
        assert(w2.push(w.last()) =~= w);
    }
}

/// What `after_last` gives: a tail of `s` holding no `c`, which is all of
/// `s` or follows a `c`.
proof fn lemma_after_last_shape(s: Seq<char>, c: char)
    ensures
        ({
            let t = after_last(s, c);
            &&& t.len() <= s.len()
            &&& t == s.subrange(s.len() - t.len(), s.len() as int)
            &&& forall|i: int| 0 <= i < t.len() ==> t[i] != c
            &&& t.len() == s.len() || s[s.len() - t.len() - 1] == c
        }),
    decreases s.len(),
{
    if s.len() > 0 {
        lemma_after_last_shape(s.drop_last(), c);
        if s.last() != c {
            let t0 = after_last(s.drop_last(), c);
            let t = t0.push(s.last());
            assert(t =~= s.subrange(s.len() - t.len(), s.len() as int));
            assert forall|i: int| 0 <= i < t.len() implies t[i] != c by {
                if i < t0.len() {
                    assert(t[i] == t0[i]);
                }
            }
            if t0.len() < s.len() - 1 {
                assert(s[s.len() - t.len() - 1] == s.drop_last()[s.len() - 1 - t0.len() - 1]);
            }
        }
    }
}

/// A cgroup's kind comes from the unit suffix at the end of its name: a
/// name ending in `.slice`, `.service`, `.scope`, `.mount` or `.socket` is of
/// that kind, whatever comes before; any other kind is `Other` of the text
/// after the last `.` (all of the name where it holds none).
pub proof fn lemma_kind_from_suffix(name: Seq<char>)
    ensures
        name.len() >= 6 && name.subrange(name.len() - 6, name.len() as int) == ".slice"@
            ==> kind_of_name(name) == CgroupKindView::Slice,
        name.len() >= 8 && name.subrange(name.len() - 8, name.len() as int) == ".service"@
            ==> kind_of_name(name) == CgroupKindView::Service,
        name.len() >= 6 && name.subrange(name.len() - 6, name.len() as int) == ".scope"@
            ==> kind_of_name(name) == CgroupKindView::Scope,
        name.len() >= 6 && name.subrange(name.len() - 6, name.len() as int) == ".mount"@
            ==> kind_of_name(name) == CgroupKindView::Mount,
        name.len() >= 7 && name.subrange(name.len() - 7, name.len() as int) == ".socket"@
            ==> kind_of_name(name) == CgroupKindView::Socket,
        kind_of_name(name) matches CgroupKindView::Other(t) ==> {
            &&& t.len() <= name.len()
            &&& t == name.subrange(name.len() - t.len(), name.len() as int)
            &&& forall|i: int| 0 <= i < t.len() ==> t[i] != '.'
            &&& (t.len() == name.len() || name[name.len() - t.len() - 1] == '.')
        },
{
    reveal_strlit(".slice");
    reveal_strlit(".service");
    reveal_strlit(".scope");
    reveal_strlit(".mount");
    reveal_strlit(".socket");
    reveal_strlit("slice");
    reveal_strlit("service");
    reveal_strlit("scope");
    reveal_strlit("mount");
    reveal_strlit("socket");
    lemma_after_last_shape(name, '.');
    let words: Seq<(int, Seq<char>)> = seq![
        (6int, "slice"@),
        (8int, "service"@),
        (6int, "scope"@),
        (6int, "mount"@),
        (7int, "socket"@),
    ];
    assert forall|k: int| 0 <= k < 5 && name.len() >= words[k].0 && name.subrange(
        name.len() - words[k].0,
        name.len() as int,
    ) == seq!['.'] + words[k].1 implies after_last(name, '.') == words[k].1 by {
        let l = words[k].0;
        let w = words[k].1;
        let pre = name.subrange(0, name.len() - l);
        assert(name =~= pre.push('.') + w) by {
            assert(name.subrange(name.len() - l, name.len() as int)[0] == '.');
            assert forall|i: int| 0 <= i < name.len() implies name[i] == (pre.push('.') + w)[i] by {
                if i >= name.len() - l + 1 {
                    assert(name[i] == name.subrange(name.len() - l, name.len() as int)[i - (
                    name.len() - l)]);
                }
            }
        }
        lemma_after_last_word(pre, w, '.');
    }
    if name.len() >= 6 && name.subrange(name.len() - 6, name.len() as int) == ".slice"@ {
        assert(".slice"@ =~= seq!['.'] + words[0].1);
    }
    if name.len() >= 8 && name.subrange(name.len() - 8, name.len() as int) == ".service"@ {
        assert(".service"@ =~= seq!['.'] + words[1].1);
    }
    if name.len() >= 6 && name.subrange(name.len() - 6, name.len() as int) == ".scope"@ {
        assert(".scope"@ =~= seq!['.'] + words[2].1);
        assert("scope"@[1] != "slice"@[1]);
    }
    if name.len() >= 6 && name.subrange(name.len() - 6, name.len() as int) == ".mount"@ {
        assert(".mount"@ =~= seq!['.'] + words[3].1);
        assert("mount"@[0] != "slice"@[0]);
        assert("mount"@[0] != "scope"@[0]);
    }
    if name.len() >= 7 && name.subrange(name.len() - 7, name.len() as int) == ".socket"@ {
        assert(".socket"@ =~= seq!['.'] + words[4].1);
    }
}

} // verus!
