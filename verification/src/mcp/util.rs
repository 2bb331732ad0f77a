//! What the tools share: the check of a user-supplied cgroup path, the
//! outcome of reading a cgroup file, and the cgroups of a subtree in walk
//! order.

use crate::collector::error::{push_quoted, quoted};
use crate::collector::tree::{
    clone_kind, node_view, nodes_view, CgroupKind, CgroupKindView, CgroupNode, CgroupNodeView,
};
use crate::text::{
    chars_equal_str, chars_of, pieces, push_chars, push_str, split_at_char, string_from_chars,
    views,
};
use vstd::prelude::*;

verus! {

/// Why a user-supplied cgroup path was refused.
#[derive(Clone, Debug)]
pub enum PathError {
    /// The path starts with `/`.
    Absolute { path: String },
    /// A `/`-separated segment of the path is `..`.
    DotDot { path: String },
}

pub enum PathErrorView {
    Absolute { path: Seq<char> },
    DotDot { path: Seq<char> },
}

impl View for PathError {
    type V = PathErrorView;

    open spec fn view(&self) -> PathErrorView {
        match self {
            PathError::Absolute { path } => PathErrorView::Absolute { path: path@ },
            PathError::DotDot { path } => PathErrorView::DotDot { path: path@ },
        }
    }
}

pub open spec fn path_error_text(e: PathErrorView) -> Seq<char> {
    match e {
        PathErrorView::Absolute { path } => "path must be relative to the cgroup root, got absolute: "@
            + quoted(path),
        PathErrorView::DotDot { path } => "path must not contain `..` segments: "@ + quoted(path),
    }
}

impl PathError {
    /// The text that tells this error.
    pub fn message(&self) -> (r: String)
        ensures
            r@ == path_error_text(self@),
    {
        let mut out: Vec<char> = Vec::new();
        match self {
            PathError::Absolute { path } => {
                push_str(&mut out, "path must be relative to the cgroup root, got absolute: ");
                push_quoted(&mut out, path);
            },
            PathError::DotDot { path } => {
                push_str(&mut out, "path must not contain `..` segments: ");
                push_quoted(&mut out, path);
            },
        }
        string_from_chars(&out)
    }
}

/// The directory that the path `rel` names under `root`, as `Path::join`
/// forms it for a relative path; the empty path names `root` itself.
pub open spec fn path_join(root: Seq<char>, rel: Seq<char>) -> Seq<char> {
    if rel.len() == 0 {
        root
    } else if root.len() == 0 {
        rel
    } else if root.last() == '/' {
        root + rel
    } else {
        root + "/"@ + rel
    }
}

/// The directory of the cgroup at path `rel` under `root`, or why `rel` is
/// refused: it must not start with `/`, and none of its `/`-separated
/// segments may be `..`.
pub open spec fn resolved_dir(root: Seq<char>, rel: Seq<char>) -> Result<Seq<char>, PathErrorView> {
    if rel.len() > 0 && rel[0] == '/' {
        Err(PathErrorView::Absolute { path: rel })
    } else if pieces(rel, '/').contains(".."@) {
        Err(PathErrorView::DotDot { path: rel })
    } else {
        Ok(path_join(root, rel))
    }
}

/// A path that resolves names a directory under the root: the directory's
/// text starts with the root's, and the path neither starts with `/` nor
/// holds a `..` segment. The empty path names the root itself.
pub proof fn lemma_resolved_dir_under_root(root: Seq<char>, rel: Seq<char>)
    ensures
        resolved_dir(root, rel) matches Ok(d) ==> root.is_prefix_of(d) && !(rel.len() > 0
            && rel[0] == '/') && !pieces(rel, '/').contains(".."@),
        rel.len() == 0 ==> resolved_dir(root, rel) == Ok::<Seq<char>, PathErrorView>(root),
{
    if let Ok(d) = resolved_dir(root, rel) {
        if rel.len() == 0 {
            assert(d.subrange(0, root.len() as int) =~= root);
        } else if root.len() == 0 {
            assert(d.subrange(0, 0) =~= root);
        } else if root.last() == '/' {
            assert(d.subrange(0, root.len() as int) =~= root);
        } else {
            assert(d.subrange(0, root.len() as int) =~= root);
        }
    }
    if rel.len() == 0 {
        assert(pieces(rel, '/') == seq![Seq::<char>::empty()]);
        assert(!pieces(rel, '/').contains(".."@)) by {
            if pieces(rel, '/').contains(".."@) {
                let k = choose|k: int| 0 <= k < pieces(rel, '/').len() && pieces(rel, '/')[k]
                    == ".."@;
                assert(pieces(rel, '/')[k].len() == 0);
                reveal_strlit("..");
            }
        }
    }
}

/// Checks the user-supplied path `rel` and joins it to `cgroup_root`.
/// Whether the directory exists is for the caller to find out.
pub fn resolve_cgroup_dir(cgroup_root: &str, rel: &str) -> (r: Result<String, PathError>)
    ensures
        match r {
            Ok(d) => resolved_dir(cgroup_root@, rel@) == Ok::<Seq<char>, PathErrorView>(d@),
            Err(e) => resolved_dir(cgroup_root@, rel@) == Err::<Seq<char>, PathErrorView>(e@),
        },
{
    let rc = chars_of(rel);
    if rc.len() > 0 && rc[0] == '/' {
        return Err(PathError::Absolute { path: string_from_chars(&rc) });
    }
    let segs = split_at_char(&rc, '/');
    let ghost sv = views(segs@);
    for i in 0..segs.len()
        invariant
            rc@ == rel@,
            !(rel@.len() > 0 && rel@[0] == '/'),
            sv == views(segs@),
            sv == pieces(rel@, '/'),
            forall|j: int| 0 <= j < i ==> sv[j] != ".."@,
    {
        assert(sv[i as int] == segs@[i as int]@);
        if chars_equal_str(&segs[i], "..") {
            assert(sv.contains(".."@));
            return Err(PathError::DotDot { path: string_from_chars(&rc) });
        }
    }
    assert(!sv.contains(".."@));
    let root = chars_of(cgroup_root);
    let mut out: Vec<char> = Vec::new();
    if rc.len() == 0 {
        push_chars(&mut out, &root);
    } else if root.len() == 0 {
        push_chars(&mut out, &rc);
    } else if root[root.len() - 1] == '/' {
        push_chars(&mut out, &root);
        push_chars(&mut out, &rc);
    } else {
        push_chars(&mut out, &root);
        push_str(&mut out, "/");
        push_chars(&mut out, &rc);
    }
    Ok(string_from_chars(&out))
}

/// `node_rel` (a path under the subtree at `subtree_rel`) as a path from
/// the cgroup root.
pub open spec fn joined_path(subtree_rel: Seq<char>, node_rel: Seq<char>) -> Seq<char> {
    if subtree_rel.len() == 0 {
        node_rel
    } else if node_rel.len() == 0 {
        subtree_rel
    } else {
        subtree_rel + "/"@ + node_rel
    }
}

/// Joins a subtree path and a path under it into a path from the root.
pub fn join_paths(subtree_rel: &Vec<char>, node_rel: &Vec<char>) -> (r: Vec<char>)
    ensures
        r@ == joined_path(subtree_rel@, node_rel@),
{
    let mut out: Vec<char> = Vec::new();
    if subtree_rel.len() == 0 {
        push_chars(&mut out, node_rel);
    } else if node_rel.len() == 0 {
        push_chars(&mut out, subtree_rel);
    } else {
        push_chars(&mut out, subtree_rel);
        push_str(&mut out, "/");
        push_chars(&mut out, node_rel);
    }
    out
}

/// Slices and the root hold the summed use of their descendants; the other
/// kinds are the consumers that the ranking tools compare.
pub open spec fn consumer_kind(k: CgroupKindView) -> bool {
    !(k is Root || k is Slice)
}

pub fn is_consumer_kind(k: &CgroupKind) -> (r: bool)
    ensures
        r == consumer_kind(k@),
{
    match k {
        CgroupKind::Root => false,
        CgroupKind::Slice => false,
        _ => true,
    }
}


/// The nodes of the tree `n` in walk order: each node before its children,
/// the children in their order.
pub open spec fn preorder(n: CgroupNodeView) -> Seq<CgroupNodeView>
    decreases n, 1nat,
{
    seq![n] + preorder_all(n.children)
}

pub open spec fn preorder_all(s: Seq<CgroupNodeView>) -> Seq<CgroupNodeView>
    decreases s, 0nat,
{
    if s.len() == 0 {
        Seq::empty()
    } else {
        preorder_all(s.drop_last()) + preorder(s.last())
    }
}

/// A cgroup that a tool looks at.
#[derive(Clone, Debug)]
pub struct Target {
    /// The path from the cgroup root.
    pub path: String,
    pub kind: CgroupKind,
    /// The path under the subtree that the tool searches.
    pub relative_path: String,
}

pub struct TargetView {
    pub path: Seq<char>,
    pub kind: CgroupKindView,
    pub relative_path: Seq<char>,
}

impl View for Target {
    type V = TargetView;

    open spec fn view(&self) -> TargetView {
        TargetView { path: self.path@, kind: self.kind@, relative_path: self.relative_path@ }
    }
}

pub open spec fn targets_view(s: Seq<Target>) -> Seq<TargetView> {
    s.map_values(|t: Target| t@)
}

pub open spec fn target_of(n: CgroupNodeView, subtree_rel: Seq<char>) -> TargetView {
    TargetView {
        path: joined_path(subtree_rel, n.relative_path),
        kind: n.kind,
        relative_path: n.relative_path,
    }
}

/// The targets among the nodes `s`, in their order: all of them, or the
/// consumers only.
pub open spec fn targets_of(s: Seq<CgroupNodeView>, subtree_rel: Seq<char>, consumers_only: bool) -> Seq<
    TargetView,
>
    decreases s.len(),
{
    if s.len() == 0 {
        Seq::empty()
    } else {
        let r = targets_of(s.drop_last(), subtree_rel, consumers_only);
        if !consumers_only || consumer_kind(s.last().kind) {
            r.push(target_of(s.last(), subtree_rel))
        } else {
            r
        }
    }
}

/// Only consumers are targets when only consumers are asked for.
pub proof fn lemma_targets_of_consumers(s: Seq<CgroupNodeView>, subtree_rel: Seq<char>)
    ensures
        forall|i: int|
            0 <= i < targets_of(s, subtree_rel, true).len() ==> consumer_kind(
                (#[trigger] targets_of(s, subtree_rel, true)[i]).kind,
            ),
    decreases s.len(),
{
    if s.len() > 0 {
        lemma_targets_of_consumers(s.drop_last(), subtree_rel);
    }
}

proof fn lemma_targets_of_concat(
    a: Seq<CgroupNodeView>,
    b: Seq<CgroupNodeView>,
    subtree_rel: Seq<char>,
    consumers_only: bool,
)
    ensures
        targets_of(a + b, subtree_rel, consumers_only) == targets_of(a, subtree_rel, consumers_only)
            + targets_of(b, subtree_rel, consumers_only),
    decreases b.len(),
{
    if b.len() == 0 {
        assert(a + b == a);
    } else {
        lemma_targets_of_concat(a, b.drop_last(), subtree_rel, consumers_only);
        assert((a + b).drop_last() == a + b.drop_last());
        assert((a + b).last() == b.last());
    }
}

proof fn lemma_nodes_view_index(s: Seq<CgroupNode>, i: int)
    requires
        0 <= i < s.len(),
    ensures
        nodes_view(s).len() == s.len(),
        nodes_view(s)[i] == node_view(s[i]),
        nodes_view(s.take(i + 1)) == nodes_view(s.take(i)).push(node_view(s[i])),
    decreases s.len(),
{
    if i < s.len() - 1 {
        lemma_nodes_view_index(s.drop_last(), i);
        assert(s.drop_last().take(i + 1) == s.take(i + 1));
        assert(s.drop_last().take(i) == s.take(i));
    } else {
        assert(s.take(i + 1) == s);
        assert(s.take(i) == s.drop_last());
        lemma_nodes_view_len(s.drop_last());
    }
}

proof fn lemma_nodes_view_len(s: Seq<CgroupNode>)
    ensures
        nodes_view(s).len() == s.len(),
    decreases s.len(),
{
    if s.len() > 0 {
        lemma_nodes_view_len(s.drop_last());
    }
}

fn target_for(node: &CgroupNode, subtree_rel: &Vec<char>) -> (r: Target)
    ensures
        r@ == target_of(node@, subtree_rel@),
{
    let rel = chars_of(node.relative_path.as_str());
    let path = join_paths(subtree_rel, &rel);
    Target {
        path: string_from_chars(&path),
        kind: clone_kind(&node.kind),
        relative_path: node.relative_path.clone(),
    }
}

fn collect(node: &CgroupNode, subtree_rel: &Vec<char>, consumers_only: bool, out: &mut Vec<Target>)
    ensures
        targets_view(final(out)@) == targets_view(old(out)@) + targets_of(
            preorder(node@),
            subtree_rel@,
            consumers_only,
        ),
    decreases node,
{
    let ghost start = targets_view(out@);
    let ghost n = node@;
    if !consumers_only || is_consumer_kind(&node.kind) {
        let t = target_for(node, subtree_rel);
        out.push(t);
    }
    proof {
        let one = seq![n];
        assert(one.drop_last() =~= Seq::<CgroupNodeView>::empty());
        assert(one.last() == n);
        assert(n.kind == node.kind@);
        assert(targets_of(Seq::<CgroupNodeView>::empty(), subtree_rel@, consumers_only)
            =~= Seq::<TargetView>::empty());
        assert(targets_view(out@) =~= start + targets_of(one, subtree_rel@, consumers_only));
        assert(one + preorder_all(nodes_view(node.children@.take(0))) =~= one);
    }
    let ghost kids = node.children@;
    for i in 0..node.children.len()
        invariant
            kids == node.children@,
            n == node@,
            n.children == nodes_view(kids),
            targets_view(out@) == start + targets_of(
                seq![n] + preorder_all(nodes_view(kids.take(i as int))),
                subtree_rel@,
                consumers_only,
            ),
    {
        proof {
            lemma_nodes_view_index(kids, i as int);
        }
        let ghost before = targets_view(out@);
        collect(&node.children[i], subtree_rel, consumers_only, out);
        proof {
            let a = seq![n] + preorder_all(nodes_view(kids.take(i as int)));
            let c = node_view(kids[i as int]);
            assert(nodes_view(kids.take(i + 1)).drop_last() == nodes_view(kids.take(i as int)));
            assert(nodes_view(kids.take(i + 1)).last() == c);
            assert(seq![n] + preorder_all(nodes_view(kids.take(i + 1))) == a + preorder(c));
            lemma_targets_of_concat(a, preorder(c), subtree_rel@, consumers_only);
        }
    }
    proof {
        lemma_nodes_view_len(kids);
        assert(kids.take(kids.len() as int) == kids);
    }
}

/// The targets in the tree `tree` of the subtree at `subtree_rel`, in walk
/// order: every node, or only the consumers.
pub fn collect_targets(tree: &CgroupNode, subtree_rel: &str, consumers_only: bool) -> (r: Vec<
    Target,
>)
    ensures
        targets_view(r@) == targets_of(preorder(tree@), subtree_rel@, consumers_only),
{
    let sub = chars_of(subtree_rel);
    let mut out: Vec<Target> = Vec::new();
    collect(tree, &sub, consumers_only, &mut out);
    assert(targets_view(Seq::<Target>::empty()) =~= Seq::<TargetView>::empty());
    out
}


/// How many results a ranking tool returns: `n`, 10 when unset, and at
/// least 1.
pub open spec fn result_count(n: Option<usize>) -> usize {
    let v = match n {
        Some(x) => x,
        None => 10usize,
    };
    if v < 1 {
        1
    } else {
        v
    }
}

pub fn effective_count(n: Option<usize>) -> (r: usize)
    ensures
        r == result_count(n),
{
    let v = match n {
        Some(x) => x,
        None => 10,
    };
    if v < 1 {
        1
    } else {
        v
    }
}


/// The sampling window of a rate tool was set to zero.
#[derive(Clone, Copy, Debug, PartialEq, Eq, Structural)]
pub struct ZeroWindow;

impl ZeroWindow {
    /// The text that tells this error.
    pub fn message(&self) -> (r: String)
        ensures
            r@ == "sample_window_ms must be > 0"@,
    {
        let mut out: Vec<char> = Vec::new();
        push_str(&mut out, "sample_window_ms must be > 0");
        string_from_chars(&out)
    }
}

/// The sampling window of a rate tool in milliseconds: 500 when unset,
/// and never zero.
pub open spec fn window_of(ms: Option<u64>) -> Result<u64, ZeroWindow> {
    let w = match ms {
        Some(x) => x,
        None => 500u64,
    };
    if w == 0 {
        Err(ZeroWindow)
    } else {
        Ok(w)
    }
}

pub fn sample_window(ms: Option<u64>) -> (r: Result<u64, ZeroWindow>)
    ensures
        r == window_of(ms),
{
    let w = match ms {
        Some(x) => x,
        None => 500,
    };
    if w == 0 {
        Err(ZeroWindow)
    } else {
        Ok(w)
    }
}

} // verus!
