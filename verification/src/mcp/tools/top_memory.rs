//! `top_memory`: the cgroups that use the most memory under a subtree.

use crate::collector::stats::{memory_current_text, parse_memory_current};
use crate::collector::tree::{
    clone_kind, CgroupKind, CgroupKindView, CgroupNode, CgroupNodeView,
};
use crate::mcp::util::{
    collect_targets, consumer_kind, effective_count, lemma_targets_of_consumers,
    preorder, result_count, targets_of, targets_view, Target, TargetView,
};
use crate::sort::{
    lemma_sort_in_order, lemma_sort_map, lemma_sort_permutes, lemma_sorted_prefix, order_of, sort_by,
    sort_vec, strict_by, SortOrder,
};
use crate::collector::error::{ParseErrorView, FileRead, FileReadView, ReadError, ReadErrorView, optional_read};
use vstd::prelude::*;

verus! {

/// What the caller asks for.
#[derive(Clone, Debug)]
pub struct TopMemoryParams {
    /// The subtree to search, relative to the cgroup root; empty for all.
    pub path: String,
    /// How many results; 10 when unset.
    pub n: Option<usize>,
}

/// One cgroup and its memory use.
#[derive(Clone, Debug)]
pub struct TopMemoryEntry {
    /// The path from the cgroup root.
    pub path: String,
    pub kind: CgroupKind,
    /// `memory.current`, in bytes.
    pub memory_current_bytes: u64,
}

pub struct TopMemoryEntryView {
    pub path: Seq<char>,
    pub kind: CgroupKindView,
    pub memory_current_bytes: u64,
}

impl View for TopMemoryEntry {
    type V = TopMemoryEntryView;

    open spec fn view(&self) -> TopMemoryEntryView {
        TopMemoryEntryView {
            path: self.path@,
            kind: self.kind@,
            memory_current_bytes: self.memory_current_bytes,
        }
    }
}

/// Entries rank by memory use, most first.
impl SortOrder for TopMemoryEntry {
    open spec fn goes_after(&self, other: &Self) -> bool {
        self.memory_current_bytes < other.memory_current_bytes
    }

    fn is_after(&self, other: &Self) -> (r: bool) {
        self.memory_current_bytes < other.memory_current_bytes
    }
}

pub open spec fn memory_order() -> spec_fn(TopMemoryEntryView, TopMemoryEntryView) -> bool {
    |a: TopMemoryEntryView, b: TopMemoryEntryView| a.memory_current_bytes < b.memory_current_bytes
}

/// The answer.
#[derive(Clone, Debug)]
pub struct TopMemoryResponse {
    /// The subtree that was searched, as asked.
    pub subtree: String,
    /// The top consumers, most memory first.
    pub results: Vec<TopMemoryEntry>,
}

pub open spec fn entries_view(s: Seq<TopMemoryEntry>) -> Seq<TopMemoryEntryView> {
    s.map_values(|e: TopMemoryEntry| e@)
}

/// `memory.current` of a cgroup, which may not exist.
pub open spec fn memory_current_read(f: FileReadView) -> Result<Option<u64>, ReadErrorView> {
    optional_read(f, |s: Seq<char>| memory_current_text(s))
}

/// Reads `memory.current` from what reading the file gave: `None` where
/// it is missing; an error where reading failed or it does not parse.
pub fn read_memory_current_or_none(file: &FileRead) -> (r: Result<Option<u64>, ReadError>)
    ensures
        match r {
            Ok(v) => memory_current_read(file@) == Ok::<Option<u64>, ReadErrorView>(v),
            Err(e) => memory_current_read(file@) == Err::<Option<u64>, ReadErrorView>(e@),
        },
{
    match file {
        FileRead::Missing => Ok(None),
        FileRead::Failed(m) => Err(ReadError::Io(m.clone())),
        FileRead::Contents(s) => match parse_memory_current(s.as_str()) {
            Ok(v) => Ok(Some(v)),
            Err(e) => Err(ReadError::Parse(e)),
        },
    }
}

/// The entries of the targets `ts` whose `memory.current` reads `fs`
/// (one for each), in order: targets without the file are left out, and
/// the first failed read decides the error.
pub open spec fn memory_entries(ts: Seq<TargetView>, fs: Seq<FileReadView>) -> Result<
    Seq<TopMemoryEntryView>,
    ReadErrorView,
>
    decreases ts.len(),
{
    if ts.len() == 0 || fs.len() == 0 {
        Ok(Seq::empty())
    } else {
        match memory_entries(ts.drop_last(), fs.drop_last()) {
            Err(e) => Err(e),
            Ok(es) => match memory_current_read(fs.last()) {
                Err(e) => Err(e),
                Ok(None) => Ok(es),
                Ok(Some(b)) => Ok(
                    es.push(
                        TopMemoryEntryView {
                            path: ts.last().path,
                            kind: ts.last().kind,
                            memory_current_bytes: b,
                        },
                    ),
                ),
            },
        }
    }
}

/// The consumers of the tree `tree`, searched as the subtree at
/// `subtree`, in walk order.
pub open spec fn memory_targets(tree: CgroupNodeView, subtree: Seq<char>) -> Seq<TargetView> {
    targets_of(preorder(tree), subtree, true)
}

/// The ranking: the consumers that have `memory.current`, most memory
/// first (ties keep walk order), at most `result_count(n)` of them.
pub open spec fn top_memory_results(
    tree: CgroupNodeView,
    subtree: Seq<char>,
    n: Option<usize>,
    fs: Seq<FileReadView>,
) -> Result<Seq<TopMemoryEntryView>, ReadErrorView> {
    match memory_entries(memory_targets(tree, subtree), fs) {
        Err(e) => Err(e),
        Ok(es) => {
            let sorted = sort_by(es, memory_order());
            Ok(
                if result_count(n) <= sorted.len() {
                    sorted.take(result_count(n) as int)
                } else {
                    sorted
                },
            )
        },
    }
}

/// The cgroups whose `memory.current` the tool reads, in walk order: the
/// consumers of the subtree `tree`, searched at `subtree`.
pub fn collect(tree: &CgroupNode, subtree: &str) -> (r: Vec<Target>)
    ensures
        targets_view(r@) == memory_targets(tree@, subtree@),
{
    collect_targets(tree, subtree, true)
}

pub open spec fn file_views(s: Seq<FileRead>) -> Seq<FileReadView> {
    s.map_values(|f: FileRead| f@)
}

proof fn lemma_sort_entries_view(s: Seq<TopMemoryEntry>)
    ensures
        entries_view(sort_by(s, order_of::<TopMemoryEntry>())) == sort_by(
            entries_view(s),
            memory_order(),
        ),
{
    let f = |e: TopMemoryEntry| e@;
    assert forall|a: TopMemoryEntry, b: TopMemoryEntry| #[trigger]
        order_of::<TopMemoryEntry>()(a, b) == memory_order()(f(a), f(b)) by {}
    lemma_sort_map(s, f, order_of::<TopMemoryEntry>(), memory_order());
}

/// Ranks the consumers of the subtree `tree` (read at `params.path`) by
/// the `memory.current` readings `readings`, one for each target that
/// `collect` gives, in that order.
pub fn run(params: TopMemoryParams, tree: &CgroupNode, readings: &Vec<FileRead>) -> (r: Result<
    TopMemoryResponse,
    ReadError,
>)
    requires
        readings@.len() == memory_targets(tree@, params.path@).len(),
    ensures
        match r {
            Ok(resp) => resp.subtree@ == params.path@ && top_memory_results(
                tree@,
                params.path@,
                params.n,
                file_views(readings@),
            ) == Ok::<Seq<TopMemoryEntryView>, ReadErrorView>(entries_view(resp.results@)),
            Err(e) => top_memory_results(tree@, params.path@, params.n, file_views(readings@))
                == Err::<Seq<TopMemoryEntryView>, ReadErrorView>(e@),
        },
{
    let targets = collect(tree, params.path.as_str());
    let ghost ts = targets_view(targets@);
    let ghost fs = file_views(readings@);
    let n = effective_count(params.n);
    let mut entries: Vec<TopMemoryEntry> = Vec::new();
    assert(entries_view(entries@) =~= Seq::<TopMemoryEntryView>::empty());
    for i in 0..targets.len()
        invariant
            ts == targets_view(targets@),
            ts == memory_targets(tree@, params.path@),
            fs == file_views(readings@),
            ts.len() == fs.len(),
            memory_entries(ts.take(i as int), fs.take(i as int)) == Ok::<
                Seq<TopMemoryEntryView>,
                ReadErrorView,
            >(entries_view(entries@)),
    {
        assert(ts.take(i + 1).drop_last() == ts.take(i as int));
        assert(fs.take(i + 1).drop_last() == fs.take(i as int));
        assert(ts.take(i + 1).last() == targets@[i as int]@);
        assert(fs.take(i + 1).last() == readings@[i as int]@);
        match read_memory_current_or_none(&readings[i]) {
            Err(e) => {
                proof {
                    lemma_memory_entries_err_prefix(ts, fs, i + 1);
                }
                return Err(e);
            },
            Ok(None) => {},
            Ok(Some(bytes)) => {
                let t = &targets[i];
                let ghost old_entries = entries@;
                entries.push(
                    TopMemoryEntry {
                        path: t.path.clone(),
                        kind: clone_kind(&t.kind),
                        memory_current_bytes: bytes,
                    },
                );
                assert(entries_view(entries@) =~= entries_view(old_entries).push(
                    entries@.last()@,
                ));
            },
        }
    }
    assert(ts.take(ts.len() as int) == ts);
    assert(fs.take(fs.len() as int) == fs);
    let ghost unsorted = entries@;
    let mut sorted = sort_vec(entries);
    proof {
        lemma_sort_entries_view(unsorted);
        lemma_sort_permutes(unsorted, order_of::<TopMemoryEntry>());
    }
    let ghost full = sorted@;
    sorted.truncate(n);
    assert(entries_view(sorted@) =~= (if n <= full.len() {
        entries_view(full).take(n as int)
    } else {
        entries_view(full)
    }));
    Ok(TopMemoryResponse { subtree: params.path, results: sorted })
}

proof fn lemma_memory_entries_err_prefix(ts: Seq<TargetView>, fs: Seq<FileReadView>, k: int)
    requires
        0 <= k <= ts.len(),
        ts.len() == fs.len(),
        memory_entries(ts.take(k), fs.take(k)) is Err,
    ensures
        memory_entries(ts, fs) == memory_entries(ts.take(k), fs.take(k)),
    decreases ts.len() - k,
{
    if k < ts.len() {
        assert(ts.drop_last().take(k) == ts.take(k));
        assert(fs.drop_last().take(k) == fs.take(k));
        lemma_memory_entries_err_prefix(ts.drop_last(), fs.drop_last(), k);
    } else {
        assert(ts.take(k) == ts);
        assert(fs.take(k) == fs);
    }
}


proof fn lemma_memory_entries_kinds(ts: Seq<TargetView>, fs: Seq<FileReadView>)
    requires
        forall|i: int| 0 <= i < ts.len() ==> consumer_kind((#[trigger] ts[i]).kind),
    ensures
        memory_entries(ts, fs) matches Ok(es) ==> forall|i: int|
            0 <= i < es.len() ==> consumer_kind((#[trigger] es[i]).kind),
    decreases ts.len(),
{
    if ts.len() > 0 && fs.len() > 0 {
        assert forall|i: int| 0 <= i < ts.drop_last().len() implies consumer_kind(
            (#[trigger] ts.drop_last()[i]).kind,
        ) by {
            assert(ts.drop_last()[i] == ts[i]);
        }
        lemma_memory_entries_kinds(ts.drop_last(), fs.drop_last());
        assert(consumer_kind(ts[ts.len() - 1].kind));
    }
}

/// What the tool promises of every answer: at most the asked-for number of
/// results, most memory first, and no slice and no root among them.
pub proof fn lemma_top_memory_results(
    tree: CgroupNodeView,
    subtree: Seq<char>,
    n: Option<usize>,
    fs: Seq<FileReadView>,
)
    ensures
        top_memory_results(tree, subtree, n, fs) matches Ok(rs) ==> {
            &&& rs.len() <= result_count(n)
            &&& forall|i: int, j: int|
                0 <= i < j < rs.len() ==> (#[trigger] rs[i]).memory_current_bytes
                    >= (#[trigger] rs[j]).memory_current_bytes
            &&& forall|i: int| 0 <= i < rs.len() ==> consumer_kind((#[trigger] rs[i]).kind)
        },
{
    broadcast use vstd::seq_lib::group_to_multiset_ensures;

    let ts = memory_targets(tree, subtree);
    lemma_targets_of_consumers(preorder(tree), subtree);
    lemma_memory_entries_kinds(ts, fs);
    if let Ok(es) = memory_entries(ts, fs) {
        let sorted = sort_by(es, memory_order());
        assert(strict_by(memory_order()));
        lemma_sort_in_order(es, memory_order());
        lemma_sort_permutes(es, memory_order());
        let rs = if result_count(n) <= sorted.len() {
            sorted.take(result_count(n) as int)
        } else {
            sorted
        };
        assert forall|i: int, j: int| 0 <= i < j < rs.len() implies (#[trigger] rs[i]).memory_current_bytes
            >= (#[trigger] rs[j]).memory_current_bytes by {
            assert(rs[i] == sorted[i] && rs[j] == sorted[j]);
            assert(!memory_order()(sorted[i], sorted[j]));
        }
        assert forall|i: int| 0 <= i < rs.len() implies consumer_kind((#[trigger] rs[i]).kind) by {
            assert(rs[i] == sorted[i]);
            assert(sorted.contains(sorted[i]));
            assert(sorted.to_multiset().count(sorted[i]) > 0);
            assert(es.contains(sorted[i]));
        }
    }
}

/// The ranking keeps `min(max(n, 1), m)` of the `m` entries of the
/// consumers that have `memory.current`, each of them no more often than it
/// occurs, and every entry left out holds no more memory than the last one
/// kept.
pub proof fn lemma_top_memory_cut(
    tree: CgroupNodeView,
    subtree: Seq<char>,
    n: Option<usize>,
    fs: Seq<FileReadView>,
)
    ensures
        top_memory_results(tree, subtree, n, fs) matches Ok(rs) ==> (memory_entries(
            memory_targets(tree, subtree),
            fs,
        ) matches Ok(es) && {
            &&& rs.len() == (if result_count(n) <= es.len() {
                result_count(n) as int
            } else {
                es.len() as int
            })
            &&& forall|e: TopMemoryEntryView| #[trigger]
                rs.to_multiset().count(e) <= es.to_multiset().count(e)
            &&& rs.len() > 0 ==> forall|e: TopMemoryEntryView| #[trigger]
                es.to_multiset().count(e) > rs.to_multiset().count(e) ==> e.memory_current_bytes
                    <= rs[rs.len() - 1].memory_current_bytes
        }),
{
    if let Ok(es) = memory_entries(memory_targets(tree, subtree), fs) {
        let sorted = sort_by(es, memory_order());
        let rs = top_memory_results(tree, subtree, n, fs)->Ok_0;
        lemma_sort_permutes(es, memory_order());
        assert(strict_by(memory_order()));
        let k: int = if result_count(n) <= sorted.len() {
            result_count(n) as int
        } else {
            sorted.len() as int
        };
        lemma_sorted_prefix(es, memory_order(), k);
        assert(rs =~= sorted.take(k));
        if rs.len() > 0 {
            assert forall|e: TopMemoryEntryView| #[trigger]
                es.to_multiset().count(e) > rs.to_multiset().count(e) implies e.memory_current_bytes
                <= rs[rs.len() - 1].memory_current_bytes by {
                assert(!memory_order()(sorted[k - 1], e));
            }
        }
    }
}

/// The reading `f` is of a file that holds `memory.current` = `b`.
pub open spec fn reads_bytes(f: FileReadView, b: u64) -> bool {
    f matches FileReadView::Contents(s) && memory_current_text(s) == Ok::<u64, ParseErrorView>(b)
}

/// The reading `f` is fine for the tool: the file is missing, or it holds
/// a `memory.current` that parses.
pub open spec fn reading_ok(f: FileReadView) -> bool {
    match f {
        FileReadView::Missing => true,
        FileReadView::Failed(_) => false,
        FileReadView::Contents(s) => memory_current_text(s) is Ok,
    }
}

/// How many of the readings `fs` are of a file that exists.
pub open spec fn present_count(fs: Seq<FileReadView>) -> nat
    decreases fs.len(),
{
    if fs.len() == 0 {
        0
    } else {
        present_count(fs.drop_last()) + if fs.last() is Contents {
            1nat
        } else {
            0nat
        }
    }
}

/// Entry `e` is target `t` with the bytes its reading `f` holds.
pub open spec fn entry_of(e: TopMemoryEntryView, t: TargetView, f: FileReadView) -> bool {
    e.path == t.path && e.kind == t.kind && reads_bytes(f, e.memory_current_bytes)
}

/// The entries of the targets `ts` read as `fs` (one reading each): they
/// exist exactly when every reading is fine; then there is one entry for
/// each target whose file exists, holding that target's path, kind and
/// parsed `memory.current`, and no other.
pub proof fn lemma_memory_entries_from_files(ts: Seq<TargetView>, fs: Seq<FileReadView>)
    requires
        ts.len() == fs.len(),
    ensures
        memory_entries(ts, fs) is Ok <==> forall|i: int| 0 <= i < fs.len() ==> reading_ok(#[trigger] fs[i]),
        memory_entries(ts, fs) matches Ok(es) ==> {
            &&& es.len() == present_count(fs)
            &&& forall|k: int|
                0 <= k < es.len() ==> exists|i: int|
                    0 <= i < ts.len() && entry_of(#[trigger] es[k], #[trigger] ts[i], fs[i])
            &&& forall|i: int|
                0 <= i < ts.len() && (#[trigger] fs[i]) is Contents ==> exists|k: int|
                    0 <= k < es.len() && entry_of(#[trigger] es[k], ts[i], fs[i])
        },
    decreases ts.len(),
{
    if ts.len() > 0 {
        let (t2, f2) = (ts.drop_last(), fs.drop_last());
        lemma_memory_entries_from_files(t2, f2);
        let last = ts.len() - 1;
        assert forall|i: int| 0 <= i < last implies #[trigger] t2[i] == ts[i] && f2[i] == fs[i] by {}
        if memory_entries(t2, f2) is Ok {
            let es = memory_entries(t2, f2)->Ok_0;
            if memory_entries(ts, fs) is Ok {
                let es2 = memory_entries(ts, fs)->Ok_0;
                assert(reading_ok(fs[last]));
                assert forall|i: int| 0 <= i < fs.len() implies reading_ok(#[trigger] fs[i]) by {
                    if i < last {
                        assert(reading_ok(f2[i]));
                    }
                }
                assert forall|k: int| 0 <= k < es.len() implies #[trigger] es2[k] == es[k] by {}
                assert forall|k: int| 0 <= k < es2.len() implies exists|i: int|
                    0 <= i < ts.len() && entry_of(#[trigger] es2[k], #[trigger] ts[i], fs[i]) by {
                    if k < es.len() {
                        let i = choose|i: int| 0 <= i < t2.len() && entry_of(#[trigger] es[k], #[trigger] t2[i], f2[i]);
                        assert(entry_of(es2[k], ts[i], fs[i]));
                    } else {
                        assert(entry_of(es2[k], ts[last], fs[last]));
                    }
                }
                assert forall|i: int| 0 <= i < ts.len() && (#[trigger] fs[i]) is Contents implies exists|k: int|
                    0 <= k < es2.len() && entry_of(#[trigger] es2[k], ts[i], fs[i]) by {
                    if i < last {
                        assert(f2[i] is Contents);
                        let k = choose|k: int| 0 <= k < es.len() && entry_of(#[trigger] es[k], t2[i], f2[i]);
                        assert(entry_of(es2[k], ts[i], fs[i]));
                    } else {
                        assert(entry_of(es2[es.len() as int], ts[i], fs[i]));
                    }
                }
            } else {
                assert(!reading_ok(fs[last]));
            }
        } else {
            let i = choose|i: int| 0 <= i < f2.len() && !reading_ok(#[trigger] f2[i]);
            assert(!reading_ok(fs[i]));
        }
    }
}

} // verus!
