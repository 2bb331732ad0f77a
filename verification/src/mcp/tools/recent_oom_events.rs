//! `recent_oom_events`: the cgroups whose `memory.events.local` counters
//! show limit or OOM events.

use crate::collector::stats::{memory_events_text, parse_memory_events, MemoryEvents};
use crate::collector::tree::{
    clone_kind, CgroupKind, CgroupKindView, CgroupNode, CgroupNodeView,
};
use crate::mcp::util::{
    collect_targets, preorder, targets_of, targets_view, Target, TargetView,
};
use crate::sort::{
    lemma_sort_in_order, lemma_sort_map, lemma_sort_permutes, order_of, sort_by, sort_vec,
    strict_by, SortOrder,
};
use crate::collector::error::{ParseErrorView, FileRead, FileReadView, ReadError, ReadErrorView, optional_read};
use vstd::prelude::*;

verus! {

/// What the caller asks for.
#[derive(Clone, Debug)]
pub struct RecentOomEventsParams {
    /// The subtree to search, relative to the cgroup root; empty for all.
    pub path: String,
    /// Keep cgroups whose counters are all zero; false when unset.
    pub include_zero: Option<bool>,
}

/// One cgroup and its event counters.
#[derive(Clone, Debug)]
pub struct OomEventEntry {
    /// The path from the cgroup root.
    pub path: String,
    pub kind: CgroupKind,
    /// The counters of `memory.events.local`.
    pub events: MemoryEvents,
}

pub struct OomEventEntryView {
    pub path: Seq<char>,
    pub kind: CgroupKindView,
    pub events: MemoryEvents,
}

impl View for OomEventEntry {
    type V = OomEventEntryView;

    open spec fn view(&self) -> OomEventEntryView {
        OomEventEntryView { path: self.path@, kind: self.kind@, events: self.events }
    }
}

/// The answer.
#[derive(Clone, Debug)]
pub struct RecentOomEventsResponse {
    /// The subtree that was searched, as asked.
    pub subtree: String,
    /// The matching cgroups, ranked by `oom_kill`, then `oom`,
    /// `oom_group_kill`, `high` and `low`, highest first.
    pub results: Vec<OomEventEntry>,
}

/// `a` ranks below `b`: its `(oom_kill, oom, oom_group_kill, high, low)`
/// is lexicographically smaller.
pub open spec fn ranks_below(a: MemoryEvents, b: MemoryEvents) -> bool {
    ||| a.oom_kill < b.oom_kill
    ||| (a.oom_kill == b.oom_kill && a.oom < b.oom)
    ||| (a.oom_kill == b.oom_kill && a.oom == b.oom && a.oom_group_kill < b.oom_group_kill)
    ||| (a.oom_kill == b.oom_kill && a.oom == b.oom && a.oom_group_kill == b.oom_group_kill
        && a.high < b.high)
    ||| (a.oom_kill == b.oom_kill && a.oom == b.oom && a.oom_group_kill == b.oom_group_kill
        && a.high == b.high && a.low < b.low)
}

/// Entries rank by their counters, highest first.
impl SortOrder for OomEventEntry {
    open spec fn goes_after(&self, other: &Self) -> bool {
        ranks_below(self.events, other.events)
    }

    fn is_after(&self, other: &Self) -> (r: bool) {
        let a = &self.events;
        let b = &other.events;
        a.oom_kill < b.oom_kill || (a.oom_kill == b.oom_kill && a.oom < b.oom) || (a.oom_kill
            == b.oom_kill && a.oom == b.oom && a.oom_group_kill < b.oom_group_kill) || (
        a.oom_kill == b.oom_kill && a.oom == b.oom && a.oom_group_kill == b.oom_group_kill
            && a.high < b.high) || (a.oom_kill == b.oom_kill && a.oom == b.oom
            && a.oom_group_kill == b.oom_group_kill && a.high == b.high && a.low < b.low)
    }
}

pub open spec fn oom_order() -> spec_fn(OomEventEntryView, OomEventEntryView) -> bool {
    |a: OomEventEntryView, b: OomEventEntryView| ranks_below(a.events, b.events)
}

pub open spec fn entries_view(s: Seq<OomEventEntry>) -> Seq<OomEventEntryView> {
    s.map_values(|e: OomEventEntry| e@)
}

pub open spec fn all_zero(e: MemoryEvents) -> bool {
    e.low == 0 && e.high == 0 && e.max == 0 && e.oom == 0 && e.oom_kill == 0 && e.oom_group_kill
        == 0
}

/// Every counter is zero.
pub fn is_all_zero(e: &MemoryEvents) -> (r: bool)
    ensures
        r == all_zero(*e),
{
    e.low == 0 && e.high == 0 && e.max == 0 && e.oom == 0 && e.oom_kill == 0 && e.oom_group_kill
        == 0
}

/// `memory.events.local` of a cgroup, which may not exist.
pub open spec fn events_read(f: FileReadView) -> Result<Option<MemoryEvents>, ReadErrorView> {
    optional_read(f, |s: Seq<char>| memory_events_text(s))
}

/// Reads `memory.events.local` from what reading the file gave: `None`
/// where it is missing; an error where reading failed or it does not parse.
pub fn read_memory_events_local_or_none(file: &FileRead) -> (r: Result<
    Option<MemoryEvents>,
    ReadError,
>)
    ensures
        match r {
            Ok(v) => events_read(file@) == Ok::<Option<MemoryEvents>, ReadErrorView>(v),
            Err(e) => events_read(file@) == Err::<Option<MemoryEvents>, ReadErrorView>(e@),
        },
{
    match file {
        FileRead::Missing => Ok(None),
        FileRead::Failed(m) => Err(ReadError::Io(m.clone())),
        FileRead::Contents(s) => match parse_memory_events(s.as_str()) {
            Ok(v) => Ok(Some(v)),
            Err(e) => Err(ReadError::Parse(e)),
        },
    }
}

/// The entries of the cgroups `ts` whose `memory.events.local` reads `fs`
/// (one for each), in order: cgroups without the file are left out, and
/// so are those with all counters zero unless `include_zero`; the first
/// failed read decides the error.
pub open spec fn oom_entries(ts: Seq<TargetView>, fs: Seq<FileReadView>, include_zero: bool) -> Result<
    Seq<OomEventEntryView>,
    ReadErrorView,
>
    decreases ts.len(),
{
    if ts.len() == 0 || fs.len() == 0 {
        Ok(Seq::empty())
    } else {
        match oom_entries(ts.drop_last(), fs.drop_last(), include_zero) {
            Err(e) => Err(e),
            Ok(es) => match events_read(fs.last()) {
                Err(e) => Err(e),
                Ok(None) => Ok(es),
                Ok(Some(ev)) => if include_zero || !all_zero(ev) {
                    Ok(es.push(OomEventEntryView { path: ts.last().path, kind: ts.last().kind, events: ev }))
                } else {
                    Ok(es)
                },
            },
        }
    }
}

/// Every cgroup of the subtree `tree`, searched at `subtree`, in walk order.
pub open spec fn oom_targets(tree: CgroupNodeView, subtree: Seq<char>) -> Seq<TargetView> {
    targets_of(preorder(tree), subtree, false)
}

/// The answer: the matching cgroups ranked highest first (ties keep walk
/// order).
pub open spec fn recent_oom_results(
    tree: CgroupNodeView,
    subtree: Seq<char>,
    include_zero: Option<bool>,
    fs: Seq<FileReadView>,
) -> Result<Seq<OomEventEntryView>, ReadErrorView> {
    let iz = match include_zero {
        Some(b) => b,
        None => false,
    };
    match oom_entries(oom_targets(tree, subtree), fs, iz) {
        Err(e) => Err(e),
        Ok(es) => Ok(sort_by(es, oom_order())),
    }
}

/// The cgroups whose `memory.events.local` the tool reads, in walk order.
pub fn collect(tree: &CgroupNode, subtree: &str) -> (r: Vec<Target>)
    ensures
        targets_view(r@) == oom_targets(tree@, subtree@),
{
    collect_targets(tree, subtree, false)
}

pub open spec fn file_views(s: Seq<FileRead>) -> Seq<FileReadView> {
    s.map_values(|f: FileRead| f@)
}

proof fn lemma_oom_entries_err_prefix(
    ts: Seq<TargetView>,
    fs: Seq<FileReadView>,
    iz: bool,
    k: int,
)
    requires
        0 <= k <= ts.len(),
        ts.len() == fs.len(),
        oom_entries(ts.take(k), fs.take(k), iz) is Err,
    ensures
        oom_entries(ts, fs, iz) == oom_entries(ts.take(k), fs.take(k), iz),
    decreases ts.len() - k,
{
    if k < ts.len() {
        assert(ts.drop_last().take(k) == ts.take(k));
        assert(fs.drop_last().take(k) == fs.take(k));
        lemma_oom_entries_err_prefix(ts.drop_last(), fs.drop_last(), iz, k);
    } else {
        assert(ts.take(k) == ts);
        assert(fs.take(k) == fs);
    }
}

proof fn lemma_sort_entries_view(s: Seq<OomEventEntry>)
    ensures
        entries_view(sort_by(s, order_of::<OomEventEntry>())) == sort_by(
            entries_view(s),
            oom_order(),
        ),
{
    let f = |e: OomEventEntry| e@;
    assert forall|a: OomEventEntry, b: OomEventEntry| #[trigger]
        order_of::<OomEventEntry>()(a, b) == oom_order()(f(a), f(b)) by {}
    lemma_sort_map(s, f, order_of::<OomEventEntry>(), oom_order());
}

/// Lists the cgroups of the subtree `tree` (read at `params.path`) whose
/// `memory.events.local` readings `readings`, one for each target that
/// `collect` gives in that order, show events.
pub fn run(params: RecentOomEventsParams, tree: &CgroupNode, readings: &Vec<FileRead>) -> (r:
    Result<RecentOomEventsResponse, ReadError>)
    requires
        readings@.len() == oom_targets(tree@, params.path@).len(),
    ensures
        match r {
            Ok(resp) => resp.subtree@ == params.path@ && recent_oom_results(
                tree@,
                params.path@,
                params.include_zero,
                file_views(readings@),
            ) == Ok::<Seq<OomEventEntryView>, ReadErrorView>(entries_view(resp.results@)),
            Err(e) => recent_oom_results(
                tree@,
                params.path@,
                params.include_zero,
                file_views(readings@),
            ) == Err::<Seq<OomEventEntryView>, ReadErrorView>(e@),
        },
{
    let targets = collect(tree, params.path.as_str());
    let ghost ts = targets_view(targets@);
    let ghost fs = file_views(readings@);
    let include_zero = match params.include_zero {
        Some(b) => b,
        None => false,
    };
    let mut entries: Vec<OomEventEntry> = Vec::new();
    assert(entries_view(entries@) =~= Seq::<OomEventEntryView>::empty());
    for i in 0..targets.len()
        invariant
            ts == targets_view(targets@),
            ts == oom_targets(tree@, params.path@),
            fs == file_views(readings@),
            ts.len() == fs.len(),
            include_zero == (match params.include_zero {
                Some(b) => b,
                None => false,
            }),
            oom_entries(ts.take(i as int), fs.take(i as int), include_zero) == Ok::<
                Seq<OomEventEntryView>,
                ReadErrorView,
            >(entries_view(entries@)),
    {
        assert(ts.take(i + 1).drop_last() == ts.take(i as int));
        assert(fs.take(i + 1).drop_last() == fs.take(i as int));
        assert(ts.take(i + 1).last() == targets@[i as int]@);
        assert(fs.take(i + 1).last() == readings@[i as int]@);
        match read_memory_events_local_or_none(&readings[i]) {
            Err(e) => {
                proof {
                    lemma_oom_entries_err_prefix(ts, fs, include_zero, i + 1);
                }
                return Err(e);
            },
            Ok(None) => {},
            Ok(Some(events)) => {
                if include_zero || !is_all_zero(&events) {
                    let t = &targets[i];
                    let ghost old_entries = entries@;
                    entries.push(
                        OomEventEntry { path: t.path.clone(), kind: clone_kind(&t.kind), events },
                    );
                    assert(entries_view(entries@) =~= entries_view(old_entries).push(
                        entries@.last()@,
                    ));
                }
            },
        }
    }
    assert(ts.take(ts.len() as int) == ts);
    assert(fs.take(fs.len() as int) == fs);
    let ghost unsorted = entries@;
    let sorted = sort_vec(entries);
    proof {
        lemma_sort_entries_view(unsorted);
    }
    Ok(RecentOomEventsResponse { subtree: params.path, results: sorted })
}

proof fn lemma_oom_entries_nonzero(ts: Seq<TargetView>, fs: Seq<FileReadView>)
    ensures
        oom_entries(ts, fs, false) matches Ok(es) ==> forall|i: int|
            0 <= i < es.len() ==> !all_zero((#[trigger] es[i]).events),
    decreases ts.len(),
{
    if ts.len() > 0 && fs.len() > 0 {
        lemma_oom_entries_nonzero(ts.drop_last(), fs.drop_last());
    }
}

/// What the tool promises of every answer: the cgroups come ranked highest
/// first, unless zero counters are asked for none of them has all counters
/// zero, and they are exactly the entries of the cgroups that have
/// `memory.events.local` and pass that filter, each once.
pub proof fn lemma_recent_oom_results(
    tree: CgroupNodeView,
    subtree: Seq<char>,
    include_zero: Option<bool>,
    fs: Seq<FileReadView>,
)
    ensures
        recent_oom_results(tree, subtree, include_zero, fs) matches Ok(rs) ==> {
            &&& forall|i: int, j: int|
                0 <= i < j < rs.len() ==> !ranks_below((#[trigger] rs[i]).events, (#[trigger] rs[j]).events)
            &&& include_zero != Some(true) ==> forall|i: int|
                0 <= i < rs.len() ==> !all_zero((#[trigger] rs[i]).events)
            &&& oom_entries(
                oom_targets(tree, subtree),
                fs,
                include_zero == Some(true),
            ) matches Ok(es) && rs.to_multiset() == es.to_multiset()
        },
{
    broadcast use vstd::seq_lib::group_to_multiset_ensures;

    let iz = match include_zero {
        Some(b) => b,
        None => false,
    };
    let ts = oom_targets(tree, subtree);
    lemma_oom_entries_nonzero(ts, fs);
    if let Ok(es) = oom_entries(ts, fs, iz) {
        let rs = sort_by(es, oom_order());
        assert(iz == (include_zero == Some(true)));
        assert(strict_by(oom_order()));
        lemma_sort_in_order(es, oom_order());
        lemma_sort_permutes(es, oom_order());
        assert forall|i: int, j: int| 0 <= i < j < rs.len() implies !ranks_below(
            (#[trigger] rs[i]).events,
            (#[trigger] rs[j]).events,
        ) by {
            assert(!oom_order()(rs[i], rs[j]));
        }
        if include_zero != Some(true) {
            assert forall|i: int| 0 <= i < rs.len() implies !all_zero((#[trigger] rs[i]).events) by {
                assert(rs.contains(rs[i]));
                assert(rs.to_multiset().count(rs[i]) > 0);
                assert(es.contains(rs[i]));
            }
        }
    }
}

/// `a` comes before or ties with `b` when ranking by `oom_kill`, then
/// `oom`, `oom_group_kill`, `high` and `low`, each highest first.
pub open spec fn ranked_first(a: MemoryEvents, b: MemoryEvents) -> bool {
    ||| a.oom_kill > b.oom_kill
    ||| a.oom_kill == b.oom_kill && a.oom > b.oom
    ||| a.oom_kill == b.oom_kill && a.oom == b.oom && a.oom_group_kill > b.oom_group_kill
    ||| a.oom_kill == b.oom_kill && a.oom == b.oom && a.oom_group_kill == b.oom_group_kill
        && a.high > b.high
    ||| a.oom_kill == b.oom_kill && a.oom == b.oom && a.oom_group_kill == b.oom_group_kill
        && a.high == b.high && a.low >= b.low
}

/// The answer lists the cgroups by `oom_kill` descending, ties broken by
/// `oom`, then `oom_group_kill`, `high` and `low`, each descending.
pub proof fn lemma_recent_oom_order(
    tree: CgroupNodeView,
    subtree: Seq<char>,
    include_zero: Option<bool>,
    fs: Seq<FileReadView>,
)
    ensures
        recent_oom_results(tree, subtree, include_zero, fs) matches Ok(rs) ==> forall|i: int, j: int|
            0 <= i < j < rs.len() ==> (#[trigger] rs[i]).events.oom_kill >= (
            #[trigger] rs[j]).events.oom_kill && ranked_first(rs[i].events, rs[j].events),
{
    lemma_recent_oom_results(tree, subtree, include_zero, fs);
}

/// The reading `f` is of a file that holds the counters `ev`.
pub open spec fn reads_events(f: FileReadView, ev: MemoryEvents) -> bool {
    f matches FileReadView::Contents(s) && memory_events_text(s) == Ok::<MemoryEvents, ParseErrorView>(ev)
}

/// The reading `f` is fine for the tool: missing, or counters that parse.
pub open spec fn events_ok(f: FileReadView) -> bool {
    match f {
        FileReadView::Missing => true,
        FileReadView::Failed(_) => false,
        FileReadView::Contents(s) => memory_events_text(s) is Ok,
    }
}

/// Some counter of `ev` is not zero.
pub open spec fn some_event(ev: MemoryEvents) -> bool {
    ev.low != 0 || ev.high != 0 || ev.max != 0 || ev.oom != 0 || ev.oom_kill != 0
        || ev.oom_group_kill != 0
}

/// The reading `f` gives an entry: its file exists, and it shows an event
/// or zero counters are asked for.
pub open spec fn listed(f: FileReadView, include_zero: bool) -> bool {
    f matches FileReadView::Contents(s) && memory_events_text(s) is Ok && (include_zero
        || some_event(memory_events_text(s)->Ok_0))
}

/// Entry `e` is target `t` with the counters its reading `f` holds.
pub open spec fn oom_entry_of(e: OomEventEntryView, t: TargetView, f: FileReadView) -> bool {
    e.path == t.path && e.kind == t.kind && reads_events(f, e.events)
}

/// Entry `e` is target `t` with the counters its reading `f` holds, and
/// that reading gives an entry.
pub open spec fn listed_entry_of(e: OomEventEntryView, t: TargetView, f: FileReadView, include_zero: bool) -> bool {
    oom_entry_of(e, t, f) && listed(f, include_zero)
}

/// Each entry of the cgroups `ts` read as `fs` is a cgroup whose file
/// exists and shows an event (or any counters, when zero counters are
/// asked for), with the counters that file holds.
pub proof fn lemma_oom_entry_at(ts: Seq<TargetView>, fs: Seq<FileReadView>, include_zero: bool, k: int)
    requires
        ts.len() == fs.len(),
        oom_entries(ts, fs, include_zero) is Ok,
        0 <= k < oom_entries(ts, fs, include_zero)->Ok_0.len(),
    ensures
        exists|i: int|
            0 <= i < ts.len() && #[trigger] listed_entry_of(
                oom_entries(ts, fs, include_zero)->Ok_0[k],
                ts[i],
                fs[i],
                include_zero,
            ),
    decreases ts.len(),
{
    let (t2, f2) = (ts.drop_last(), fs.drop_last());
    let es = oom_entries(ts, fs, include_zero)->Ok_0;
    let ep = oom_entries(t2, f2, include_zero)->Ok_0;
    let last = ts.len() - 1;
    if k < ep.len() {
        lemma_oom_entry_at(t2, f2, include_zero, k);
        let i = choose|i: int| 0 <= i < t2.len() && #[trigger] listed_entry_of(ep[k], t2[i], f2[i], include_zero);
        assert(es[k] == ep[k]);
        assert(t2[i] == ts[i] && f2[i] == fs[i]);
        assert(listed_entry_of(es[k], ts[i], fs[i], include_zero));
    } else {
        assert(listed_entry_of(es[k], ts[last], fs[last], include_zero));
    }
}

/// The entries of the cgroups `ts` read as `fs` (one reading each): they
/// exist exactly when every reading is fine, and then every cgroup whose
/// file exists and shows an event (or any counters, when zero counters are
/// asked for) has an entry with the counters that file holds.
pub proof fn lemma_oom_entries_from_files(ts: Seq<TargetView>, fs: Seq<FileReadView>, include_zero: bool)
    requires
        ts.len() == fs.len(),
    ensures
        oom_entries(ts, fs, include_zero) is Ok <==> forall|i: int|
            0 <= i < fs.len() ==> events_ok(#[trigger] fs[i]),
        oom_entries(ts, fs, include_zero) matches Ok(es) ==> forall|i: int|
            0 <= i < ts.len() && listed(#[trigger] fs[i], include_zero) ==> exists|k: int|
                0 <= k < es.len() && oom_entry_of(#[trigger] es[k], ts[i], fs[i]),
    decreases ts.len(),
{
    if ts.len() > 0 {
        let (t2, f2) = (ts.drop_last(), fs.drop_last());
        lemma_oom_entries_from_files(t2, f2, include_zero);
        let last = ts.len() - 1;
        assert forall|i: int| 0 <= i < last implies #[trigger] t2[i] == ts[i] && f2[i] == fs[i] by {}
        if oom_entries(t2, f2, include_zero) is Ok {
            let es = oom_entries(t2, f2, include_zero)->Ok_0;
            if oom_entries(ts, fs, include_zero) is Ok {
                let es2 = oom_entries(ts, fs, include_zero)->Ok_0;
                assert(events_ok(fs[last]));
                assert forall|i: int| 0 <= i < fs.len() implies events_ok(#[trigger] fs[i]) by {
                    if i < last {
                        assert(events_ok(f2[i]));
                    }
                }
                assert(es2.len() == es.len() || es2.len() == es.len() + 1);
                assert forall|k: int| 0 <= k < es.len() implies #[trigger] es2[k] == es[k] by {}
                assert(es2.len() == es.len() + 1 <==> listed(fs[last], include_zero));
                assert forall|i: int| 0 <= i < ts.len() && listed(#[trigger] fs[i], include_zero) implies exists|k: int|
                    0 <= k < es2.len() && oom_entry_of(#[trigger] es2[k], ts[i], fs[i]) by {
                    if i < last {
                        assert(listed(f2[i], include_zero));
                        let k = choose|k: int| 0 <= k < es.len() && oom_entry_of(#[trigger] es[k], t2[i], f2[i]);
                        assert(oom_entry_of(es2[k], ts[i], fs[i]));
                    } else {
                        assert(oom_entry_of(es2[es.len() as int], ts[i], fs[i]));
                    }
                }
                assert(oom_entries(ts, fs, include_zero) == Ok::<Seq<OomEventEntryView>, ReadErrorView>(es2));
            } else {
                assert(!events_ok(fs[last]));
            }
        } else {
            let i = choose|i: int| 0 <= i < f2.len() && !events_ok(#[trigger] f2[i]);
            assert(!events_ok(fs[i]));
            assert(oom_entries(ts, fs, include_zero) is Err);
        }
    } else {
        assert(oom_entries(ts, fs, include_zero) == Ok::<Seq<OomEventEntryView>, ReadErrorView>(Seq::empty()));
    }
}


} // verus!
