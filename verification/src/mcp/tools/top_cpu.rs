//! `top_cpu`: the cgroups that used the most CPU time over a sampling
//! window. The caller reads `cpu.stat` of every target twice, the window
//! apart; this module picks the targets, reads the samples, and ranks the
//! deltas. Turning a delta into cores is the caller's division by the
//! window.

use crate::collector::rate::{cpu_delta, cpu_delta_of};
use crate::collector::stats::{cpu_stat_text, parse_cpu_stat, CpuStat};
use crate::collector::tree::{
    clone_kind, CgroupKind, CgroupKindView, CgroupNode, CgroupNodeView,
};
use crate::mcp::util::{
    collect_targets, consumer_kind, effective_count, lemma_targets_of_consumers,
    preorder, result_count, targets_of, targets_view, Target, TargetView,
};
use crate::sort::{
    lemma_sort_in_order, lemma_sort_map, lemma_sort_permutes, lemma_sorted_prefix, order_of,
    sort_by, sort_vec, strict_by, SortOrder,
};
use crate::collector::error::{FileRead, FileReadView};
use vstd::prelude::*;

verus! {

/// What the caller asks for.
#[derive(Clone, Debug)]
pub struct TopCpuParams {
    /// The subtree to search, relative to the cgroup root; empty for all.
    pub path: String,
    /// How many results; 10 when unset.
    pub n: Option<usize>,
    /// The sampling window in milliseconds; 500 when unset.
    pub sample_window_ms: Option<u64>,
}

/// How one cgroup's CPU counters moved over the window.
#[derive(Clone, Debug)]
pub struct CpuUsage {
    /// The path from the cgroup root.
    pub path: String,
    pub kind: CgroupKind,
    pub usage_delta_usec: u64,
    pub user_delta_usec: u64,
    pub system_delta_usec: u64,
    /// Periods in which the bandwidth limit throttled the cgroup.
    pub throttled_periods_delta: u64,
    /// Time spent throttled.
    pub throttled_usec_delta: u64,
    /// A counter went backwards; the rates and throttle deltas are then 0.
    pub reset_detected: bool,
}

pub struct CpuUsageView {
    pub path: Seq<char>,
    pub kind: CgroupKindView,
    pub usage_delta_usec: u64,
    pub user_delta_usec: u64,
    pub system_delta_usec: u64,
    pub throttled_periods_delta: u64,
    pub throttled_usec_delta: u64,
    pub reset_detected: bool,
}

impl View for CpuUsage {
    type V = CpuUsageView;

    open spec fn view(&self) -> CpuUsageView {
        CpuUsageView {
            path: self.path@,
            kind: self.kind@,
            usage_delta_usec: self.usage_delta_usec,
            user_delta_usec: self.user_delta_usec,
            system_delta_usec: self.system_delta_usec,
            throttled_periods_delta: self.throttled_periods_delta,
            throttled_usec_delta: self.throttled_usec_delta,
            reset_detected: self.reset_detected,
        }
    }
}

/// Usage ranks by CPU time used, most first.
impl SortOrder for CpuUsage {
    open spec fn goes_after(&self, other: &Self) -> bool {
        self.usage_delta_usec < other.usage_delta_usec
    }

    fn is_after(&self, other: &Self) -> (r: bool) {
        self.usage_delta_usec < other.usage_delta_usec
    }
}

pub open spec fn usage_order() -> spec_fn(CpuUsageView, CpuUsageView) -> bool {
    |a: CpuUsageView, b: CpuUsageView| a.usage_delta_usec < b.usage_delta_usec
}

pub open spec fn usages_view(s: Seq<CpuUsage>) -> Seq<CpuUsageView> {
    s.map_values(|e: CpuUsage| e@)
}

/// The consumers of the subtree `tree`, searched at `subtree`, in walk
/// order.
pub open spec fn cpu_targets(tree: CgroupNodeView, subtree: Seq<char>) -> Seq<TargetView> {
    targets_of(preorder(tree), subtree, true)
}

/// The cgroups whose `cpu.stat` the tool samples, in walk order.
pub fn collect_targets_for_cpu(tree: &CgroupNode, subtree: &str) -> (r: Vec<Target>)
    ensures
        targets_view(r@) == cpu_targets(tree@, subtree@),
{
    collect_targets(tree, subtree, true)
}

/// A sample of `cpu.stat`: `None` where the file is missing, could not be
/// read or does not parse, since the tool ranks what it can read.
pub open spec fn cpu_sample(f: FileReadView) -> Option<CpuStat> {
    match f {
        FileReadView::Contents(s) => match cpu_stat_text(s) {
            Ok(c) => Some(c),
            Err(_) => None,
        },
        _ => None,
    }
}

pub fn read_cpu_stat_or_none(file: &FileRead) -> (r: Option<CpuStat>)
    ensures
        r == cpu_sample(file@),
{
    match file {
        FileRead::Contents(s) => match parse_cpu_stat(s.as_str()) {
            Ok(c) => Some(c),
            Err(_) => None,
        },
        _ => None,
    }
}

/// The samples of all targets, one per read, in order.
pub fn sample_all(reads: &Vec<FileRead>) -> (r: Vec<Option<CpuStat>>)
    ensures
        r@.len() == reads@.len(),
        forall|i: int| 0 <= i < reads@.len() ==> r@[i] == cpu_sample(#[trigger] reads@[i]@),
{
    let mut out: Vec<Option<CpuStat>> = Vec::new();
    for i in 0..reads.len()
        invariant
            out@.len() == i,
            forall|j: int| 0 <= j < i ==> out@[j] == cpu_sample(#[trigger] reads@[j]@),
    {
        out.push(read_cpu_stat_or_none(&reads[i]));
    }
    out
}

/// `b - a`, or 0 when `b` is smaller.
pub open spec fn sat_sub(b: u64, a: u64) -> u64 {
    if b >= a {
        (b - a) as u64
    } else {
        0
    }
}

/// How the counters of target `t` moved from `a` to `b`.
pub open spec fn usage_of(t: TargetView, a: CpuStat, b: CpuStat) -> CpuUsageView {
    let d = cpu_delta_of(a, b);
    CpuUsageView {
        path: t.path,
        kind: t.kind,
        usage_delta_usec: d.usage_delta_usec,
        user_delta_usec: d.user_delta_usec,
        system_delta_usec: d.system_delta_usec,
        throttled_periods_delta: if d.reset_detected {
            0
        } else {
            sat_sub(b.nr_throttled, a.nr_throttled)
        },
        throttled_usec_delta: if d.reset_detected {
            0
        } else {
            sat_sub(b.throttled_usec, a.throttled_usec)
        },
        reset_detected: d.reset_detected,
    }
}

/// The usage of each target with both samples, in target order; targets
/// missing either sample are left out.
pub open spec fn usages(ts: Seq<TargetView>, before: Seq<Option<CpuStat>>, after: Seq<Option<CpuStat>>) -> Seq<
    CpuUsageView,
>
    decreases ts.len(),
{
    if ts.len() == 0 || before.len() == 0 || after.len() == 0 {
        Seq::empty()
    } else {
        let r = usages(ts.drop_last(), before.drop_last(), after.drop_last());
        match (before.last(), after.last()) {
            (Some(a), Some(b)) => r.push(usage_of(ts.last(), a, b)),
            _ => r,
        }
    }
}

/// The ranking: most CPU time first (ties keep walk order), at most
/// `result_count(n)` of them.
pub open spec fn top_cpu_results(
    ts: Seq<TargetView>,
    before: Seq<Option<CpuStat>>,
    after: Seq<Option<CpuStat>>,
    n: Option<usize>,
) -> Seq<CpuUsageView> {
    let sorted = sort_by(usages(ts, before, after), usage_order());
    if result_count(n) <= sorted.len() {
        sorted.take(result_count(n) as int)
    } else {
        sorted
    }
}

proof fn lemma_sort_usages_view(s: Seq<CpuUsage>)
    ensures
        usages_view(sort_by(s, order_of::<CpuUsage>())) == sort_by(usages_view(s), usage_order()),
{
    let f = |e: CpuUsage| e@;
    assert forall|a: CpuUsage, b: CpuUsage| #[trigger]
        order_of::<CpuUsage>()(a, b) == usage_order()(f(a), f(b)) by {}
    lemma_sort_map(s, f, order_of::<CpuUsage>(), usage_order());
}

/// Ranks the targets `targets` by the CPU time they used between the
/// samples `before` and `after` (one of each per target, in order).
pub fn rank(
    n: Option<usize>,
    targets: &Vec<Target>,
    before: &Vec<Option<CpuStat>>,
    after: &Vec<Option<CpuStat>>,
) -> (r: Vec<CpuUsage>)
    requires
        before@.len() == targets@.len(),
        after@.len() == targets@.len(),
    ensures
        usages_view(r@) == top_cpu_results(targets_view(targets@), before@, after@, n),
{
    let ghost ts = targets_view(targets@);
    let count = effective_count(n);
    let mut entries: Vec<CpuUsage> = Vec::new();
    assert(usages_view(entries@) =~= Seq::<CpuUsageView>::empty());
    for i in 0..targets.len()
        invariant
            ts == targets_view(targets@),
            before@.len() == targets@.len(),
            after@.len() == targets@.len(),
            usages_view(entries@) == usages(
                ts.take(i as int),
                before@.take(i as int),
                after@.take(i as int),
            ),
    {
        assert(ts.take(i + 1).drop_last() == ts.take(i as int));
        assert(before@.take(i + 1).drop_last() == before@.take(i as int));
        assert(after@.take(i + 1).drop_last() == after@.take(i as int));
        assert(ts.take(i + 1).last() == targets@[i as int]@);
        match (&before[i], &after[i]) {
            (Some(a), Some(b)) => {
                let d = cpu_delta(a, b);
                let (periods, usec) = if d.reset_detected {
                    (0, 0)
                } else {
                    (
                        if b.nr_throttled >= a.nr_throttled {
                            b.nr_throttled - a.nr_throttled
                        } else {
                            0
                        },
                        if b.throttled_usec >= a.throttled_usec {
                            b.throttled_usec - a.throttled_usec
                        } else {
                            0
                        },
                    )
                };
                let t = &targets[i];
                let ghost old_entries = entries@;
                entries.push(
                    CpuUsage {
                        path: t.path.clone(),
                        kind: clone_kind(&t.kind),
                        usage_delta_usec: d.usage_delta_usec,
                        user_delta_usec: d.user_delta_usec,
                        system_delta_usec: d.system_delta_usec,
                        throttled_periods_delta: periods,
                        throttled_usec_delta: usec,
                        reset_detected: d.reset_detected,
                    },
                );
                assert(usages_view(entries@) =~= usages_view(old_entries).push(entries@.last()@));
            },
            _ => {},
        }
    }
    assert(ts.take(ts.len() as int) == ts);
    assert(before@.take(before@.len() as int) == before@);
    assert(after@.take(after@.len() as int) == after@);
    let ghost unsorted = entries@;
    let mut sorted = sort_vec(entries);
    proof {
        lemma_sort_usages_view(unsorted);
        lemma_sort_permutes(unsorted, order_of::<CpuUsage>());
    }
    let ghost full = sorted@;
    sorted.truncate(count);
    assert(usages_view(sorted@) =~= (if count <= full.len() {
        usages_view(full).take(count as int)
    } else {
        usages_view(full)
    }));
    sorted
}

proof fn lemma_usages_kinds(ts: Seq<TargetView>, before: Seq<Option<CpuStat>>, after: Seq<Option<CpuStat>>)
    requires
        forall|i: int| 0 <= i < ts.len() ==> consumer_kind((#[trigger] ts[i]).kind),
    ensures
        forall|i: int|
            0 <= i < usages(ts, before, after).len() ==> consumer_kind(
                (#[trigger] usages(ts, before, after)[i]).kind,
            ),
    decreases ts.len(),
{
    if ts.len() > 0 && before.len() > 0 && after.len() > 0 {
        assert forall|i: int| 0 <= i < ts.drop_last().len() implies consumer_kind(
            (#[trigger] ts.drop_last()[i]).kind,
        ) by {
            assert(ts.drop_last()[i] == ts[i]);
        }
        lemma_usages_kinds(ts.drop_last(), before.drop_last(), after.drop_last());
        assert(consumer_kind(ts[ts.len() - 1].kind));
    }
}

/// What the tool promises of every answer: at most the asked-for number of
/// results, most CPU time first, no slice and no root among them, and no
/// throttling counted for a cgroup whose counters went backwards.
pub proof fn lemma_top_cpu_results(
    tree: CgroupNodeView,
    subtree: Seq<char>,
    before: Seq<Option<CpuStat>>,
    after: Seq<Option<CpuStat>>,
    n: Option<usize>,
)
    ensures
        ({
            let rs = top_cpu_results(cpu_targets(tree, subtree), before, after, n);
            &&& rs.len() <= result_count(n)
            &&& forall|i: int, j: int|
                0 <= i < j < rs.len() ==> (#[trigger] rs[i]).usage_delta_usec
                    >= (#[trigger] rs[j]).usage_delta_usec
            &&& forall|i: int| 0 <= i < rs.len() ==> consumer_kind((#[trigger] rs[i]).kind)
            &&& forall|i: int|
                0 <= i < rs.len() && (#[trigger] rs[i]).reset_detected ==> rs[i].throttled_periods_delta
                    == 0 && rs[i].throttled_usec_delta == 0
        }),
{
    broadcast use vstd::seq_lib::group_to_multiset_ensures;

    let ts = cpu_targets(tree, subtree);
    lemma_targets_of_consumers(preorder(tree), subtree);
    lemma_usages_kinds(ts, before, after);
    let us = usages(ts, before, after);
    let sorted = sort_by(us, usage_order());
    assert(strict_by(usage_order()));
    lemma_sort_in_order(us, usage_order());
    lemma_sort_permutes(us, usage_order());
    let rs = top_cpu_results(ts, before, after, n);
    assert forall|i: int, j: int| 0 <= i < j < rs.len() implies (#[trigger] rs[i]).usage_delta_usec
        >= (#[trigger] rs[j]).usage_delta_usec by {
        assert(rs[i] == sorted[i] && rs[j] == sorted[j]);
        assert(!usage_order()(sorted[i], sorted[j]));
    }
    assert forall|i: int| 0 <= i < rs.len() implies consumer_kind((#[trigger] rs[i]).kind) by {
        assert(rs[i] == sorted[i]);
        assert(sorted.contains(sorted[i]));
        assert(sorted.to_multiset().count(sorted[i]) > 0);
        assert(us.contains(sorted[i]));
    }
    lemma_usages_reset(ts, before, after);
    assert forall|i: int| 0 <= i < rs.len() && (#[trigger] rs[i]).reset_detected implies rs[i].throttled_periods_delta
        == 0 && rs[i].throttled_usec_delta == 0 by {
        assert(rs[i] == sorted[i]);
        assert(sorted.contains(sorted[i]));
        assert(sorted.to_multiset().count(sorted[i]) > 0);
        assert(us.contains(sorted[i]));
    }
}

proof fn lemma_usages_reset(ts: Seq<TargetView>, before: Seq<Option<CpuStat>>, after: Seq<Option<CpuStat>>)
    ensures
        forall|i: int|
            0 <= i < usages(ts, before, after).len() && (#[trigger] usages(ts, before, after)[i]).reset_detected
                ==> usages(ts, before, after)[i].throttled_periods_delta == 0 && usages(
                ts,
                before,
                after,
            )[i].throttled_usec_delta == 0,
    decreases ts.len(),
{
    if ts.len() > 0 && before.len() > 0 && after.len() > 0 {
        lemma_usages_reset(ts.drop_last(), before.drop_last(), after.drop_last());
    }
}

/// No movement between two samples: every counter delta is 0.
pub open spec fn idle(e: CpuUsageView) -> bool {
    &&& e.usage_delta_usec == 0
    &&& e.user_delta_usec == 0
    &&& e.system_delta_usec == 0
    &&& e.throttled_periods_delta == 0
    &&& e.throttled_usec_delta == 0
    &&& !e.reset_detected
}

proof fn lemma_usages_same_samples(ts: Seq<TargetView>, samples: Seq<Option<CpuStat>>)
    ensures
        forall|i: int|
            0 <= i < usages(ts, samples, samples).len() ==> idle(
                #[trigger] usages(ts, samples, samples)[i],
            ),
    decreases ts.len(),
{
    if ts.len() > 0 && samples.len() > 0 {
        let r = usages(ts.drop_last(), samples.drop_last(), samples.drop_last());
        lemma_usages_same_samples(ts.drop_last(), samples.drop_last());
        if let Some(a) = samples.last() {
            let u = usage_of(ts.last(), a, a);
            assert(idle(u));
            assert(usages(ts, samples, samples) == r.push(u));
            assert forall|i: int| 0 <= i < r.len() + 1 implies idle(#[trigger] r.push(u)[i]) by {
                if i < r.len() {
                    assert(r.push(u)[i] == r[i]);
                }
            }
        }
    }
}

/// Two samples that agree show no CPU use: every ranked cgroup used no CPU
/// time, was not throttled, and reports no reset.
pub proof fn lemma_top_cpu_same_samples(
    ts: Seq<TargetView>,
    samples: Seq<Option<CpuStat>>,
    n: Option<usize>,
)
    ensures
        forall|i: int|
            0 <= i < top_cpu_results(ts, samples, samples, n).len() ==> idle(
                #[trigger] top_cpu_results(ts, samples, samples, n)[i],
            ),
{
    broadcast use vstd::seq_lib::group_to_multiset_ensures;

    let us = usages(ts, samples, samples);
    lemma_usages_same_samples(ts, samples);
    let sorted = sort_by(us, usage_order());
    lemma_sort_permutes(us, usage_order());
    let rs = top_cpu_results(ts, samples, samples, n);
    assert forall|i: int| 0 <= i < rs.len() implies idle(#[trigger] rs[i]) by {
        assert(rs[i] == sorted[i]);
        assert(sorted.contains(sorted[i]));
        assert(sorted.to_multiset().count(sorted[i]) > 0);
        assert(us.contains(sorted[i]));
    }
}

/// The ranking keeps `min(max(n, 1), m)` of the `m` usages of the targets
/// with both samples, each of them no more often than it occurs, and every
/// usage left out used no more CPU time than the last one kept.
pub proof fn lemma_top_cpu_cut(
    ts: Seq<TargetView>,
    before: Seq<Option<CpuStat>>,
    after: Seq<Option<CpuStat>>,
    n: Option<usize>,
)
    ensures
        ({
            let us = usages(ts, before, after);
            let rs = top_cpu_results(ts, before, after, n);
            &&& rs.len() == (if result_count(n) <= us.len() {
                result_count(n) as int
            } else {
                us.len() as int
            })
            &&& forall|u: CpuUsageView| #[trigger]
                rs.to_multiset().count(u) <= us.to_multiset().count(u)
            &&& rs.len() > 0 ==> forall|u: CpuUsageView| #[trigger]
                us.to_multiset().count(u) > rs.to_multiset().count(u) ==> u.usage_delta_usec
                    <= rs[rs.len() - 1].usage_delta_usec
        }),
{
    let us = usages(ts, before, after);
    let sorted = sort_by(us, usage_order());
    let rs = top_cpu_results(ts, before, after, n);
    lemma_sort_permutes(us, usage_order());
    assert(strict_by(usage_order()));
    let k: int = if result_count(n) <= sorted.len() {
        result_count(n) as int
    } else {
        sorted.len() as int
    };
    lemma_sorted_prefix(us, usage_order(), k);
    assert(rs =~= sorted.take(k));
    if rs.len() > 0 {
        assert forall|u: CpuUsageView| #[trigger]
            us.to_multiset().count(u) > rs.to_multiset().count(u) implies u.usage_delta_usec
            <= rs[rs.len() - 1].usage_delta_usec by {
            assert(!usage_order()(sorted[k - 1], u));
        }
    }
}

/// `e` is the usage of target `t` between its samples `a` and `b`, stated
/// on the counters: each time delta is the growth of its counter (0 where
/// the counter went backwards), a reset is reported exactly when one of
/// the three time counters went backwards, and the throttling deltas are
/// the growth of the throttling counters, or 0 after a reset.
pub open spec fn counts_from(e: CpuUsageView, t: TargetView, a: CpuStat, b: CpuStat) -> bool {
    &&& e.path == t.path
    &&& e.kind == t.kind
    &&& e.usage_delta_usec == (if b.usage_usec >= a.usage_usec {
        b.usage_usec - a.usage_usec
    } else {
        0
    })
    &&& e.user_delta_usec == (if b.user_usec >= a.user_usec {
        b.user_usec - a.user_usec
    } else {
        0
    })
    &&& e.system_delta_usec == (if b.system_usec >= a.system_usec {
        b.system_usec - a.system_usec
    } else {
        0
    })
    &&& (e.reset_detected <==> (b.usage_usec < a.usage_usec || b.user_usec < a.user_usec
        || b.system_usec < a.system_usec))
    &&& !e.reset_detected ==> e.throttled_periods_delta == (if b.nr_throttled >= a.nr_throttled {
        b.nr_throttled - a.nr_throttled
    } else {
        0
    }) && e.throttled_usec_delta == (if b.throttled_usec >= a.throttled_usec {
        b.throttled_usec - a.throttled_usec
    } else {
        0
    })
    &&& e.reset_detected ==> e.throttled_periods_delta == 0 && e.throttled_usec_delta == 0
}

/// Some target `i` has both samples and `e` is its usage between them.
pub open spec fn usage_of_some_target(
    e: CpuUsageView,
    ts: Seq<TargetView>,
    before: Seq<Option<CpuStat>>,
    after: Seq<Option<CpuStat>>,
) -> bool {
    exists|i: int|
        0 <= i < ts.len() && before[i] is Some && after[i] is Some && counts_from(
            e,
            #[trigger] ts[i],
            before[i]->Some_0,
            after[i]->Some_0,
        )
}

proof fn lemma_usages_counts(ts: Seq<TargetView>, before: Seq<Option<CpuStat>>, after: Seq<Option<CpuStat>>)
    requires
        before.len() == ts.len(),
        after.len() == ts.len(),
    ensures
        forall|k: int|
            0 <= k < usages(ts, before, after).len() ==> usage_of_some_target(
                #[trigger] usages(ts, before, after)[k],
                ts,
                before,
                after,
            ),
    decreases ts.len(),
{
    if ts.len() > 0 {
        let (t2, b2, a2) = (ts.drop_last(), before.drop_last(), after.drop_last());
        let r = usages(t2, b2, a2);
        lemma_usages_counts(t2, b2, a2);
        assert forall|k: int| 0 <= k < r.len() implies usage_of_some_target(r[k], ts, before, after) by {
            let i = choose|i: int|
                0 <= i < t2.len() && b2[i] is Some && a2[i] is Some && counts_from(
                    r[k],
                    #[trigger] t2[i],
                    b2[i]->Some_0,
                    a2[i]->Some_0,
                );
            assert(t2[i] == ts[i] && b2[i] == before[i] && a2[i] == after[i]);
        }
        let last = ts.len() - 1;
        if before.last() is Some && after.last() is Some {
            let u = usage_of(ts.last(), before.last()->Some_0, after.last()->Some_0);
            assert(counts_from(u, ts[last], before[last]->Some_0, after[last]->Some_0));
            assert(usages(ts, before, after) == r.push(u));
            assert forall|k: int| 0 <= k < r.len() + 1 implies usage_of_some_target(
                #[trigger] r.push(u)[k],
                ts,
                before,
                after,
            ) by {
                if k < r.len() {
                    assert(r.push(u)[k] == r[k]);
                }
            }
        }
    }
}

/// Every ranked cgroup is a target with both samples, and its counts are
/// the growth of its counters between them, as `counts_from` states them.
pub proof fn lemma_top_cpu_counts(
    ts: Seq<TargetView>,
    before: Seq<Option<CpuStat>>,
    after: Seq<Option<CpuStat>>,
    n: Option<usize>,
)
    requires
        before.len() == ts.len(),
        after.len() == ts.len(),
    ensures
        forall|k: int|
            0 <= k < top_cpu_results(ts, before, after, n).len() ==> usage_of_some_target(
                #[trigger] top_cpu_results(ts, before, after, n)[k],
                ts,
                before,
                after,
            ),
{
    broadcast use vstd::seq_lib::group_to_multiset_ensures;

    let us = usages(ts, before, after);
    lemma_usages_counts(ts, before, after);
    let sorted = sort_by(us, usage_order());
    lemma_sort_permutes(us, usage_order());
    let rs = top_cpu_results(ts, before, after, n);
    assert forall|k: int| 0 <= k < rs.len() implies usage_of_some_target(#[trigger] rs[k], ts, before, after) by {
        assert(rs[k] == sorted[k]);
        assert(sorted.contains(sorted[k]));
        assert(sorted.to_multiset().count(sorted[k]) > 0);
        assert(us.contains(sorted[k]));
        let j = choose|j: int| 0 <= j < us.len() && us[j] == sorted[k];
        assert(usage_of_some_target(us[j], ts, before, after));
    }
}

/// How many targets have both samples.
pub open spec fn both_count(before: Seq<Option<CpuStat>>, after: Seq<Option<CpuStat>>) -> nat
    decreases before.len(),
{
    if before.len() == 0 || after.len() == 0 {
        0
    } else {
        both_count(before.drop_last(), after.drop_last()) + if before.last() is Some
            && after.last() is Some {
            1nat
        } else {
            0nat
        }
    }
}

proof fn lemma_usages_complete(ts: Seq<TargetView>, before: Seq<Option<CpuStat>>, after: Seq<Option<CpuStat>>)
    requires
        before.len() == ts.len(),
        after.len() == ts.len(),
    ensures
        usages(ts, before, after).len() == both_count(before, after),
        forall|i: int|
            0 <= i < ts.len() && before[i] is Some && after[i] is Some ==> exists|k: int|
                0 <= k < usages(ts, before, after).len() && counts_from(
                    #[trigger] usages(ts, before, after)[k],
                    ts[i],
                    before[i]->Some_0,
                    after[i]->Some_0,
                ),
    decreases ts.len(),
{
    if ts.len() > 0 {
        let (t2, b2, a2) = (ts.drop_last(), before.drop_last(), after.drop_last());
        let r = usages(t2, b2, a2);
        let rr = usages(ts, before, after);
        lemma_usages_complete(t2, b2, a2);
        let last = ts.len() - 1;
        if before.last() is Some && after.last() is Some {
            assert(rr == r.push(usage_of(ts.last(), before.last()->Some_0, after.last()->Some_0)));
        } else {
            assert(rr == r);
        }
        assert forall|k: int| 0 <= k < r.len() implies #[trigger] rr[k] == r[k] by {}
        assert forall|i: int|
            0 <= i < ts.len() && before[i] is Some && after[i] is Some implies exists|k: int|
                0 <= k < rr.len() && counts_from(
                    #[trigger] rr[k],
                    ts[i],
                    before[i]->Some_0,
                    after[i]->Some_0,
                ) by {
            if i < last {
                assert(t2[i] == ts[i] && b2[i] == before[i] && a2[i] == after[i]);
                let k = choose|k: int|
                    0 <= k < r.len() && counts_from(#[trigger] r[k], t2[i], b2[i]->Some_0, a2[i]->Some_0);
                assert(rr[k] == r[k]);
            } else {
                assert(counts_from(rr[r.len() as int], ts[i], before[i]->Some_0, after[i]->Some_0));
            }
        }
    }
}

/// The ranking keeps `min(max(n, 1), m)` of the `m` targets with both
/// samples, and every such target is either ranked with its counts as
/// `counts_from` states them, or used no more CPU time than the last one
/// ranked.
pub proof fn lemma_top_cpu_complete(
    ts: Seq<TargetView>,
    before: Seq<Option<CpuStat>>,
    after: Seq<Option<CpuStat>>,
    n: Option<usize>,
)
    requires
        before.len() == ts.len(),
        after.len() == ts.len(),
    ensures
        ({
            let rs = top_cpu_results(ts, before, after, n);
            let m = both_count(before, after);
            &&& rs.len() == (if result_count(n) <= m {
                result_count(n) as int
            } else {
                m as int
            })
            &&& forall|i: int|
                0 <= i < ts.len() && #[trigger] before[i] is Some && after[i] is Some ==> (exists|k: int|
                    0 <= k < rs.len() && counts_from(
                        #[trigger] rs[k],
                        ts[i],
                        before[i]->Some_0,
                        after[i]->Some_0,
                    )) || (rs.len() > 0 && (if after[i]->Some_0.usage_usec
                    >= before[i]->Some_0.usage_usec {
                    after[i]->Some_0.usage_usec - before[i]->Some_0.usage_usec
                } else {
                    0
                }) <= rs[rs.len() - 1].usage_delta_usec)
        }),
{
    broadcast use vstd::seq_lib::group_to_multiset_ensures;

    let us = usages(ts, before, after);
    let rs = top_cpu_results(ts, before, after, n);
    lemma_usages_complete(ts, before, after);
    lemma_top_cpu_cut(ts, before, after, n);
    assert forall|i: int|
        0 <= i < ts.len() && #[trigger] before[i] is Some && after[i] is Some implies (exists|k: int|
            0 <= k < rs.len() && counts_from(#[trigger] rs[k], ts[i], before[i]->Some_0, after[i]->Some_0))
            || (rs.len() > 0 && (if after[i]->Some_0.usage_usec >= before[i]->Some_0.usage_usec {
            after[i]->Some_0.usage_usec - before[i]->Some_0.usage_usec
        } else {
            0
        }) <= rs[rs.len() - 1].usage_delta_usec) by {
        let k = choose|k: int|
            0 <= k < us.len() && counts_from(#[trigger] us[k], ts[i], before[i]->Some_0, after[i]->Some_0);
        let u = us[k];
        assert(us.contains(u));
        if rs.to_multiset().count(u) > 0 {
            assert(rs.contains(u));
            let k2 = choose|k2: int| 0 <= k2 < rs.len() && rs[k2] == u;
            assert(counts_from(rs[k2], ts[i], before[i]->Some_0, after[i]->Some_0));
        } else {
            assert(us.to_multiset().count(u) > 0);
            assert(us.to_multiset().count(u) > rs.to_multiset().count(u));
            if rs.len() == 0 {
                assert(us.len() > 0);
                assert(result_count(n) >= 1);
            }
        }
    }
}

} // verus!
