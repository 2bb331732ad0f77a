//! `top_io`: the cgroups that moved the most data to and from block
//! devices over a sampling window. The caller reads `io.stat` of every
//! target twice, the window apart; this module picks the targets, reads
//! the samples and gathers each target's per-device deltas. The rates, and
//! the ranking by them, are the caller's floating-point work.

use crate::collector::rate::{io_device_deltas, io_deltas_of, IoDelta};
use crate::collector::stats::{io_stat_text, parse_io_stat, IoDeviceStat};
use crate::collector::tree::{
    clone_kind, CgroupKind, CgroupKindView, CgroupNode, CgroupNodeView,
};
use crate::mcp::util::{
    collect_targets, preorder, targets_of, targets_view, Target, TargetView,
};
use crate::collector::error::{FileRead, FileReadView};
use vstd::prelude::*;

verus! {

/// What the caller asks for.
#[derive(Clone, Debug)]
pub struct TopIoParams {
    /// The subtree to search, relative to the cgroup root; empty for all.
    pub path: String,
    /// How many results; 10 when unset.
    pub n: Option<usize>,
    /// The sampling window in milliseconds; 500 when unset.
    pub sample_window_ms: Option<u64>,
}

/// How one cgroup's IO counters moved over the window.
#[derive(Clone, Debug)]
pub struct IoUsage {
    /// The path from the cgroup root.
    pub path: String,
    pub kind: CgroupKind,
    /// The deltas of each device that both samples list, by device.
    pub per_device: Vec<IoDelta>,
    /// The counters of some device went backwards.
    pub reset_detected: bool,
}

pub struct IoUsageView {
    pub path: Seq<char>,
    pub kind: CgroupKindView,
    pub per_device: Seq<IoDelta>,
    pub reset_detected: bool,
}

impl View for IoUsage {
    type V = IoUsageView;

    open spec fn view(&self) -> IoUsageView {
        IoUsageView {
            path: self.path@,
            kind: self.kind@,
            per_device: self.per_device@,
            reset_detected: self.reset_detected,
        }
    }
}

pub open spec fn io_usages_view(s: Seq<IoUsage>) -> Seq<IoUsageView> {
    s.map_values(|e: IoUsage| e@)
}

/// The consumers of the subtree `tree`, searched at `subtree`, in walk
/// order.
pub open spec fn io_targets(tree: CgroupNodeView, subtree: Seq<char>) -> Seq<TargetView> {
    targets_of(preorder(tree), subtree, true)
}

/// The cgroups whose `io.stat` the tool samples, in walk order.
pub fn collect_targets_for_io(tree: &CgroupNode, subtree: &str) -> (r: Vec<Target>)
    ensures
        targets_view(r@) == io_targets(tree@, subtree@),
{
    collect_targets(tree, subtree, true)
}

/// A sample of `io.stat`: `None` where the file is missing, could not be
/// read or does not parse, since the tool ranks what it can read.
pub open spec fn io_sample(f: FileReadView) -> Option<Seq<IoDeviceStat>> {
    match f {
        FileReadView::Contents(s) => match io_stat_text(s) {
            Ok(v) => Some(v),
            Err(_) => None,
        },
        _ => None,
    }
}

pub open spec fn sample_view(o: Option<Vec<IoDeviceStat>>) -> Option<Seq<IoDeviceStat>> {
    match o {
        Some(v) => Some(v@),
        None => None,
    }
}

pub fn read_io_stat_or_none(file: &FileRead) -> (r: Option<Vec<IoDeviceStat>>)
    ensures
        sample_view(r) == io_sample(file@),
{
    match file {
        FileRead::Contents(s) => match parse_io_stat(s.as_str()) {
            Ok(v) => Some(v),
            Err(_) => None,
        },
        _ => None,
    }
}

/// The samples of all targets, one per read, in order.
pub fn sample_all(reads: &Vec<FileRead>) -> (r: Vec<Option<Vec<IoDeviceStat>>>)
    ensures
        r@.len() == reads@.len(),
        forall|i: int| 0 <= i < reads@.len() ==> sample_view(r@[i]) == io_sample(#[trigger] reads@[i]@),
{
    let mut out: Vec<Option<Vec<IoDeviceStat>>> = Vec::new();
    for i in 0..reads.len()
        invariant
            out@.len() == i,
            forall|j: int| 0 <= j < i ==> sample_view(out@[j]) == io_sample(#[trigger] reads@[j]@),
    {
        out.push(read_io_stat_or_none(&reads[i]));
    }
    out
}

/// Some device's counters went backwards.
pub open spec fn any_reset(ds: Seq<IoDelta>) -> bool {
    exists|i: int| 0 <= i < ds.len() && (#[trigger] ds[i]).reset_detected
}

/// The entry of target `t` with the device deltas `ds`.
pub open spec fn usage_of(t: TargetView, ds: Seq<IoDelta>) -> IoUsageView {
    IoUsageView { path: t.path, kind: t.kind, per_device: ds, reset_detected: any_reset(ds) }
}

/// Builds the entry of `target` from its device deltas.
pub fn build_entry(target: &Target, rates: Vec<IoDelta>) -> (r: IoUsage)
    ensures
        r@ == usage_of(target@, rates@),
{
    let mut reset = false;
    for i in 0..rates.len()
        invariant
            reset == exists|j: int| 0 <= j < i && (#[trigger] rates@[j]).reset_detected,
    {
        if rates[i].reset_detected {
            reset = true;
        }
    }
    IoUsage {
        path: target.path.clone(),
        kind: clone_kind(&target.kind),
        per_device: rates,
        reset_detected: reset,
    }
}

/// The usage of each target with both samples, in target order; targets
/// missing either sample are left out.
pub open spec fn io_usages(
    ts: Seq<TargetView>,
    before: Seq<Option<Seq<IoDeviceStat>>>,
    after: Seq<Option<Seq<IoDeviceStat>>>,
) -> Seq<IoUsageView>
    decreases ts.len(),
{
    if ts.len() == 0 || before.len() == 0 || after.len() == 0 {
        Seq::empty()
    } else {
        let r = io_usages(ts.drop_last(), before.drop_last(), after.drop_last());
        match (before.last(), after.last()) {
            (Some(a), Some(b)) => r.push(usage_of(ts.last(), io_deltas_of(a, b))),
            _ => r,
        }
    }
}

pub open spec fn samples_view(s: Seq<Option<Vec<IoDeviceStat>>>) -> Seq<Option<Seq<IoDeviceStat>>> {
    s.map_values(|o: Option<Vec<IoDeviceStat>>| sample_view(o))
}

/// The usage of the targets `targets` between the samples `before` and
/// `after` (one of each per target, in order), in target order.
pub fn usages(
    targets: &Vec<Target>,
    before: &Vec<Option<Vec<IoDeviceStat>>>,
    after: &Vec<Option<Vec<IoDeviceStat>>>,
) -> (r: Vec<IoUsage>)
    requires
        before@.len() == targets@.len(),
        after@.len() == targets@.len(),
    ensures
        io_usages_view(r@) == io_usages(
            targets_view(targets@),
            samples_view(before@),
            samples_view(after@),
        ),
{
    let ghost ts = targets_view(targets@);
    let ghost bs = samples_view(before@);
    let ghost as_ = samples_view(after@);
    let mut entries: Vec<IoUsage> = Vec::new();
    assert(io_usages_view(entries@) =~= Seq::<IoUsageView>::empty());
    for i in 0..targets.len()
        invariant
            ts == targets_view(targets@),
            bs == samples_view(before@),
            as_ == samples_view(after@),
            before@.len() == targets@.len(),
            after@.len() == targets@.len(),
            io_usages_view(entries@) == io_usages(
                ts.take(i as int),
                bs.take(i as int),
                as_.take(i as int),
            ),
    {
        assert(ts.take(i + 1).drop_last() == ts.take(i as int));
        assert(bs.take(i + 1).drop_last() == bs.take(i as int));
        assert(as_.take(i + 1).drop_last() == as_.take(i as int));
        assert(ts.take(i + 1).last() == targets@[i as int]@);
        assert(bs.take(i + 1).last() == sample_view(before@[i as int]));
        assert(as_.take(i + 1).last() == sample_view(after@[i as int]));
        match (&before[i], &after[i]) {
            (Some(a), Some(b)) => {
                let rates = io_device_deltas(a, b);
                let e = build_entry(&targets[i], rates);
                let ghost old_entries = entries@;
                entries.push(e);
                assert(io_usages_view(entries@) =~= io_usages_view(old_entries).push(e@));
            },
            _ => {},
        }
    }
    assert(ts.take(ts.len() as int) == ts);
    assert(bs.take(bs.len() as int) == bs);
    assert(as_.take(as_.len() as int) == as_);
    entries
}

} // verus!
