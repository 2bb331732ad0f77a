//! Counter deltas between two snapshots of `cpu.stat` or `io.stat`, the
//! integer part of a rate. A counter that went backwards (a cgroup that was
//! recreated between the snapshots) is reported instead of being subtracted.
//! Turning a delta into a rate per second is the caller's division.

use crate::collector::stats::{CpuStat, IoDeviceStat};
use crate::sort::{
    in_order_by, lemma_sort_in_order, lemma_sort_permutes, order_of, sort_seq, sort_vec,
    strict_by, SortOrder,
};
use crate::text::{push_str, string_from_chars};
use vstd::prelude::*;

verus! {

/// Why no rate can be computed.
#[derive(Clone, Copy, Debug, PartialEq, Eq, Structural)]
pub enum RateError {
    /// The two CPU snapshots were taken at the same time.
    CpuZeroDuration,
    /// The two IO snapshots were taken at the same time.
    IoZeroDuration,
}

pub open spec fn rate_error_text(e: RateError) -> Seq<char> {
    match e {
        RateError::CpuZeroDuration => "cannot compute CPU rate over zero duration"@,
        RateError::IoZeroDuration => "cannot compute IO rate over zero duration"@,
    }
}

impl RateError {
    /// The text that tells this error.
    pub fn message(&self) -> (r: String)
        ensures
            r@ == rate_error_text(*self),
    {
        let mut out: Vec<char> = Vec::new();
        match self {
            RateError::CpuZeroDuration => push_str(
                &mut out,
                "cannot compute CPU rate over zero duration",
            ),
            RateError::IoZeroDuration => push_str(
                &mut out,
                "cannot compute IO rate over zero duration",
            ),
        }
        string_from_chars(&out)
    }
}

/// `b - a` for a counter that only grows, and `(0, true)` when it went
/// backwards.
pub fn monotonic_delta(a: u64, b: u64) -> (r: (u64, bool))
    ensures
        r == (if b >= a {
            ((b - a) as u64, false)
        } else {
            (0u64, true)
        }),
{
    if b >= a {
        (b - a, false)
    } else {
        (0, true)
    }
}

pub open spec fn delta(a: u64, b: u64) -> u64 {
    if b >= a {
        (b - a) as u64
    } else {
        0
    }
}

/// How the CPU counters moved between two snapshots.
#[derive(Clone, Copy, Debug, PartialEq, Eq, Structural)]
pub struct CpuDelta {
    pub usage_delta_usec: u64,
    pub user_delta_usec: u64,
    pub system_delta_usec: u64,
    /// Any of the three counters went backwards; a rate computed from this
    /// delta is then 0.
    pub reset_detected: bool,
}

pub open spec fn cpu_delta_of(a: CpuStat, b: CpuStat) -> CpuDelta {
    CpuDelta {
        usage_delta_usec: delta(a.usage_usec, b.usage_usec),
        user_delta_usec: delta(a.user_usec, b.user_usec),
        system_delta_usec: delta(a.system_usec, b.system_usec),
        reset_detected: b.usage_usec < a.usage_usec || b.user_usec < a.user_usec || b.system_usec
            < a.system_usec,
    }
}

/// The CPU counter deltas from `a` to `b`.
pub fn cpu_delta(a: &CpuStat, b: &CpuStat) -> (r: CpuDelta)
    ensures
        r == cpu_delta_of(*a, *b),
{
    let (usage, r1) = monotonic_delta(a.usage_usec, b.usage_usec);
    let (user, r2) = monotonic_delta(a.user_usec, b.user_usec);
    let (system, r3) = monotonic_delta(a.system_usec, b.system_usec);
    CpuDelta {
        usage_delta_usec: usage,
        user_delta_usec: user,
        system_delta_usec: system,
        reset_detected: r1 || r2 || r3,
    }
}

/// The CPU counter deltas from `a` to `b`, taken `dt_nanos` nanoseconds
/// apart; an error when no time passed.
pub fn cpu_deltas(a: &CpuStat, b: &CpuStat, dt_nanos: u128) -> (r: Result<CpuDelta, RateError>)
    ensures
        dt_nanos == 0 ==> r == Err::<CpuDelta, RateError>(RateError::CpuZeroDuration),
        dt_nanos != 0 ==> r == Ok::<CpuDelta, RateError>(cpu_delta_of(*a, *b)),
{
    if dt_nanos == 0 {
        return Err(RateError::CpuZeroDuration);
    }
    Ok(cpu_delta(a, b))
}

/// Two snapshots that agree show no movement: every delta is 0 and no
/// reset is reported.
pub proof fn lemma_cpu_delta_of_same_snapshot(a: CpuStat)
    ensures
        cpu_delta_of(a, a) == (CpuDelta {
            usage_delta_usec: 0,
            user_delta_usec: 0,
            system_delta_usec: 0,
            reset_detected: false,
        }),
{
}

/// A reset is reported exactly when one of the three counters went
/// backwards, and then each delta of a counter that went backwards is 0.
pub proof fn lemma_cpu_delta_reset(a: CpuStat, b: CpuStat)
    ensures
        cpu_delta_of(a, b).reset_detected <==> (b.usage_usec < a.usage_usec || b.user_usec
            < a.user_usec || b.system_usec < a.system_usec),
        !cpu_delta_of(a, b).reset_detected ==> cpu_delta_of(a, b).usage_delta_usec == b.usage_usec
            - a.usage_usec && cpu_delta_of(a, b).user_delta_usec == b.user_usec - a.user_usec
            && cpu_delta_of(a, b).system_delta_usec == b.system_usec - a.system_usec,
{
}

/// How the counters of one device moved between two snapshots.
#[derive(Clone, Copy, Debug, PartialEq, Eq, Structural)]
pub struct IoDelta {
    pub major: u32,
    pub minor: u32,
    pub rbytes_delta: u64,
    pub wbytes_delta: u64,
    pub rios_delta: u64,
    pub wios_delta: u64,
    pub dbytes_delta: u64,
    pub dios_delta: u64,
    /// Any counter of this device went backwards; its rates are then 0.
    pub reset_detected: bool,
}

/// Devices sort by `(major, minor)`.
impl SortOrder for IoDelta {
    open spec fn goes_after(&self, other: &Self) -> bool {
        self.major > other.major || (self.major == other.major && self.minor > other.minor)
    }

    fn is_after(&self, other: &Self) -> (r: bool) {
        self.major > other.major || (self.major == other.major && self.minor > other.minor)
    }
}

/// The entry of device `major:minor` in `a`; the last one if it is listed
/// twice.
pub open spec fn prev_for(a: Seq<IoDeviceStat>, major: u32, minor: u32) -> Option<IoDeviceStat>
    decreases a.len(),
{
    if a.len() == 0 {
        None
    } else if a.last().major == major && a.last().minor == minor {
        Some(a.last())
    } else {
        prev_for(a.drop_last(), major, minor)
    }
}

pub open spec fn io_delta_of(p: IoDeviceStat, c: IoDeviceStat) -> IoDelta {
    IoDelta {
        major: c.major,
        minor: c.minor,
        rbytes_delta: delta(p.rbytes, c.rbytes),
        wbytes_delta: delta(p.wbytes, c.wbytes),
        rios_delta: delta(p.rios, c.rios),
        wios_delta: delta(p.wios, c.wios),
        dbytes_delta: delta(p.dbytes, c.dbytes),
        dios_delta: delta(p.dios, c.dios),
        reset_detected: c.rbytes < p.rbytes || c.wbytes < p.wbytes || c.rios < p.rios || c.wios
            < p.wios || c.dbytes < p.dbytes || c.dios < p.dios,
    }
}

/// One delta for each device of `b` that `a` lists too, in the order of `b`.
pub open spec fn io_deltas_in_order_of_b(a: Seq<IoDeviceStat>, b: Seq<IoDeviceStat>) -> Seq<
    IoDelta,
>
    decreases b.len(),
{
    if b.len() == 0 {
        Seq::empty()
    } else {
        let r = io_deltas_in_order_of_b(a, b.drop_last());
        match prev_for(a, b.last().major, b.last().minor) {
            None => r,
            Some(p) => r.push(io_delta_of(p, b.last())),
        }
    }
}

/// The deltas of the devices that both snapshots list, sorted stably by
/// `(major, minor)`.
pub open spec fn io_deltas_of(a: Seq<IoDeviceStat>, b: Seq<IoDeviceStat>) -> Seq<IoDelta> {
    sort_seq(io_deltas_in_order_of_b(a, b))
}

fn find_prev(a: &Vec<IoDeviceStat>, major: u32, minor: u32) -> (r: Option<IoDeviceStat>)
    ensures
        r == prev_for(a@, major, minor),
{
    let mut i = a.len();
    assert(a@.take(i as int) == a@);
    while i > 0
        invariant
            i <= a.len(),
            prev_for(a@, major, minor) == prev_for(a@.take(i as int), major, minor),
        decreases i,
    {
        assert(a@.take(i as int).drop_last() == a@.take(i - 1));
        assert(a@.take(i as int).last() == a@[i - 1]);
        if a[i - 1].major == major && a[i - 1].minor == minor {
            return Some(a[i - 1]);
        }
        i -= 1;
    }
    None
}

/// The IO counter deltas from `a` to `b`, taken `dt_nanos` nanoseconds
/// apart: devices that only one snapshot lists are left out, and the rest
/// come sorted by `(major, minor)`. An error when no time passed.
pub fn io_deltas(a: &Vec<IoDeviceStat>, b: &Vec<IoDeviceStat>, dt_nanos: u128) -> (r: Result<
    Vec<IoDelta>,
    RateError,
>)
    ensures
        dt_nanos == 0 ==> r == Err::<Vec<IoDelta>, RateError>(RateError::IoZeroDuration),
        dt_nanos != 0 ==> (r matches Ok(v) && v@ == io_deltas_of(a@, b@)),
{
    if dt_nanos == 0 {
        return Err(RateError::IoZeroDuration);
    }
    Ok(io_device_deltas(a, b))
}

/// The IO counter deltas from `a` to `b`: devices that only one snapshot
/// lists are left out, and the rest come sorted by `(major, minor)`.
pub fn io_device_deltas(a: &Vec<IoDeviceStat>, b: &Vec<IoDeviceStat>) -> (r: Vec<IoDelta>)
    ensures
        r@ == io_deltas_of(a@, b@),
{
    let mut out: Vec<IoDelta> = Vec::new();
    assert(a@.take(0) =~= Seq::<IoDeviceStat>::empty());
    for i in 0..b.len()
        invariant
            out@ == io_deltas_in_order_of_b(a@, b@.take(i as int)),
    {
        assert(b@.take(i + 1).drop_last() == b@.take(i as int));
        assert(b@.take(i + 1).last() == b@[i as int]);
        let cur = b[i];
        match find_prev(a, cur.major, cur.minor) {
            None => {},
            Some(p) => {
                let (rbytes, r1) = monotonic_delta(p.rbytes, cur.rbytes);
                let (wbytes, r2) = monotonic_delta(p.wbytes, cur.wbytes);
                let (rios, r3) = monotonic_delta(p.rios, cur.rios);
                let (wios, r4) = monotonic_delta(p.wios, cur.wios);
                let (dbytes, r5) = monotonic_delta(p.dbytes, cur.dbytes);
                let (dios, r6) = monotonic_delta(p.dios, cur.dios);
                out.push(
                    IoDelta {
                        major: cur.major,
                        minor: cur.minor,
                        rbytes_delta: rbytes,
                        wbytes_delta: wbytes,
                        rios_delta: rios,
                        wios_delta: wios,
                        dbytes_delta: dbytes,
                        dios_delta: dios,
                        reset_detected: r1 || r2 || r3 || r4 || r5 || r6,
                    },
                );
            },
        }
    }
    assert(b@.take(b.len() as int) == b@);
    sort_vec(out)
}

/// The deltas come sorted by device, and hold one entry per device of `b`
/// that `a` lists as well.
pub proof fn lemma_io_deltas_sorted(a: Seq<IoDeviceStat>, b: Seq<IoDeviceStat>)
    ensures
        in_order_by(io_deltas_of(a, b), order_of::<IoDelta>()),
        io_deltas_of(a, b).to_multiset() == io_deltas_in_order_of_b(a, b).to_multiset(),
{
    assert(strict_by(order_of::<IoDelta>()));
    lemma_sort_in_order(io_deltas_in_order_of_b(a, b), order_of::<IoDelta>());
    lemma_sort_permutes(io_deltas_in_order_of_b(a, b), order_of::<IoDelta>());
}

/// `d` is the delta of one device between its entry `p` in the first
/// snapshot and its entry `c` in the second, stated on the counters: each
/// delta is the growth of its counter (0 where it went backwards), and a
/// reset is reported exactly when some counter went backwards.
pub open spec fn delta_between(d: IoDelta, p: IoDeviceStat, c: IoDeviceStat) -> bool {
    &&& d.major == c.major && d.minor == c.minor
    &&& p.major == c.major && p.minor == c.minor
    &&& d.rbytes_delta == (if c.rbytes >= p.rbytes { c.rbytes - p.rbytes } else { 0 })
    &&& d.wbytes_delta == (if c.wbytes >= p.wbytes { c.wbytes - p.wbytes } else { 0 })
    &&& d.rios_delta == (if c.rios >= p.rios { c.rios - p.rios } else { 0 })
    &&& d.wios_delta == (if c.wios >= p.wios { c.wios - p.wios } else { 0 })
    &&& d.dbytes_delta == (if c.dbytes >= p.dbytes { c.dbytes - p.dbytes } else { 0 })
    &&& d.dios_delta == (if c.dios >= p.dios { c.dios - p.dios } else { 0 })
    &&& (d.reset_detected <==> (c.rbytes < p.rbytes || c.wbytes < p.wbytes || c.rios < p.rios
        || c.wios < p.wios || c.dbytes < p.dbytes || c.dios < p.dios))
}

/// `i` is the last place of device `major:minor` in `a`.
pub open spec fn last_listing(a: Seq<IoDeviceStat>, i: int, major: u32, minor: u32) -> bool {
    &&& 0 <= i < a.len()
    &&& a[i].major == major && a[i].minor == minor
    &&& forall|k: int| i < k < a.len() ==> !((#[trigger] a[k]).major == major && a[k].minor == minor)
}

/// `d` is the delta of a device of `b`, taken from the last entry of that
/// device in `a`.
pub open spec fn delta_of_listed_device(d: IoDelta, a: Seq<IoDeviceStat>, b: Seq<IoDeviceStat>) -> bool {
    exists|i: int, j: int|
        0 <= j < b.len() && last_listing(a, i, (#[trigger] b[j]).major, b[j].minor)
            && delta_between(d, #[trigger] a[i], b[j])
}

proof fn lemma_prev_for_last(a: Seq<IoDeviceStat>, major: u32, minor: u32)
    ensures
        prev_for(a, major, minor) matches Some(p) ==> exists|i: int|
            last_listing(a, i, major, minor) && #[trigger] a[i] == p,
    decreases a.len(),
{
    if a.len() > 0 {
        let pre = a.drop_last();
        lemma_prev_for_last(pre, major, minor);
        if a.last().major == major && a.last().minor == minor {
            assert(last_listing(a, a.len() - 1, major, minor));
        } else if prev_for(pre, major, minor) is Some {
            let i = choose|i: int| last_listing(pre, i, major, minor) && #[trigger] pre[i]
                == prev_for(pre, major, minor)->Some_0;
            assert(a[i] == pre[i]);
            assert forall|k: int| i < k < a.len() implies !((#[trigger] a[k]).major == major
                && a[k].minor == minor) by {
                if k < a.len() - 1 {
                    assert(a[k] == pre[k]);
                }
            }
            assert(last_listing(a, i, major, minor));
        }
    }
}

proof fn lemma_in_order_of_b_listed(a: Seq<IoDeviceStat>, b: Seq<IoDeviceStat>)
    ensures
        forall|k: int|
            0 <= k < io_deltas_in_order_of_b(a, b).len() ==> delta_of_listed_device(
                #[trigger] io_deltas_in_order_of_b(a, b)[k],
                a,
                b,
            ),
    decreases b.len(),
{
    if b.len() > 0 {
        let b2 = b.drop_last();
        let r = io_deltas_in_order_of_b(a, b2);
        lemma_in_order_of_b_listed(a, b2);
        assert forall|k: int| 0 <= k < r.len() implies delta_of_listed_device(r[k], a, b) by {
            let (i, j) = choose|i: int, j: int|
                0 <= j < b2.len() && last_listing(a, i, (#[trigger] b2[j]).major, b2[j].minor)
                    && delta_between(r[k], #[trigger] a[i], b2[j]);
            assert(b[j] == b2[j]);
        }
        let c = b.last();
        lemma_prev_for_last(a, c.major, c.minor);
        if let Some(p) = prev_for(a, c.major, c.minor) {
            let i = choose|i: int| last_listing(a, i, c.major, c.minor) && #[trigger] a[i] == p;
            let d = io_delta_of(p, c);
            assert(delta_between(d, a[i], b[b.len() - 1]));
            assert(io_deltas_in_order_of_b(a, b) == r.push(d));
            assert forall|k: int| 0 <= k < r.len() + 1 implies delta_of_listed_device(
                #[trigger] r.push(d)[k],
                a,
                b,
            ) by {
                if k < r.len() {
                    assert(r.push(d)[k] == r[k]);
                }
            }
        }
    }
}

/// Every device delta is the growth of that device's counters from its
/// last entry in the first snapshot to its entry in the second (0 for a
/// counter that went backwards), and reports a reset exactly when some
/// counter went backwards.
pub proof fn lemma_io_deltas_counts(a: Seq<IoDeviceStat>, b: Seq<IoDeviceStat>)
    ensures
        forall|k: int|
            0 <= k < io_deltas_of(a, b).len() ==> delta_of_listed_device(
                #[trigger] io_deltas_of(a, b)[k],
                a,
                b,
            ),
{
    broadcast use vstd::seq_lib::group_to_multiset_ensures;

    let us = io_deltas_in_order_of_b(a, b);
    lemma_in_order_of_b_listed(a, b);
    let sorted = io_deltas_of(a, b);
    lemma_sort_permutes(us, order_of::<IoDelta>());
    assert forall|k: int| 0 <= k < sorted.len() implies delta_of_listed_device(#[trigger] sorted[k], a, b) by {
        assert(sorted.contains(sorted[k]));
        assert(sorted.to_multiset().count(sorted[k]) > 0);
        assert(us.contains(sorted[k]));
        let j = choose|j: int| 0 <= j < us.len() && us[j] == sorted[k];
        assert(delta_of_listed_device(us[j], a, b));
    }
}

/// Device `c` is listed in `a`.
pub open spec fn listed_in(a: Seq<IoDeviceStat>, c: IoDeviceStat) -> bool {
    exists|i: int| 0 <= i < a.len() && (#[trigger] a[i]).major == c.major && a[i].minor == c.minor
}

/// How many entries of `b` are of a device that `a` lists.
pub open spec fn listed_count(a: Seq<IoDeviceStat>, b: Seq<IoDeviceStat>) -> nat
    decreases b.len(),
{
    if b.len() == 0 {
        0
    } else {
        listed_count(a, b.drop_last()) + if listed_in(a, b.last()) {
            1nat
        } else {
            0nat
        }
    }
}

proof fn lemma_prev_for_listed(a: Seq<IoDeviceStat>, c: IoDeviceStat)
    ensures
        prev_for(a, c.major, c.minor) is Some <==> listed_in(a, c),
    decreases a.len(),
{
    if a.len() > 0 {
        let pre = a.drop_last();
        lemma_prev_for_listed(pre, c);
        if listed_in(a, c) && !(a.last().major == c.major && a.last().minor == c.minor) {
            let i = choose|i: int| 0 <= i < a.len() && (#[trigger] a[i]).major == c.major && a[i].minor == c.minor;
            assert(pre[i] == a[i]);
        }
        if listed_in(pre, c) {
            let i = choose|i: int| 0 <= i < pre.len() && (#[trigger] pre[i]).major == c.major && pre[i].minor == c.minor;
            assert(pre[i] == a[i]);
        }
        if a.last().major == c.major && a.last().minor == c.minor {
            assert(a[a.len() - 1] == a.last());
        }
    }
}

proof fn lemma_last_listing_unique(a: Seq<IoDeviceStat>, i: int, i2: int, major: u32, minor: u32)
    requires
        last_listing(a, i, major, minor),
        last_listing(a, i2, major, minor),
    ensures
        i == i2,
{
    if i < i2 {
        assert(!(a[i2].major == major && a[i2].minor == minor));
    } else if i2 < i {
        assert(!(a[i].major == major && a[i].minor == minor));
    }
}

proof fn lemma_in_order_of_b_complete(a: Seq<IoDeviceStat>, b: Seq<IoDeviceStat>)
    ensures
        io_deltas_in_order_of_b(a, b).len() == listed_count(a, b),
        forall|i: int, j: int|
            0 <= j < b.len() && #[trigger] last_listing(a, i, b[j].major, b[j].minor) ==> exists|k: int|
                0 <= k < io_deltas_in_order_of_b(a, b).len() && delta_between(
                    #[trigger] io_deltas_in_order_of_b(a, b)[k],
                    a[i],
                    b[j],
                ),
    decreases b.len(),
{
    if b.len() > 0 {
        let b2 = b.drop_last();
        let r = io_deltas_in_order_of_b(a, b2);
        let rr = io_deltas_in_order_of_b(a, b);
        lemma_in_order_of_b_complete(a, b2);
        let c = b.last();
        lemma_prev_for_listed(a, c);
        lemma_prev_for_last(a, c.major, c.minor);
        assert forall|k: int| 0 <= k < r.len() implies #[trigger] rr[k] == r[k] by {
            if prev_for(a, c.major, c.minor) is Some {
                assert(rr == r.push(io_delta_of(prev_for(a, c.major, c.minor)->Some_0, c)));
            }
        }
        assert forall|i: int, j: int|
            0 <= j < b.len() && #[trigger] last_listing(a, i, b[j].major, b[j].minor) implies exists|k: int|
                0 <= k < rr.len() && delta_between(#[trigger] rr[k], a[i], b[j]) by {
            if j < b.len() - 1 {
                assert(b2[j] == b[j]);
                let k = choose|k: int| 0 <= k < r.len() && delta_between(#[trigger] r[k], a[i], b2[j]);
                assert(rr[k] == r[k]);
            } else {
                assert(listed_in(a, c)) by {
                    assert(a[i].major == c.major && a[i].minor == c.minor);
                }
                let p = prev_for(a, c.major, c.minor)->Some_0;
                let i2 = choose|i2: int| last_listing(a, i2, c.major, c.minor) && #[trigger] a[i2] == p;
                lemma_last_listing_unique(a, i, i2, c.major, c.minor);
                assert(rr == r.push(io_delta_of(p, c)));
                assert(delta_between(rr[r.len() as int], a[i], b[j]));
            }
        }
    }
}

/// Every entry of the second snapshot whose device the first lists gets a
/// delta from that device's last entry there, and there are no other
/// deltas: their number is the number of such entries.
pub proof fn lemma_io_deltas_complete(a: Seq<IoDeviceStat>, b: Seq<IoDeviceStat>)
    ensures
        io_deltas_of(a, b).len() == listed_count(a, b),
        forall|i: int, j: int|
            0 <= j < b.len() && #[trigger] last_listing(a, i, b[j].major, b[j].minor) ==> exists|k: int|
                0 <= k < io_deltas_of(a, b).len() && delta_between(
                    #[trigger] io_deltas_of(a, b)[k],
                    a[i],
                    b[j],
                ),
{
    broadcast use vstd::seq_lib::group_to_multiset_ensures;

    let us = io_deltas_in_order_of_b(a, b);
    let sorted = io_deltas_of(a, b);
    lemma_in_order_of_b_complete(a, b);
    lemma_sort_permutes(us, order_of::<IoDelta>());
    assert forall|i: int, j: int|
        0 <= j < b.len() && #[trigger] last_listing(a, i, b[j].major, b[j].minor) implies exists|k: int|
            0 <= k < sorted.len() && delta_between(#[trigger] sorted[k], a[i], b[j]) by {
        let k = choose|k: int| 0 <= k < us.len() && delta_between(#[trigger] us[k], a[i], b[j]);
        assert(us.contains(us[k]));
        assert(us.to_multiset().count(us[k]) > 0);
        assert(sorted.contains(us[k]));
        let k2 = choose|k2: int| 0 <= k2 < sorted.len() && sorted[k2] == us[k];
        assert(delta_between(sorted[k2], a[i], b[j]));
    }
}

} // verus!
