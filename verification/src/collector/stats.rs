//! Parsers for the `cpu.stat`, `memory.current`, `memory.stat`,
//! `memory.events` and `io.stat` files of a cgroup.

use crate::collector::error::{IoLineError, IoLineErrorView, KvFile, ParseError, ParseErrorView};
use crate::text::{
    decimal, is_digit, is_ws, lemma_decimal_digits, lemma_parse_decimal, lemma_pieces_append,
    lemma_pieces_none, lemma_tokens_two_words, lemma_trim_digits, pieces, IntErrorKind,
    chars_equal, chars_less, chars_lt, chars_of, lemma_chars_lt_trichotomy, lines, parse_u32, parse_u32_chars, parse_u64, parse_u64_chars,
    split_lines, split_once, split_once_at, split_tokens, string_from_chars, tokens, trim,
    trimmed, views,
};
use vstd::prelude::*;

verus! {

/// `i` is where the key `k` first occurs among the entries `v`.
pub open spec fn key_at(v: Seq<(String, u64)>, k: Seq<char>, i: int) -> bool {
    &&& 0 <= i < v.len()
    &&& v[i].0@ == k
    &&& forall|j: int| 0 <= j < i ==> v[j].0@ != k
}

/// The map that the entries `v` hold: each key with the value of its first
/// entry.
pub open spec fn entries_map(v: Seq<(String, u64)>) -> Map<Seq<char>, u64> {
    Map::new(
        |k: Seq<char>| exists|i: int| key_at(v, k, i),
        |k: Seq<char>| v[choose|i: int| key_at(v, k, i)].1,
    )
}

/// Each key sorts before the next, in the order of `String`.
pub open spec fn keys_sorted(v: Seq<(String, u64)>) -> bool {
    forall|i: int| 0 <= i < v.len() - 1 ==> chars_lt(#[trigger] v[i].0@, v[i + 1].0@)
}

/// No key occurs twice.
pub open spec fn keys_unique(v: Seq<(String, u64)>) -> bool {
    forall|i: int, j: int| 0 <= i < j < v.len() ==> v[i].0@ != v[j].0@
}

/// The value that `m` holds for `k`, or 0 where it holds none: what the
/// stat parsers report for a counter the file does not list.
pub open spec fn value_or_zero(m: Map<Seq<char>, u64>, k: Seq<char>) -> u64 {
    if m.contains_key(k) {
        m[k]
    } else {
        0
    }
}

pub proof fn lemma_key_at_unique(v: Seq<(String, u64)>, k: Seq<char>, i: int, j: int)
    requires
        key_at(v, k, i),
        key_at(v, k, j),
    ensures
        i == j,
{
    if i < j {
        assert(v[i].0@ != k);
    } else if j < i {
        assert(v[j].0@ != k);
    }
}

/// In entries without repeated keys, each entry gives its key's value.
pub proof fn lemma_entries_map_at(v: Seq<(String, u64)>, i: int)
    requires
        keys_unique(v),
        0 <= i < v.len(),
    ensures
        entries_map(v).contains_key(v[i].0@),
        entries_map(v)[v[i].0@] == v[i].1,
{
    let k = v[i].0@;
    assert(key_at(v, k, i));
    let w = choose|w: int| key_at(v, k, w);
    lemma_key_at_unique(v, k, i, w);
}

proof fn lemma_entries_map_update(v: Seq<(String, u64)>, i: int, e: (String, u64))
    requires
        keys_unique(v),
        0 <= i < v.len(),
        e.0@ == v[i].0@,
    ensures
        keys_unique(v.update(i, e)),
        entries_map(v.update(i, e)) == entries_map(v).insert(e.0@, e.1),
{
    let w = v.update(i, e);
    assert(keys_unique(w));
    assert forall|k: Seq<char>| #[trigger]
        entries_map(w).contains_key(k) == entries_map(v).insert(e.0@, e.1).contains_key(k) by {
        if exists|a: int| key_at(v, k, a) {
            let a = choose|a: int| key_at(v, k, a);
            assert(key_at(w, k, a));
        }
        if exists|a: int| key_at(w, k, a) {
            let a = choose|a: int| key_at(w, k, a);
            if k != e.0@ {
                assert(key_at(v, k, a));
            }
        }
        if k == e.0@ {
            assert(key_at(w, k, i));
        }
    }
    assert forall|k: Seq<char>| #[trigger] entries_map(w).contains_key(k) implies entries_map(
        w,
    )[k] == entries_map(v).insert(e.0@, e.1)[k] by {
        let a = choose|a: int| key_at(w, k, a);
        lemma_entries_map_at(w, a);
        if k != e.0@ {
            assert(a != i);
            assert(w[a] == v[a]);
            lemma_entries_map_at(v, a);
        }
    }
    assert(entries_map(w) =~= entries_map(v).insert(e.0@, e.1));
}

proof fn lemma_entries_map_insert(v: Seq<(String, u64)>, p: int, e: (String, u64))
    requires
        keys_unique(v),
        0 <= p <= v.len(),
        forall|j: int| 0 <= j < v.len() ==> v[j].0@ != e.0@,
    ensures
        keys_unique(v.insert(p, e)),
        entries_map(v.insert(p, e)) == entries_map(v).insert(e.0@, e.1),
{
    let w = v.insert(p, e);
    assert forall|a: int, b: int| 0 <= a < b < w.len() implies w[a].0@ != w[b].0@ by {
        if a < p && b < p {
        } else if a < p && b == p {
        } else if a < p {
            assert(w[b] == v[b - 1]);
        } else if a == p {
            assert(w[b] == v[b - 1]);
        } else {
            assert(w[a] == v[a - 1]);
            assert(w[b] == v[b - 1]);
        }
    }
    assert forall|k: Seq<char>| #[trigger]
        entries_map(w).contains_key(k) == entries_map(v).insert(e.0@, e.1).contains_key(k) by {
        if exists|a: int| key_at(v, k, a) {
            let a = choose|a: int| key_at(v, k, a);
            lemma_entries_map_at(v, a);
            if a < p {
                assert(w[a] == v[a]);
                lemma_entries_map_at(w, a);
            } else {
                assert(w[a + 1] == v[a]);
                lemma_entries_map_at(w, a + 1);
            }
        }
        if exists|a: int| key_at(w, k, a) {
            let a = choose|a: int| key_at(w, k, a);
            if a < p {
                assert(w[a] == v[a]);
                lemma_entries_map_at(v, a);
            } else if a > p {
                assert(w[a] == v[a - 1]);
                lemma_entries_map_at(v, a - 1);
            }
        }
        if k == e.0@ {
            assert(w[p] == e);
            lemma_entries_map_at(w, p);
        }
    }
    assert forall|k: Seq<char>| #[trigger] entries_map(w).contains_key(k) implies entries_map(
        w,
    )[k] == entries_map(v).insert(e.0@, e.1)[k] by {
        let a = choose|a: int| key_at(w, k, a);
        lemma_entries_map_at(w, a);
        if a < p {
            assert(w[a] == v[a]);
            lemma_entries_map_at(v, a);
        } else if a > p {
            assert(w[a] == v[a - 1]);
            lemma_entries_map_at(v, a - 1);
        }
    }
    assert(entries_map(w) =~= entries_map(v).insert(e.0@, e.1));
}

/// The value of the first entry with key `key`, or 0 when there is none.
pub fn lookup(v: &Vec<(String, u64)>, key: &str) -> (r: u64)
    ensures
        r == value_or_zero(entries_map(v@), key@),
{
    let kc = chars_of(key);
    for i in 0..v.len()
        invariant
            kc@ == key@,
            forall|j: int| 0 <= j < i ==> v@[j].0@ != key@,
    {
        let c = chars_of(v[i].0.as_str());
        if chars_equal(&c, &kc) {
            proof {
                assert(key_at(v@, key@, i as int));
                let w = choose|w: int| key_at(v@, key@, w);
                lemma_key_at_unique(v@, key@, i as int, w);
            }
            return v[i].1;
        }
    }
    assert(!(exists|w: int| key_at(v@, key@, w)));
    0
}

fn sorts_before(a: &Vec<char>, b: &String) -> (r: bool)
    ensures
        r == chars_lt(a@, b@),
{
    let c = chars_of(b.as_str());
    chars_less(a, &c)
}

/// Sets `key` to `value` in entries kept sorted by key without repeats: the
/// entry of `key` changes where there is one, else a new one goes where
/// the order puts it.
pub fn kv_insert(v: &mut Vec<(String, u64)>, key: String, value: u64)
    requires
        keys_sorted(old(v)@),
        keys_unique(old(v)@),
    ensures
        keys_sorted(final(v)@),
        keys_unique(final(v)@),
        entries_map(final(v)@) == entries_map(old(v)@).insert(key@, value),
{
    let kc = chars_of(key.as_str());
    let n = v.len();
    let mut i: usize = 0;
    while i < n
        invariant
            n == v.len(),
            i <= n,
            kc@ == key@,
            v@ == old(v)@,
            keys_sorted(v@),
            keys_unique(v@),
            forall|j: int| 0 <= j < i ==> v@[j].0@ != key@,
        decreases n - i,
    {
        let c = chars_of(v[i].0.as_str());
        if chars_equal(&c, &kc) {
            proof {
                lemma_entries_map_update(v@, i as int, (key, value));
            }
            let ghost old_v = v@;
            v.set(i, (key, value));
            assert(v@ == old_v.update(i as int, (key, value)));
            assert(keys_sorted(v@)) by {
                assert forall|j: int| 0 <= j < v@.len() - 1 implies chars_lt(
                    #[trigger] v@[j].0@,
                    v@[j + 1].0@,
                ) by {
                    assert(chars_lt(old_v[j].0@, old_v[j + 1].0@));
                }
            }
            return;
        }
        i += 1;
    }
    // `key` is new: it goes before the first key that sorts after it.
    let mut p: usize = 0;
    while p < n && !sorts_before(&kc, &v[p].0)
        invariant
            n == v.len(),
            p <= n,
            kc@ == key@,
            v@ == old(v)@,
            keys_sorted(v@),
            keys_unique(v@),
            forall|j: int| 0 <= j < v@.len() ==> v@[j].0@ != key@,
            forall|j: int| 0 <= j < p ==> !chars_lt(key@, #[trigger] v@[j].0@),
        decreases n - p,
    {
        p += 1;
    }
    let ghost old_v = v@;
    proof {
        lemma_entries_map_insert(v@, p as int, (key, value));
    }
    v.insert(p, (key, value));
    assert(v@ == old_v.insert(p as int, (key, value)));
    assert(keys_sorted(v@)) by {
        assert forall|j: int| 0 <= j < v@.len() - 1 implies chars_lt(
            #[trigger] v@[j].0@,
            v@[j + 1].0@,
        ) by {
            if j + 1 < p {
                assert(chars_lt(old_v[j].0@, old_v[j + 1].0@));
            } else if j + 1 == p {
                lemma_chars_lt_trichotomy(key@, old_v[j].0@);
            } else if j == p {
            } else {
                assert(chars_lt(old_v[j - 1].0@, old_v[j].0@));
            }
        }
    }
}


/// Cumulative CPU accounting of a cgroup, from `cpu.stat`.
#[derive(Clone, Copy, Debug, PartialEq, Eq, Structural)]
pub struct CpuStat {
    pub usage_usec: u64,
    pub user_usec: u64,
    pub system_usec: u64,
    pub nice_usec: u64,
    pub nr_periods: u64,
    pub nr_throttled: u64,
    pub throttled_usec: u64,
    pub nr_bursts: u64,
    pub burst_usec: u64,
}

impl Default for CpuStat {
    fn default() -> (r: CpuStat)
        ensures
            r == (CpuStat {
                usage_usec: 0,
                user_usec: 0,
                system_usec: 0,
                nice_usec: 0,
                nr_periods: 0,
                nr_throttled: 0,
                throttled_usec: 0,
                nr_bursts: 0,
                burst_usec: 0,
            }),
    {
        CpuStat {
            usage_usec: 0,
            user_usec: 0,
            system_usec: 0,
            nice_usec: 0,
            nr_periods: 0,
            nr_throttled: 0,
            throttled_usec: 0,
            nr_bursts: 0,
            burst_usec: 0,
        }
    }
}

/// Every field of `memory.stat`, keyed by the kernel's names. The entries
/// are sorted by key, each key once, as a `BTreeMap` would keep them.
#[derive(Clone, Debug, PartialEq, Eq)]
pub struct MemoryStat {
    pub raw: Vec<(String, u64)>,
}

impl View for MemoryStat {
    type V = Map<Seq<char>, u64>;

    open spec fn view(&self) -> Map<Seq<char>, u64> {
        entries_map(self.raw@)
    }
}

impl MemoryStat {
    /// The entries are sorted by key and no key occurs twice.
    pub open spec fn wf(&self) -> bool {
        keys_sorted(self.raw@) && keys_unique(self.raw@)
    }

    /// The value of field `key`, or 0 if the file did not list it.
    pub fn get(&self, key: &str) -> (r: u64)
        ensures
            r == value_or_zero(self@, key@),
    {
        lookup(&self.raw, key)
    }
}

impl Default for MemoryStat {
    fn default() -> (r: MemoryStat)
        ensures
            r.raw@ == Seq::<(String, u64)>::empty(),
    {
        MemoryStat { raw: Vec::new() }
    }
}

/// Limit and OOM event counters of a cgroup, from `memory.events`.
#[derive(Clone, Copy, Debug, PartialEq, Eq, Structural)]
pub struct MemoryEvents {
    pub low: u64,
    pub high: u64,
    pub max: u64,
    pub oom: u64,
    pub oom_kill: u64,
    pub oom_group_kill: u64,
}

impl Default for MemoryEvents {
    fn default() -> (r: MemoryEvents)
        ensures
            r == (MemoryEvents { low: 0, high: 0, max: 0, oom: 0, oom_kill: 0, oom_group_kill: 0 }),
    {
        MemoryEvents { low: 0, high: 0, max: 0, oom: 0, oom_kill: 0, oom_group_kill: 0 }
    }
}

/// The IO counters of one block device, from one line of `io.stat`.
#[derive(Clone, Copy, Debug, PartialEq, Eq, Structural)]
pub struct IoDeviceStat {
    pub major: u32,
    pub minor: u32,
    pub rbytes: u64,
    pub wbytes: u64,
    pub rios: u64,
    pub wios: u64,
    pub dbytes: u64,
    pub dios: u64,
}

/// One line of a `key value` file applied to the map read so far: a blank
/// line changes nothing, a key and a number set the key (a later line wins);
/// a key alone, or a value that is no `u64`, is an error. Words after the
/// value are ignored.
pub open spec fn kv_step(file: KvFile, line_no: nat, line: Seq<char>, m: Map<Seq<char>, u64>) -> Result<
    Map<Seq<char>, u64>,
    ParseErrorView,
> {
    let t = tokens(line);
    if t.len() == 0 {
        Ok(m)
    } else if t.len() == 1 {
        Err(ParseErrorView::MissingValue { file, line: line_no, key: t[0] })
    } else {
        match parse_u64(t[1]) {
            Ok(v) => Ok(m.insert(t[0], v)),
            Err(c) => Err(
                ParseErrorView::BadValue { file, line: line_no, key: t[0], value: t[1], cause: c },
            ),
        }
    }
}

/// The lines `ls` read in order; the first bad line decides the error.
pub open spec fn kv_fold(file: KvFile, ls: Seq<Seq<char>>) -> Result<
    Map<Seq<char>, u64>,
    ParseErrorView,
>
    decreases ls.len(),
{
    if ls.len() == 0 {
        Ok(Map::empty())
    } else {
        match kv_fold(file, ls.drop_last()) {
            Err(e) => Err(e),
            Ok(m) => kv_step(file, ls.len(), ls.last(), m),
        }
    }
}

/// What a `key value` stat file holds, or why it does not parse.
pub open spec fn kv_text(file: KvFile, s: Seq<char>) -> Result<Map<Seq<char>, u64>, ParseErrorView> {
    kv_fold(file, lines(s))
}

proof fn lemma_kv_fold_err_prefix(file: KvFile, ls: Seq<Seq<char>>, k: int)
    requires
        0 <= k <= ls.len(),
        kv_fold(file, ls.take(k)) is Err,
    ensures
        kv_fold(file, ls) == kv_fold(file, ls.take(k)),
    decreases ls.len() - k,
{
    if k < ls.len() {
        assert(ls.drop_last().take(k) == ls.take(k));
        lemma_kv_fold_err_prefix(file, ls.drop_last(), k);
    } else {
        assert(ls.take(k) == ls);
    }
}

/// Reads a file of `key value` lines into entries sorted by key.
pub fn parse_simple_kv(file: KvFile, s: &str) -> (r: Result<Vec<(String, u64)>, ParseError>)
    ensures
        match r {
            Ok(v) => kv_text(file, s@) == Ok::<Map<Seq<char>, u64>, ParseErrorView>(
                entries_map(v@),
            ) && keys_sorted(v@) && keys_unique(v@),
            Err(e) => kv_text(file, s@) == Err::<Map<Seq<char>, u64>, ParseErrorView>(e@),
        },
{
    let chars = chars_of(s);
    let ls = split_lines(&chars);
    let ghost lv = views(ls@);
    let mut map: Vec<(String, u64)> = Vec::new();
    assert(entries_map(map@) =~= Map::<Seq<char>, u64>::empty());
    for i in 0..ls.len()
        invariant
            lv == views(ls@),
            lv == lines(s@),
            keys_sorted(map@),
            keys_unique(map@),
            kv_fold(file, lv.take(i as int)) == Ok::<Map<Seq<char>, u64>, ParseErrorView>(
                entries_map(map@),
            ),
    {
        assert(lv.take(i + 1).drop_last() == lv.take(i as int));
        assert(lv.take(i + 1).last() == ls@[i as int]@);
        let toks = split_tokens(&ls[i]);
        assert(views(toks@) == tokens(ls@[i as int]@));
        if toks.len() == 1 {
            let e = ParseError::MissingValue {
                file,
                line: i + 1,
                key: string_from_chars(&toks[0]),
            };
            proof {
                assert(views(toks@)[0] == toks@[0]@);
                lemma_kv_fold_err_prefix(file, lv, i + 1);
            }
            return Err(e);
        }
        if toks.len() >= 2 {
            assert(views(toks@)[0] == toks@[0]@);
            assert(views(toks@)[1] == toks@[1]@);
            match parse_u64_chars(&toks[1]) {
                Ok(v) => {
                    kv_insert(&mut map, string_from_chars(&toks[0]), v);
                },
                Err(c) => {
                    let e = ParseError::BadValue {
                        file,
                        line: i + 1,
                        key: string_from_chars(&toks[0]),
                        value: string_from_chars(&toks[1]),
                        cause: c,
                    };
                    proof {
                        lemma_kv_fold_err_prefix(file, lv, i + 1);
                    }
                    return Err(e);
                },
            }
        }
    }
    assert(lv.take(ls.len() as int) == lv);
    Ok(map)
}

/// The `cpu.stat` counters that the map `m` holds; absent ones are 0.
pub open spec fn cpu_stat_of(m: Map<Seq<char>, u64>) -> CpuStat {
    CpuStat {
        usage_usec: value_or_zero(m, "usage_usec"@),
        user_usec: value_or_zero(m, "user_usec"@),
        system_usec: value_or_zero(m, "system_usec"@),
        nice_usec: value_or_zero(m, "nice_usec"@),
        nr_periods: value_or_zero(m, "nr_periods"@),
        nr_throttled: value_or_zero(m, "nr_throttled"@),
        throttled_usec: value_or_zero(m, "throttled_usec"@),
        nr_bursts: value_or_zero(m, "nr_bursts"@),
        burst_usec: value_or_zero(m, "burst_usec"@),
    }
}

/// What `cpu.stat` holds, or why it does not parse.
pub open spec fn cpu_stat_text(s: Seq<char>) -> Result<CpuStat, ParseErrorView> {
    match kv_text(KvFile::CpuStat, s) {
        Ok(m) => Ok(cpu_stat_of(m)),
        Err(e) => Err(e),
    }
}

/// Parses `cpu.stat`. Unknown keys are read and dropped; counters the file
/// does not list are 0.
pub fn parse_cpu_stat(s: &str) -> (r: Result<CpuStat, ParseError>)
    ensures
        match r {
            Ok(c) => cpu_stat_text(s@) == Ok::<CpuStat, ParseErrorView>(c),
            Err(e) => cpu_stat_text(s@) == Err::<CpuStat, ParseErrorView>(e@),
        },
{
    let m = parse_simple_kv(KvFile::CpuStat, s)?;
    Ok(
        CpuStat {
            usage_usec: lookup(&m, "usage_usec"),
            user_usec: lookup(&m, "user_usec"),
            system_usec: lookup(&m, "system_usec"),
            nice_usec: lookup(&m, "nice_usec"),
            nr_periods: lookup(&m, "nr_periods"),
            nr_throttled: lookup(&m, "nr_throttled"),
            throttled_usec: lookup(&m, "throttled_usec"),
            nr_bursts: lookup(&m, "nr_bursts"),
            burst_usec: lookup(&m, "burst_usec"),
        },
    )
}

/// What `memory.current` holds, or why it does not parse: one `u64`, with
/// whitespace around it allowed.
pub open spec fn memory_current_text(s: Seq<char>) -> Result<u64, ParseErrorView> {
    match parse_u64(trim(s)) {
        Ok(v) => Ok(v),
        Err(c) => Err(ParseErrorView::BadMemoryCurrent { text: trim(s), cause: c }),
    }
}

/// Parses `memory.current`.
pub fn parse_memory_current(s: &str) -> (r: Result<u64, ParseError>)
    ensures
        match r {
            Ok(v) => memory_current_text(s@) == Ok::<u64, ParseErrorView>(v),
            Err(e) => memory_current_text(s@) == Err::<u64, ParseErrorView>(e@),
        },
{
    let chars = chars_of(s);
    let t = trimmed(&chars);
    match parse_u64_chars(&t) {
        Ok(v) => Ok(v),
        Err(c) => Err(ParseError::BadMemoryCurrent { text: string_from_chars(&t), cause: c }),
    }
}

/// Parses `memory.stat`, keeping every field.
pub fn parse_memory_stat(s: &str) -> (r: Result<MemoryStat, ParseError>)
    ensures
        match r {
            Ok(m) => kv_text(KvFile::MemoryStat, s@) == Ok::<Map<Seq<char>, u64>, ParseErrorView>(
                m@,
            ) && m.wf(),
            Err(e) => kv_text(KvFile::MemoryStat, s@) == Err::<
                Map<Seq<char>, u64>,
                ParseErrorView,
            >(e@),
        },
{
    let raw = parse_simple_kv(KvFile::MemoryStat, s)?;
    Ok(MemoryStat { raw })
}

/// The `memory.events` counters that the map `m` holds; absent ones are 0.
pub open spec fn memory_events_of(m: Map<Seq<char>, u64>) -> MemoryEvents {
    MemoryEvents {
        low: value_or_zero(m, "low"@),
        high: value_or_zero(m, "high"@),
        max: value_or_zero(m, "max"@),
        oom: value_or_zero(m, "oom"@),
        oom_kill: value_or_zero(m, "oom_kill"@),
        oom_group_kill: value_or_zero(m, "oom_group_kill"@),
    }
}

/// What `memory.events` (or `memory.events.local`) holds, or why it does
/// not parse.
pub open spec fn memory_events_text(s: Seq<char>) -> Result<MemoryEvents, ParseErrorView> {
    match kv_text(KvFile::MemoryEvents, s) {
        Ok(m) => Ok(memory_events_of(m)),
        Err(e) => Err(e),
    }
}

/// Parses `memory.events`; counters the file does not list are 0.
pub fn parse_memory_events(s: &str) -> (r: Result<MemoryEvents, ParseError>)
    ensures
        match r {
            Ok(e) => memory_events_text(s@) == Ok::<MemoryEvents, ParseErrorView>(e),
            Err(e) => memory_events_text(s@) == Err::<MemoryEvents, ParseErrorView>(e@),
        },
{
    let m = parse_simple_kv(KvFile::MemoryEvents, s)?;
    Ok(
        MemoryEvents {
            low: lookup(&m, "low"),
            high: lookup(&m, "high"),
            max: lookup(&m, "max"),
            oom: lookup(&m, "oom"),
            oom_kill: lookup(&m, "oom_kill"),
            oom_group_kill: lookup(&m, "oom_group_kill"),
        },
    )
}


/// The `key=value` counters of an `io.stat` line read in order into a map;
/// a later key wins, and the first bad pair decides the error.
pub open spec fn io_pairs(ts: Seq<Seq<char>>) -> Result<Map<Seq<char>, u64>, IoLineErrorView>
    decreases ts.len(),
{
    if ts.len() == 0 {
        Ok(Map::empty())
    } else {
        match io_pairs(ts.drop_last()) {
            Err(e) => Err(e),
            Ok(m) => match split_once(ts.last(), '=') {
                None => Err(IoLineErrorView::MalformedPair { part: ts.last() }),
                Some((k, v)) => match parse_u64(v) {
                    Ok(x) => Ok(m.insert(k, x)),
                    Err(c) => Err(IoLineErrorView::BadValue { key: k, value: v, cause: c }),
                },
            },
        }
    }
}

/// The device and counters of one non-blank `io.stat` line: a
/// `major:minor` device, then `key=value` counters; counters it does not
/// list are 0, unknown ones are read and dropped.
pub open spec fn io_line(line: Seq<char>) -> Result<IoDeviceStat, IoLineErrorView> {
    let t = tokens(line);
    let device = t[0];
    if t.len() == 0 {
        Err(IoLineErrorView::MissingDevice)
    } else {
    match split_once(device, ':') {
        None => Err(IoLineErrorView::NoColon { device }),
        Some((a, b)) => match parse_u32(a) {
            Err(c) => Err(IoLineErrorView::BadMajor { device, cause: c }),
            Ok(major) => match parse_u32(b) {
                Err(c) => Err(IoLineErrorView::BadMinor { device, cause: c }),
                Ok(minor) => match io_pairs(t.skip(1)) {
                    Err(e) => Err(e),
                    Ok(m) => Ok(
                        IoDeviceStat {
                            major,
                            minor,
                            rbytes: value_or_zero(m, "rbytes"@),
                            wbytes: value_or_zero(m, "wbytes"@),
                            rios: value_or_zero(m, "rios"@),
                            wios: value_or_zero(m, "wios"@),
                            dbytes: value_or_zero(m, "dbytes"@),
                            dios: value_or_zero(m, "dios"@),
                        },
                    ),
                },
            },
        },
    }
    }
}

/// Line `l` as `str::lines` hands it out, `followed` telling whether a
/// line feed ends it: the `'\r'` of a CRLF ending is not part of it.
pub open spec fn raw_line(l: Seq<char>, followed: bool) -> Seq<char> {
    if followed && l.len() > 0 && l.last() == '\r' {
        l.drop_last()
    } else {
        l
    }
}

/// The first `ls.len()` of the `count` lines of `io.stat`, read in order:
/// blank lines are skipped, every other line gives one device; the first
/// bad line decides the error, which quotes the line as it stands.
pub open spec fn io_fold(ls: Seq<Seq<char>>, count: nat) -> Result<Seq<IoDeviceStat>, ParseErrorView>
    decreases ls.len(),
{
    if ls.len() == 0 {
        Ok(Seq::empty())
    } else {
        match io_fold(ls.drop_last(), count) {
            Err(e) => Err(e),
            Ok(ds) => if tokens(ls.last()).len() == 0 {
                Ok(ds)
            } else {
                match io_line(ls.last()) {
                    Ok(d) => Ok(ds.push(d)),
                    Err(c) => Err(
                        ParseErrorView::BadIoLine {
                            line: ls.len(),
                            text: raw_line(ls.last(), ls.len() < count),
                            cause: c,
                        },
                    ),
                }
            },
        }
    }
}

/// What `io.stat` holds, device by device in the order of the file, or
/// why it does not parse.
pub open spec fn io_stat_text(s: Seq<char>) -> Result<Seq<IoDeviceStat>, ParseErrorView> {
    io_fold(lines(s), lines(s).len())
}

proof fn lemma_io_pairs_err_prefix(ts: Seq<Seq<char>>, k: int)
    requires
        0 <= k <= ts.len(),
        io_pairs(ts.take(k)) is Err,
    ensures
        io_pairs(ts) == io_pairs(ts.take(k)),
    decreases ts.len() - k,
{
    if k < ts.len() {
        assert(ts.drop_last().take(k) == ts.take(k));
        lemma_io_pairs_err_prefix(ts.drop_last(), k);
    } else {
        assert(ts.take(k) == ts);
    }
}

proof fn lemma_io_fold_err_prefix(ls: Seq<Seq<char>>, count: nat, k: int)
    requires
        0 <= k <= ls.len(),
        io_fold(ls.take(k), count) is Err,
    ensures
        io_fold(ls, count) == io_fold(ls.take(k), count),
    decreases ls.len() - k,
{
    if k < ls.len() {
        assert(ls.drop_last().take(k) == ls.take(k));
        lemma_io_fold_err_prefix(ls.drop_last(), count, k);
    } else {
        assert(ls.take(k) == ls);
    }
}

/// Reads the `key=value` counters `toks[1..]` of an `io.stat` line.
fn parse_io_pairs(toks: &Vec<Vec<char>>) -> (r: Result<Vec<(String, u64)>, IoLineError>)
    requires
        toks.len() >= 1,
    ensures
        match r {
            Ok(v) => io_pairs(views(toks@).skip(1)) == Ok::<Map<Seq<char>, u64>, IoLineErrorView>(
                entries_map(v@),
            ),
            Err(e) => io_pairs(views(toks@).skip(1)) == Err::<Map<Seq<char>, u64>, IoLineErrorView>(
                e@,
            ),
        },
{
    let ghost ts = views(toks@).skip(1);
    let mut map: Vec<(String, u64)> = Vec::new();
    assert(entries_map(map@) =~= Map::<Seq<char>, u64>::empty());
    for i in 1..toks.len()
        invariant
            toks.len() >= 1,
            ts == views(toks@).skip(1),
            keys_sorted(map@),
            keys_unique(map@),
            io_pairs(ts.take(i - 1)) == Ok::<Map<Seq<char>, u64>, IoLineErrorView>(
                entries_map(map@),
            ),
    {
        assert(ts.take(i as int).drop_last() == ts.take(i - 1));
        assert(ts.take(i as int).last() == toks@[i as int]@);
        match split_once_at(&toks[i], '=') {
            None => {
                let e = IoLineError::MalformedPair { part: string_from_chars(&toks[i]) };
                proof {
                    lemma_io_pairs_err_prefix(ts, i as int);
                }
                return Err(e);
            },
            Some((k, v)) => match parse_u64_chars(&v) {
                Ok(x) => {
                    kv_insert(&mut map, string_from_chars(&k), x);
                },
                Err(c) => {
                    let e = IoLineError::BadValue {
                        key: string_from_chars(&k),
                        value: string_from_chars(&v),
                        cause: c,
                    };
                    proof {
                        lemma_io_pairs_err_prefix(ts, i as int);
                    }
                    return Err(e);
                },
            },
        }
    }
    assert(ts.take(toks.len() - 1) == ts);
    Ok(map)
}

fn io_stat_line_chars(line: &Vec<char>) -> (r: Result<IoDeviceStat, IoLineError>)
    ensures
        match r {
            Ok(d) => io_line(line@) == Ok::<IoDeviceStat, IoLineErrorView>(d),
            Err(e) => io_line(line@) == Err::<IoDeviceStat, IoLineErrorView>(e@),
        },
{
    let toks = split_tokens(line);
    if toks.len() == 0 {
        return Err(IoLineError::MissingDevice);
    }
    assert(views(toks@)[0] == toks@[0]@);
    let device = &toks[0];
    let (a, b) = match split_once_at(device, ':') {
        Some(p) => p,
        None => {
            return Err(IoLineError::NoColon { device: string_from_chars(device) });
        },
    };
    let major = match parse_u32_chars(&a) {
        Ok(x) => x,
        Err(c) => {
            return Err(IoLineError::BadMajor { device: string_from_chars(device), cause: c });
        },
    };
    let minor = match parse_u32_chars(&b) {
        Ok(x) => x,
        Err(c) => {
            return Err(IoLineError::BadMinor { device: string_from_chars(device), cause: c });
        },
    };
    let kv = parse_io_pairs(&toks)?;
    Ok(
        IoDeviceStat {
            major,
            minor,
            rbytes: lookup(&kv, "rbytes"),
            wbytes: lookup(&kv, "wbytes"),
            rios: lookup(&kv, "rios"),
            wios: lookup(&kv, "wios"),
            dbytes: lookup(&kv, "dbytes"),
            dios: lookup(&kv, "dios"),
        },
    )
}

/// Line `l` without the `'\r'` of a CRLF ending, where `followed` says
/// that a line feed ends it.
fn line_as_listed(l: &Vec<char>, followed: bool) -> (r: Vec<char>)
    ensures
        r@ == raw_line(l@, followed),
{
    let mut out: Vec<char> = Vec::new();
    let n = if followed && l.len() > 0 && l[l.len() - 1] == '\r' {
        l.len() - 1
    } else {
        l.len()
    };
    for i in 0..n
        invariant
            n <= l.len(),
            out@ == l@.take(i as int),
    {
        out.push(l[i]);
    }
    assert(l@.take(n as int) == raw_line(l@, followed));
    out
}

/// Reads one line of `io.stat`, as `io_line` describes: a `major:minor`
/// device with `u32` parts split at the first `:`, then `key=value`
/// counters split at the first `=` with `u64` values; the last value of a
/// key wins, counters it does not list are 0 and unknown keys are dropped.
pub fn parse_io_stat_line(line: &str) -> (r: Result<IoDeviceStat, IoLineError>)
    ensures
        match r {
            Ok(d) => io_line(line@) == Ok::<IoDeviceStat, IoLineErrorView>(d),
            Err(e) => io_line(line@) == Err::<IoDeviceStat, IoLineErrorView>(e@),
        },
{
    let c = chars_of(line);
    io_stat_line_chars(&c)
}

/// Parses `io.stat`: one entry per non-blank line, in the order of the
/// file.
pub fn parse_io_stat(s: &str) -> (r: Result<Vec<IoDeviceStat>, ParseError>)
    ensures
        match r {
            Ok(v) => io_stat_text(s@) == Ok::<Seq<IoDeviceStat>, ParseErrorView>(v@),
            Err(e) => io_stat_text(s@) == Err::<Seq<IoDeviceStat>, ParseErrorView>(e@),
        },
{
    let chars = chars_of(s);
    let ls = split_lines(&chars);
    let ghost lv = views(ls@);
    let mut devices: Vec<IoDeviceStat> = Vec::new();
    for i in 0..ls.len()
        invariant
            lv == views(ls@),
            lv == lines(s@),
            io_fold(lv.take(i as int), lv.len()) == Ok::<Seq<IoDeviceStat>, ParseErrorView>(
                devices@,
            ),
    {
        assert(lv.take(i + 1).drop_last() == lv.take(i as int));
        assert(lv.take(i + 1).last() == ls@[i as int]@);
        let toks = split_tokens(&ls[i]);
        if toks.len() > 0 {
            match io_stat_line_chars(&ls[i]) {
                Ok(d) => devices.push(d),
                Err(c) => {
                    let t = line_as_listed(&ls[i], i + 1 < ls.len());
                    let e = ParseError::BadIoLine { line: i + 1, text: string_from_chars(&t), cause: c };
                    proof {
                        lemma_io_fold_err_prefix(lv, lv.len(), i + 1);
                    }
                    return Err(e);
                },
            }
        }
    }
    assert(lv.take(ls.len() as int) == lv);
    Ok(devices)
}

/// The lines of `ls` that hold a token, in order.
pub open spec fn nonblank(ls: Seq<Seq<char>>) -> Seq<Seq<char>>
    decreases ls.len(),
{
    if ls.len() == 0 {
        Seq::empty()
    } else if tokens(ls.last()).len() == 0 {
        nonblank(ls.drop_last())
    } else {
        nonblank(ls.drop_last()).push(ls.last())
    }
}

proof fn lemma_io_fold_lines(ls: Seq<Seq<char>>, count: nat)
    ensures
        io_fold(ls, count) is Ok <==> forall|i: int|
            0 <= i < nonblank(ls).len() ==> io_line(#[trigger] nonblank(ls)[i]) is Ok,
        io_fold(ls, count) matches Ok(v) ==> v.len() == nonblank(ls).len() && forall|i: int|
            0 <= i < v.len() ==> io_line(#[trigger] nonblank(ls)[i]) == Ok::<
                IoDeviceStat,
                IoLineErrorView,
            >(v[i]),
    decreases ls.len(),
{
    if ls.len() > 0 {
        let pre = ls.drop_last();
        lemma_io_fold_lines(pre, count);
        let nb = nonblank(pre);
        if tokens(ls.last()).len() > 0 {
            let nb2 = nb.push(ls.last());
            assert(nonblank(ls) == nb2);
            assert forall|i: int| 0 <= i < nb.len() implies #[trigger] nb2[i] == nb[i] by {}
            assert(nb2[nb.len() as int] == ls.last());
            if io_fold(pre, count) is Ok {
                if io_line(ls.last()) is Ok {
                    let v = io_fold(pre, count)->Ok_0;
                    let v2 = io_fold(ls, count)->Ok_0;
                    assert(v2 == v.push(io_line(ls.last())->Ok_0));
                    assert forall|i: int| 0 <= i < v2.len() implies io_line(#[trigger] nb2[i])
                        == Ok::<IoDeviceStat, IoLineErrorView>(v2[i]) by {
                        if i < v.len() {
                            assert(v2[i] == v[i]);
                        }
                    }
                }
            } else {
                let i0 = choose|i: int| 0 <= i < nb.len() && !(io_line(#[trigger] nb[i]) is Ok);
                assert(nb2[i0] == nb[i0]);
            }
        }
    }
}

/// `io.stat` parses exactly when each of its non-blank lines does, and
/// then holds one device per such line, in the order of the file.
pub proof fn lemma_io_stat_lines(s: Seq<char>)
    ensures
        io_stat_text(s) is Ok <==> forall|i: int|
            0 <= i < nonblank(lines(s)).len() ==> io_line(#[trigger] nonblank(lines(s))[i]) is Ok,
        io_stat_text(s) matches Ok(v) ==> v.len() == nonblank(lines(s)).len() && forall|i: int|
            0 <= i < v.len() ==> io_line(#[trigger] nonblank(lines(s))[i]) == Ok::<
                IoDeviceStat,
                IoLineErrorView,
            >(v[i]),
{
    lemma_io_fold_lines(lines(s), lines(s).len());
}

/// A line of a `key value` file that reads: blank, or a key followed by a
/// `u64`.
pub open spec fn kv_line_ok(l: Seq<char>) -> bool {
    tokens(l).len() == 0 || (tokens(l).len() >= 2 && parse_u64(tokens(l)[1]) is Ok)
}

/// The value on the last line of `ls` keyed `k` that reads, or 0 where no
/// line is.
pub open spec fn last_value(ls: Seq<Seq<char>>, k: Seq<char>) -> Option<u64>
    decreases ls.len(),
{
    if ls.len() == 0 {
        None
    } else {
        let t = tokens(ls.last());
        if t.len() >= 2 && t[0] == k && parse_u64(t[1]) is Ok {
            Some(parse_u64(t[1])->Ok_0)
        } else {
            last_value(ls.drop_last(), k)
        }
    }
}

/// The value on the last line keyed `k`, or 0.
pub open spec fn last_or_zero(ls: Seq<Seq<char>>, k: Seq<char>) -> u64 {
    match last_value(ls, k) {
        Some(v) => v,
        None => 0,
    }
}

proof fn lemma_kv_fold_lines(file: KvFile, ls: Seq<Seq<char>>)
    ensures
        kv_fold(file, ls) is Ok <==> forall|i: int| 0 <= i < ls.len() ==> kv_line_ok(#[trigger] ls[i]),
        kv_fold(file, ls) matches Ok(m) ==> forall|k: Seq<char>|
            #![trigger m.contains_key(k)]
            #![trigger last_value(ls, k)]
            (m.contains_key(k) <==> last_value(ls, k) is Some) && value_or_zero(m, k)
                == last_or_zero(ls, k),
    decreases ls.len(),
{
    if ls.len() > 0 {
        let pre = ls.drop_last();
        lemma_kv_fold_lines(file, pre);
        assert forall|i: int| 0 <= i < pre.len() implies #[trigger] pre[i] == ls[i] by {}
        if kv_fold(file, pre) is Ok {
            let m = kv_fold(file, pre)->Ok_0;
            let t = tokens(ls.last());
            if kv_fold(file, ls) is Ok {
                assert(kv_line_ok(ls[ls.len() - 1]));
                assert forall|i: int| 0 <= i < ls.len() implies kv_line_ok(#[trigger] ls[i]) by {
                    if i < pre.len() {
                        assert(kv_line_ok(pre[i]));
                    }
                }
                let m2 = kv_fold(file, ls)->Ok_0;
                assert forall|k: Seq<char>|
                    #![trigger m2.contains_key(k)]
                    #![trigger last_value(ls, k)]
                    (m2.contains_key(k) <==> last_value(ls, k) is Some) && value_or_zero(m2, k)
                        == last_or_zero(ls, k) by {
                    assert(m.contains_key(k) <==> last_value(pre, k) is Some);
                    assert(value_or_zero(m, k) == last_or_zero(pre, k));
                }
            } else {
                assert(!kv_line_ok(ls[ls.len() - 1]));
            }
        } else {
            let i0 = choose|i: int| 0 <= i < pre.len() && !kv_line_ok(#[trigger] pre[i]);
            assert(ls[i0] == pre[i0]);
        }
    }
}

/// `cpu.stat` parses exactly when each of its lines is blank or a key
/// followed by a `u64`; then each counter is the value on the last line
/// keyed by its name, or 0 where there is none, and other keys are ignored.
pub proof fn lemma_cpu_stat_lines(s: Seq<char>)
    ensures
        cpu_stat_text(s) is Ok <==> forall|i: int|
            0 <= i < lines(s).len() ==> kv_line_ok(#[trigger] lines(s)[i]),
        cpu_stat_text(s) matches Ok(c) ==> {
            let ls = lines(s);
            &&& c.usage_usec == last_or_zero(ls, "usage_usec"@)
            &&& c.user_usec == last_or_zero(ls, "user_usec"@)
            &&& c.system_usec == last_or_zero(ls, "system_usec"@)
            &&& c.nice_usec == last_or_zero(ls, "nice_usec"@)
            &&& c.nr_periods == last_or_zero(ls, "nr_periods"@)
            &&& c.nr_throttled == last_or_zero(ls, "nr_throttled"@)
            &&& c.throttled_usec == last_or_zero(ls, "throttled_usec"@)
            &&& c.nr_bursts == last_or_zero(ls, "nr_bursts"@)
            &&& c.burst_usec == last_or_zero(ls, "burst_usec"@)
        },
{
    lemma_kv_fold_lines(KvFile::CpuStat, lines(s));
    if let Ok(m) = kv_text(KvFile::CpuStat, s) {
        let ls = lines(s);
        assert(value_or_zero(m, "usage_usec"@) == last_or_zero(ls, "usage_usec"@));
        assert(value_or_zero(m, "user_usec"@) == last_or_zero(ls, "user_usec"@));
        assert(value_or_zero(m, "system_usec"@) == last_or_zero(ls, "system_usec"@));
        assert(value_or_zero(m, "nice_usec"@) == last_or_zero(ls, "nice_usec"@));
        assert(value_or_zero(m, "nr_periods"@) == last_or_zero(ls, "nr_periods"@));
        assert(value_or_zero(m, "nr_throttled"@) == last_or_zero(ls, "nr_throttled"@));
        assert(value_or_zero(m, "throttled_usec"@) == last_or_zero(ls, "throttled_usec"@));
        assert(value_or_zero(m, "nr_bursts"@) == last_or_zero(ls, "nr_bursts"@));
        assert(value_or_zero(m, "burst_usec"@) == last_or_zero(ls, "burst_usec"@));
    }
}

/// `memory.current` written as the decimal digits of `v`, with or without a
/// trailing line feed, reads back as `v`.
pub proof fn lemma_memory_current_decimal(v: u64)
    ensures
        memory_current_text(decimal(v as nat)) == Ok::<u64, ParseErrorView>(v),
        memory_current_text(decimal(v as nat).push('\n')) == Ok::<u64, ParseErrorView>(v),
{
    let d = decimal(v as nat);
    lemma_decimal_digits(v as nat);
    lemma_parse_decimal(v as nat, u64::MAX as nat);
    assert(is_digit(d[0]) && is_digit(d.last()));
    lemma_trim_digits(d, Seq::empty());
    lemma_trim_digits(d, seq!['\n']);
    assert(d + Seq::<char>::empty() == d);
    assert(d + seq!['\n'] == d.push('\n'));
}

/// A key of a stat file: at least one character, none of them whitespace.
pub open spec fn plain_key(k: Seq<char>) -> bool {
    k.len() > 0 && forall|i: int| 0 <= i < k.len() ==> !is_ws(#[trigger] k[i])
}

/// The line `key value` of one entry, without its line feed.
pub open spec fn stat_line(e: (Seq<char>, u64)) -> Seq<char> {
    e.0 + seq![' '] + decimal(e.1 as nat)
}

/// The lines of the entries `es`, in order.
pub open spec fn stat_lines(es: Seq<(Seq<char>, u64)>) -> Seq<Seq<char>> {
    es.map_values(|e: (Seq<char>, u64)| stat_line(e))
}

/// A `key value` file holding the entries `es`, one line each, in order.
pub open spec fn stat_text(es: Seq<(Seq<char>, u64)>) -> Seq<char>
    decreases es.len(),
{
    if es.len() == 0 {
        Seq::empty()
    } else {
        stat_text(es.drop_last()) + stat_line(es.last()) + seq!['\n']
    }
}

/// The value of the last entry of `es` keyed `k`.
pub open spec fn last_entry(es: Seq<(Seq<char>, u64)>, k: Seq<char>) -> Option<u64>
    decreases es.len(),
{
    if es.len() == 0 {
        None
    } else if es.last().0 == k {
        Some(es.last().1)
    } else {
        last_entry(es.drop_last(), k)
    }
}

proof fn lemma_stat_line_facts(e: (Seq<char>, u64))
    requires
        plain_key(e.0),
    ensures
        tokens(stat_line(e)) == seq![e.0, decimal(e.1 as nat)],
        parse_u64(decimal(e.1 as nat)) == Ok::<u64, IntErrorKind>(e.1),
        forall|i: int| 0 <= i < stat_line(e).len() ==> #[trigger] stat_line(e)[i] != '\n',
{
    let d = decimal(e.1 as nat);
    lemma_decimal_digits(e.1 as nat);
    lemma_parse_decimal(e.1 as nat, u64::MAX as nat);
    assert forall|i: int| 0 <= i < d.len() implies !is_ws(#[trigger] d[i]) by {
        assert(is_digit(d[i]));
    }
    lemma_tokens_two_words(e.0, d);
    let l = stat_line(e);
    assert forall|i: int| 0 <= i < l.len() implies #[trigger] l[i] != '\n' by {
        if i < e.0.len() {
            assert(l[i] == e.0[i]);
            assert(!is_ws(e.0[i]));
        } else if i > e.0.len() {
            assert(l[i] == d[i - e.0.len() - 1]);
            assert(is_digit(d[i - e.0.len() - 1]));
        }
    }
}

proof fn lemma_stat_text_lines(es: Seq<(Seq<char>, u64)>)
    requires
        forall|i: int| 0 <= i < es.len() ==> plain_key(#[trigger] es[i].0),
    ensures
        lines(stat_text(es)) == stat_lines(es).push(
            Seq::<char>::empty(),
        ),
        stat_text(es).len() == 0 || stat_text(es).last() == '\n',
    decreases es.len(),
{
    if es.len() == 0 {
        assert(lines(stat_text(es)) == seq![Seq::<char>::empty()]);
        assert(stat_lines(es).push(Seq::<char>::empty())
            =~= seq![Seq::<char>::empty()]);
    } else {
        let pre = es.drop_last();
        assert forall|i: int| 0 <= i < pre.len() implies plain_key(#[trigger] pre[i].0) by {
            assert(pre[i] == es[i]);
        }
        lemma_stat_text_lines(pre);
        let e = es.last();
        assert(plain_key(es[es.len() - 1].0));
        lemma_stat_line_facts(e);
        let l = stat_line(e);
        let a = stat_text(pre);
        let b = l + seq!['\n'];
        assert(stat_text(es) == a + b) by {
            assert(a + l + seq!['\n'] =~= a + b);
        }
        lemma_pieces_append(a, b, '\n');
        lemma_pieces_none(l, '\n');
        assert(b.drop_last() =~= l);
        assert(pieces(b, '\n') == seq![l].push(Seq::<char>::empty()));
        let m = stat_lines(es);
        let mp = stat_lines(pre);
        assert(mp.push(Seq::<char>::empty()).drop_last() =~= mp);
        assert(mp + seq![l].push(Seq::<char>::empty()) =~= m.push(Seq::<char>::empty()));
        assert((a + b).last() == '\n');
    }
}

proof fn lemma_stat_last_value(es: Seq<(Seq<char>, u64)>, k: Seq<char>)
    requires
        forall|i: int| 0 <= i < es.len() ==> plain_key(#[trigger] es[i].0),
    ensures
        last_value(stat_lines(es), k) == last_entry(es, k),
        forall|i: int|
            0 <= i < es.len() ==> kv_line_ok(
                #[trigger] stat_lines(es)[i],
            ),
    decreases es.len(),
{
    if es.len() > 0 {
        let pre = es.drop_last();
        assert forall|i: int| 0 <= i < pre.len() implies plain_key(#[trigger] pre[i].0) by {
            assert(pre[i] == es[i]);
        }
        lemma_stat_last_value(pre, k);
        let m = stat_lines(es);
        let mp = stat_lines(pre);
        assert(m.drop_last() =~= mp);
        assert(plain_key(es[es.len() - 1].0));
        lemma_stat_line_facts(es.last());
        assert(m.last() == stat_line(es.last()));
        assert forall|i: int| 0 <= i < es.len() implies kv_line_ok(#[trigger] m[i]) by {
            if i < pre.len() {
                assert(m[i] == mp[i]);
            }
        }
    }
}

/// A `memory.stat` written from entries whose keys are words without
/// whitespace, one `key value` line each, reads back as those entries:
/// it parses, holds exactly their keys, and each key the value of its
/// last entry.
pub proof fn lemma_memory_stat_round_trip(es: Seq<(Seq<char>, u64)>)
    requires
        forall|i: int| 0 <= i < es.len() ==> plain_key(#[trigger] es[i].0),
    ensures
        kv_text(KvFile::MemoryStat, stat_text(es)) matches Ok(m) && forall|k: Seq<char>|
            #![trigger m.contains_key(k)]
            #![trigger last_entry(es, k)]
            (m.contains_key(k) <==> last_entry(es, k) is Some) && (last_entry(es, k) matches Some(
                v,
            ) ==> m[k] == v),
{
    let ls = lines(stat_text(es));
    let m = stat_lines(es);
    lemma_stat_text_lines(es);
    lemma_kv_fold_lines(KvFile::MemoryStat, ls);
    assert forall|i: int| 0 <= i < ls.len() implies kv_line_ok(#[trigger] ls[i]) by {
        lemma_stat_last_value(es, Seq::empty());
        if i < m.len() {
            assert(ls[i] == m[i]);
        } else {
            assert(ls[i] == Seq::<char>::empty());
            assert(tokens(Seq::<char>::empty()).len() == 0);
        }
    }
    let mm = kv_text(KvFile::MemoryStat, stat_text(es))->Ok_0;
    assert forall|k: Seq<char>|
        #![trigger mm.contains_key(k)]
        #![trigger last_entry(es, k)]
        (mm.contains_key(k) <==> last_entry(es, k) is Some) && (last_entry(es, k) matches Some(v)
            ==> mm[k] == v) by {
        lemma_stat_last_value(es, k);
        assert(ls.drop_last() =~= m);
        assert(tokens(ls.last()).len() == 0) by {
            assert(ls.last() == Seq::<char>::empty());
        }
        assert(last_value(ls, k) == last_value(m, k));
        assert(mm.contains_key(k) <==> last_value(ls, k) is Some);
        assert(value_or_zero(mm, k) == last_or_zero(ls, k));
    }
}

/// Each key of `es` occurs once.
pub open spec fn entry_keys_distinct(es: Seq<(Seq<char>, u64)>) -> bool {
    forall|a: int, b: int| 0 <= a < b < es.len() ==> (#[trigger] es[a]).0 != (#[trigger] es[b]).0
}

pub open spec fn entry_keys(es: Seq<(Seq<char>, u64)>) -> Seq<Seq<char>> {
    es.map_values(|e: (Seq<char>, u64)| e.0)
}

proof fn lemma_last_entry_some(es: Seq<(Seq<char>, u64)>, k: Seq<char>)
    ensures
        last_entry(es, k) is Some <==> entry_keys(es).contains(k),
    decreases es.len(),
{
    if es.len() == 0 {
        assert(entry_keys(es).len() == 0);
    } else {
        lemma_last_entry_some(es.drop_last(), k);
        assert(entry_keys(es.drop_last()) =~= entry_keys(es).drop_last());
        assert(entry_keys(es)[es.len() - 1] == es.last().0);
        if entry_keys(es).contains(k) {
            let i = choose|i: int| 0 <= i < es.len() && entry_keys(es)[i] == k;
            if i < es.len() - 1 {
                assert(entry_keys(es.drop_last())[i] == k);
            }
        }
        if entry_keys(es.drop_last()).contains(k) {
            let i = choose|i: int| 0 <= i < es.len() - 1 && entry_keys(es.drop_last())[i] == k;
            assert(entry_keys(es)[i] == k);
        }
    }
}

/// Entries of distinct keys, written and read back, give a map of as many
/// keys as there are entries.
pub proof fn lemma_memory_stat_round_trip_size(es: Seq<(Seq<char>, u64)>)
    requires
        forall|i: int| 0 <= i < es.len() ==> plain_key(#[trigger] es[i].0),
        entry_keys_distinct(es),
    ensures
        kv_text(KvFile::MemoryStat, stat_text(es)) matches Ok(m) && m.dom().len() == es.len(),
{
    lemma_memory_stat_round_trip(es);
    let m = kv_text(KvFile::MemoryStat, stat_text(es))->Ok_0;
    let ks = entry_keys(es);
    assert forall|k: Seq<char>| m.dom().contains(k) <==> ks.to_set().contains(k) by {
        lemma_last_entry_some(es, k);
        assert(m.contains_key(k) <==> last_entry(es, k) is Some);
    }
    assert(m.dom() =~= ks.to_set());
    assert(ks.no_duplicates()) by {
        assert forall|a: int, b: int| 0 <= a < ks.len() && 0 <= b < ks.len() && a != b implies ks[a]
            != ks[b] by {
            if a < b {
                assert(es[a].0 != es[b].0);
            } else {
                assert(es[b].0 != es[a].0);
            }
        }
    }
    ks.unique_seq_to_set();
}

/// The entries of a well-formed `MemoryStat` number as many as the keys of
/// its map.
pub proof fn lemma_memory_stat_len(m: MemoryStat)
    requires
        m.wf(),
    ensures
        m.raw@.len() == m@.dom().len(),
{
    let ks = m.raw@.map_values(|e: (String, u64)| e.0@);
    assert forall|k: Seq<char>| m@.dom().contains(k) <==> ks.to_set().contains(k) by {
        if m@.dom().contains(k) {
            let i = choose|i: int| key_at(m.raw@, k, i);
            assert(ks[i] == k);
        }
        if ks.to_set().contains(k) {
            let i = choose|i: int| 0 <= i < ks.len() && ks[i] == k;
            assert forall|j: int| 0 <= j < i implies m.raw@[j].0@ != k by {
                assert(m.raw@[j].0@ != m.raw@[i].0@);
            }
            assert(key_at(m.raw@, k, i));
        }
    }
    assert(m@.dom() =~= ks.to_set());
    assert(ks.no_duplicates()) by {
        assert forall|a: int, b: int| 0 <= a < ks.len() && 0 <= b < ks.len() && a != b implies ks[a]
            != ks[b] by {
            if a < b {
                assert(m.raw@[a].0@ != m.raw@[b].0@);
            } else {
                assert(m.raw@[b].0@ != m.raw@[a].0@);
            }
        }
    }
    ks.unique_seq_to_set();
}

} // verus!
