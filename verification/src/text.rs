//! Character-level helpers shared by the parsers: whitespace, line and
//! token splitting, and decimal numbers.

use vstd::prelude::*;

verus! {

/// The Unicode `White_Space` property, which is what `char::is_whitespace`
/// and therefore `str::trim` and `str::split_whitespace` test for.
pub open spec fn is_ws(c: char) -> bool {
    let u = c as int;
    ||| u == 0x20
    ||| 0x09 <= u <= 0x0d
    ||| u == 0x85
    ||| u == 0xa0
    ||| u == 0x1680
    ||| 0x2000 <= u <= 0x200a
    ||| u == 0x2028
    ||| u == 0x2029
    ||| u == 0x202f
    ||| u == 0x205f
    ||| u == 0x3000
}

pub fn is_whitespace(c: char) -> (r: bool)
    ensures
        r == is_ws(c),
{
    let u = code_point(c);
    u == 0x20 || (0x09 <= u && u <= 0x0d) || u == 0x85 || u == 0xa0 || u == 0x1680 || (0x2000
        <= u && u <= 0x200a) || u == 0x2028 || u == 0x2029 || u == 0x202f || u == 0x205f || u
        == 0x3000
}

/// The code point of `c`.
pub fn code_point(c: char) -> (u: u32)
    ensures
        u as int == c as int,
{
    c as u32
}

/// The characters of `s`, in order.
pub fn chars_of(s: &str) -> (r: Vec<char>)
    ensures
        r@ == s@,
{
    let mut r: Vec<char> = Vec::new();
    for c in it: s.chars()
        invariant
            r@ == it.seq().take(it.index()),
            it.seq() == s@,
    {
        r.push(c);
    }
    r
}


/// The contents of each element, in order.
pub open spec fn views(v: Seq<Vec<char>>) -> Seq<Seq<char>> {
    v.map_values(|x: Vec<char>| x@)
}

/// `s` cut at every `sep`: the pieces between separators, in order, as
/// `str::split(sep)` gives them (so at least one, and empty ones too).
pub open spec fn pieces(s: Seq<char>, sep: char) -> Seq<Seq<char>>
    decreases s.len(),
{
    if s.len() == 0 {
        seq![Seq::<char>::empty()]
    } else {
        let pre = pieces(s.drop_last(), sep);
        if s.last() == sep {
            pre.push(Seq::<char>::empty())
        } else {
            pre.update(pre.len() - 1, pre.last().push(s.last()))
        }
    }
}

/// The lines of `s`: its pieces between line feeds. A text that ends in a
/// line feed has an empty last line, and a line may end in the `'\r'` of a
/// CRLF ending; both are whitespace to the parsers, which ignore blank
/// lines and split lines into tokens.
pub open spec fn lines(s: Seq<char>) -> Seq<Seq<char>> {
    pieces(s, '\n')
}

pub proof fn lemma_pieces_nonempty(s: Seq<char>, sep: char)
    ensures
        pieces(s, sep).len() >= 1,
    decreases s.len(),
{
    if s.len() > 0 {
        lemma_pieces_nonempty(s.drop_last(), sep);
    }
}

/// The maximal runs of non-whitespace characters of `s`, in order: what
/// `str::split_whitespace` yields.
pub open spec fn tokens(s: Seq<char>) -> Seq<Seq<char>>
    decreases s.len(),
{
    if s.len() == 0 {
        Seq::<Seq<char>>::empty()
    } else {
        let pre = tokens(s.drop_last());
        let c = s.last();
        if is_ws(c) {
            pre
        } else if s.len() >= 2 && !is_ws(s[s.len() - 2]) {
            pre.update(pre.len() - 1, pre.last().push(c))
        } else {
            pre.push(seq![c])
        }
    }
}

/// Splits `s` at every `sep`, as `pieces` describes.
pub fn split_at_char(s: &Vec<char>, sep: char) -> (r: Vec<Vec<char>>)
    ensures
        views(r@) == pieces(s@, sep),
{
    let mut out: Vec<Vec<char>> = Vec::new();
    let mut cur: Vec<char> = Vec::new();
    let n = s.len();
    for i in 0..n
        invariant
            n == s.len(),
            views(out@).push(cur@) == pieces(s@.take(i as int), sep),
    {
        proof {
            assert(s@.take(i + 1).drop_last() == s@.take(i as int));
            lemma_pieces_nonempty(s@.take(i as int), sep);
        }
        if s[i] == sep {
            let ghost old_out = out@;
            out.push(cur);
            cur = Vec::new();
            assert(views(out@) == views(old_out).push(views(out@).last()));
        } else {
            let ghost old_cur = cur@;
            cur.push(s[i]);
            assert(views(out@).push(cur@) == views(out@).push(old_cur).update(
                views(out@).len() as int,
                old_cur.push(s@[i as int]),
            ));
        }
    }
    assert(s@.take(n as int) == s@);
    let ghost old_out = out@;
    out.push(cur);
    assert(views(out@) == views(old_out).push(cur@));
    out
}

/// Splits `s` into its lines, as `lines` describes them.
pub fn split_lines(s: &Vec<char>) -> (r: Vec<Vec<char>>)
    ensures
        views(r@) == lines(s@),
{
    split_at_char(s, '\n')
}

/// Splits `s` into its whitespace-separated tokens, as `tokens` describes.
pub fn split_tokens(s: &Vec<char>) -> (r: Vec<Vec<char>>)
    ensures
        views(r@) == tokens(s@),
{
    let mut out: Vec<Vec<char>> = Vec::new();
    let mut cur: Vec<char> = Vec::new();
    let n = s.len();
    for i in 0..n
        invariant
            n == s.len(),
            cur@.len() > 0 <==> (i > 0 && !is_ws(s@[i - 1])),
            cur@.len() > 0 ==> views(out@).push(cur@) == tokens(s@.take(i as int)),
            cur@.len() == 0 ==> views(out@) == tokens(s@.take(i as int)),
    {
        proof {
            assert(s@.take(i + 1).drop_last() == s@.take(i as int));
            assert(s@.take(i + 1).last() == s@[i as int]);
        }
        let c = s[i];
        if is_whitespace(c) {
            if cur.len() > 0 {
                let ghost old_out = out@;
                out.push(cur);
                cur = Vec::new();
                assert(views(out@) == views(old_out).push(views(out@).last()));
            }
        } else {
            let ghost old_cur = cur@;
            let ghost old_out = out@;
            cur.push(c);
            if cur.len() > 1 {
                assert(s@.take(i + 1)[i - 1] == s@[i - 1]);
                assert(views(out@).push(cur@) == views(out@).push(old_cur).update(
                    views(out@).len() as int,
                    old_cur.push(c),
                ));
            } else {
                assert(cur@ == seq![c]);
            }
        }
    }
    assert(s@.take(n as int) == s@);
    if cur.len() > 0 {
        let ghost old_out = out@;
        out.push(cur);
        assert(views(out@) == views(old_out).push(views(out@).last()));
    }
    out
}


/// `i` is the position of the first `c` in `s`.
pub open spec fn is_first(s: Seq<char>, c: char, i: int) -> bool {
    &&& 0 <= i < s.len()
    &&& s[i] == c
    &&& forall|j: int| 0 <= j < i ==> s[j] != c
}

/// What `str::split_once(c)` gives: the parts before and after the first
/// `c`, or `None` when `s` holds no `c`.
pub open spec fn split_once(s: Seq<char>, c: char) -> Option<(Seq<char>, Seq<char>)> {
    if exists|i: int| is_first(s, c, i) {
        let i = choose|i: int| is_first(s, c, i);
        Some((s.take(i), s.skip(i + 1)))
    } else {
        None
    }
}

pub proof fn lemma_first_unique(s: Seq<char>, c: char, i: int, j: int)
    requires
        is_first(s, c, i),
        is_first(s, c, j),
    ensures
        i == j,
{
    if i < j {
        assert(s[i] != c);
    } else if j < i {
        assert(s[j] != c);
    }
}

/// Splits `s` at its first `c`.
pub fn split_once_at(s: &Vec<char>, c: char) -> (r: Option<(Vec<char>, Vec<char>)>)
    ensures
        match r {
            Some((a, b)) => split_once(s@, c) == Some((a@, b@)),
            None => split_once(s@, c) is None,
        },
{
    let n = s.len();
    let mut i: usize = 0;
    while i < n
        invariant
            n == s.len(),
            i <= n,
            forall|j: int| 0 <= j < i ==> s@[j] != c,
        decreases n - i,
    {
        if s[i] == c {
            let mut a: Vec<char> = Vec::new();
            let mut b: Vec<char> = Vec::new();
            for k in 0..i
                invariant
                    i < n == s.len(),
                    a@ == s@.take(k as int),
            {
                a.push(s[k]);
                assert(a@ == s@.take(k + 1));
            }
            for k in i + 1..n
                invariant
                    i < n == s.len(),
                    b@ == s@.subrange(i + 1, k as int),
            {
                b.push(s[k]);
                assert(b@ == s@.subrange(i + 1, k + 1));
            }
            proof {
                assert(is_first(s@, c, i as int));
                let w = choose|w: int| is_first(s@, c, w);
                lemma_first_unique(s@, c, i as int, w);
                assert(b@ == s@.skip(i + 1));
            }
            return Some((a, b));
        }
        i += 1;
    }
    proof {
        assert forall|w: int| !is_first(s@, c, w) by {
            if 0 <= w < s@.len() {
                assert(s@[w] != c);
            }
        }
    }
    None
}

/// What `str::rsplit(c).next()` gives: the part after the last `c`, or all
/// of `s` when it holds no `c`.
pub open spec fn after_last(s: Seq<char>, c: char) -> Seq<char>
    decreases s.len(),
{
    if s.len() == 0 {
        s
    } else if s.last() == c {
        Seq::<char>::empty()
    } else {
        after_last(s.drop_last(), c).push(s.last())
    }
}

pub fn after_last_of(s: &Vec<char>, c: char) -> (r: Vec<char>)
    ensures
        r@ == after_last(s@, c),
{
    let mut r: Vec<char> = Vec::new();
    let n = s.len();
    for i in 0..n
        invariant
            n == s.len(),
            r@ == after_last(s@.take(i as int), c),
    {
        assert(s@.take(i + 1).drop_last() == s@.take(i as int));
        if s[i] == c {
            r = Vec::new();
        } else {
            r.push(s[i]);
        }
    }
    assert(s@.take(n as int) == s@);
    r
}

/// `s` without leading whitespace.
pub open spec fn trim_start(s: Seq<char>) -> Seq<char>
    decreases s.len(),
{
    if s.len() > 0 && is_ws(s[0]) {
        trim_start(s.drop_first())
    } else {
        s
    }
}

/// `s` without trailing whitespace.
pub open spec fn trim_end(s: Seq<char>) -> Seq<char>
    decreases s.len(),
{
    if s.len() > 0 && is_ws(s.last()) {
        trim_end(s.drop_last())
    } else {
        s
    }
}

/// What `str::trim` gives.
pub open spec fn trim(s: Seq<char>) -> Seq<char> {
    trim_end(trim_start(s))
}

proof fn lemma_trim_start_skip(s: Seq<char>, i: int)
    requires
        0 <= i <= s.len(),
        forall|j: int| 0 <= j < i ==> is_ws(s[j]),
    ensures
        trim_start(s) == trim_start(s.skip(i)),
    decreases i,
{
    if i > 0 {
        assert(s.drop_first().skip(i - 1) == s.skip(i));
        assert(is_ws(s[0]));
        lemma_trim_start_skip(s.drop_first(), i - 1);
    } else {
        assert(s.skip(0) == s);
    }
}

proof fn lemma_trim_end_take(s: Seq<char>, i: int)
    requires
        0 <= i <= s.len(),
        forall|j: int| i <= j < s.len() ==> is_ws(s[j]),
    ensures
        trim_end(s) == trim_end(s.take(i)),
    decreases s.len() - i,
{
    if i < s.len() {
        assert(s.drop_last().take(i) == s.take(i));
        assert(is_ws(s.last()));
        lemma_trim_end_take(s.drop_last(), i);
    } else {
        assert(s.take(i) == s);
    }
}

/// `s` without leading and trailing whitespace.
pub fn trimmed(s: &Vec<char>) -> (r: Vec<char>)
    ensures
        r@ == trim(s@),
{
    let n = s.len();
    let mut a: usize = 0;
    while a < n && is_whitespace(s[a])
        invariant
            n == s.len(),
            a <= n,
            forall|j: int| 0 <= j < a ==> is_ws(s@[j]),
        decreases n - a,
    {
        a += 1;
    }
    let mut b: usize = n;
    while b > a && is_whitespace(s[b - 1])
        invariant
            n == s.len(),
            a <= b <= n,
            forall|j: int| b <= j < n ==> is_ws(s@[j]),
        decreases b,
    {
        b -= 1;
    }
    let mut r: Vec<char> = Vec::new();
    for k in a..b
        invariant
            b <= n == s.len(),
            r@ == s@.subrange(a as int, k as int),
    {
        r.push(s[k]);
        assert(r@ == s@.subrange(a as int, k + 1));
    }
    proof {
        lemma_trim_start_skip(s@, a as int);
        let t = s@.skip(a as int);
        assert(trim_start(t) == t);
        lemma_trim_end_take(t, b - a);
        assert(t.take(b - a) == s@.subrange(a as int, b as int));
    }
    r
}


/// Why a decimal number did not parse, as `core::num::IntErrorKind` names
/// the cases for unsigned integers.
#[derive(Clone, Copy, Debug, PartialEq, Eq, Structural)]
pub enum IntErrorKind {
    Empty,
    InvalidDigit,
    PosOverflow,
}

pub open spec fn is_digit(c: char) -> bool {
    48 <= (c as int) <= 57
}

pub open spec fn digit_value(c: char) -> int {
    (c as int) - 48
}

/// Digits read left to right; the first character that is no digit, or
/// the first that would take the value past `max`, decides the error.
pub open spec fn parse_digits(d: Seq<char>, max: nat) -> Result<nat, IntErrorKind>
    decreases d.len(),
{
    if d.len() == 0 {
        Ok(0nat)
    } else {
        match parse_digits(d.drop_last(), max) {
            Err(e) => Err(e),
            Ok(v) => if !is_digit(d.last()) {
                Err(IntErrorKind::InvalidDigit)
            } else if v * 10 + digit_value(d.last()) > max {
                Err(IntErrorKind::PosOverflow)
            } else {
                Ok((v * 10 + digit_value(d.last())) as nat)
            },
        }
    }
}

/// The value of `s` read as an unsigned integer no larger than `max`, the
/// way `str::parse` reads `u32` or `u64`: an optional leading `+`, then at
/// least one decimal digit and nothing else.
pub open spec fn parse_uint(s: Seq<char>, max: nat) -> Result<nat, IntErrorKind> {
    if s.len() == 0 {
        Err(IntErrorKind::Empty)
    } else {
        let d = if s[0] == '+' {
            s.drop_first()
        } else {
            s
        };
        if d.len() == 0 {
            Err(IntErrorKind::InvalidDigit)
        } else {
            parse_digits(d, max)
        }
    }
}

/// `parse_uint` with the bound of `u64`.
pub open spec fn parse_u64(s: Seq<char>) -> Result<u64, IntErrorKind> {
    match parse_uint(s, u64::MAX as nat) {
        Ok(v) => Ok(v as u64),
        Err(e) => Err(e),
    }
}

/// `parse_uint` with the bound of `u32`.
pub open spec fn parse_u32(s: Seq<char>) -> Result<u32, IntErrorKind> {
    match parse_uint(s, u32::MAX as nat) {
        Ok(v) => Ok(v as u32),
        Err(e) => Err(e),
    }
}

/// A number read under the bound `max` never exceeds it, so `parse_u64`
/// and `parse_u32` give the value that the digits spell.
pub proof fn lemma_parse_digits_bound(d: Seq<char>, max: nat)
    ensures
        parse_digits(d, max) matches Ok(v) ==> v <= max,
        parse_uint(d, max) matches Ok(v) ==> v <= max,
    decreases d.len(),
{
    if d.len() > 0 {
        lemma_parse_digits_bound(d.drop_last(), max);
        if d[0] == '+' {
            lemma_parse_digits_bound(d.drop_first(), max);
        }
    }
}

proof fn lemma_parse_digits_err_prefix(d: Seq<char>, k: int, max: nat)
    requires
        0 <= k <= d.len(),
        parse_digits(d.take(k), max) is Err,
    ensures
        parse_digits(d, max) == parse_digits(d.take(k), max),
    decreases d.len() - k,
{
    if k < d.len() {
        assert(d.drop_last().take(k) == d.take(k));
        lemma_parse_digits_err_prefix(d.drop_last(), k, max);
    } else {
        assert(d.take(k) == d);
    }
}

/// Reads `s` as an unsigned integer no larger than `max`, as `parse_uint`
/// describes.
pub fn parse_uint_chars(s: &Vec<char>, max: u64) -> (r: Result<u64, IntErrorKind>)
    ensures
        match r {
            Ok(v) => parse_uint(s@, max as nat) == Ok::<nat, IntErrorKind>(v as nat),
            Err(e) => parse_uint(s@, max as nat) == Err::<nat, IntErrorKind>(e),
        },
{
    let n = s.len();
    if n == 0 {
        return Err(IntErrorKind::Empty);
    }
    let start: usize = if s[0] == '+' {
        1
    } else {
        0
    };
    if start == n {
        return Err(IntErrorKind::InvalidDigit);
    }
    let ghost d = if s@[0] == '+' {
        s@.drop_first()
    } else {
        s@
    };
    assert(d == s@.subrange(start as int, n as int));
    assert(parse_uint(s@, max as nat) == parse_digits(d, max as nat));
    let mut v: u64 = 0;
    let mut i: usize = start;
    while i < n
        invariant
            n == s.len(),
            start <= i <= n,
            start < n,
            d == s@.subrange(start as int, n as int),
            parse_uint(s@, max as nat) == parse_digits(d, max as nat),
            parse_digits(d.take(i - start), max as nat) == Ok::<nat, IntErrorKind>(v as nat),
            v <= max,
        decreases n - i,
    {
        let ghost k = i - start;
        assert(d.take(k + 1).drop_last() == d.take(k));
        assert(d.take(k + 1).last() == s@[i as int]);
        let c = s[i];
        let u = code_point(c);
        if u < 48 || u > 57 {
            proof {
                assert(!is_digit(d.take(k + 1).last()));
                assert(parse_digits(d.take(k + 1), max as nat) == Err::<nat, IntErrorKind>(
                    IntErrorKind::InvalidDigit,
                ));
                lemma_parse_digits_err_prefix(d, k + 1, max as nat);
            }
            return Err(IntErrorKind::InvalidDigit);
        }
        let dg: u64 = (u - 48) as u64;
        if dg > max || v > (max - dg) / 10 {
            assert(v * 10 + dg > max) by (nonlinear_arith)
                requires
                    dg > max || v > (max - dg) / 10,
                    dg <= 9,
            ;
            proof {
                assert(is_digit(d.take(k + 1).last()));
                assert(digit_value(d.take(k + 1).last()) == dg);
                assert(parse_digits(d.take(k + 1), max as nat) == Err::<nat, IntErrorKind>(
                    IntErrorKind::PosOverflow,
                ));
                lemma_parse_digits_err_prefix(d, k + 1, max as nat);
            }
            return Err(IntErrorKind::PosOverflow);
        }
        assert(v * 10 + dg <= max) by (nonlinear_arith)
            requires
                v <= (max - dg) / 10,
                dg <= max,
                dg <= 9,
        ;
        v = v * 10 + dg;
        i += 1;
    }
    assert(d.take(n - start) == d);
    Ok(v)
}

/// Reads `s` as a `u64`, as `parse_u64` describes.
pub fn parse_u64_chars(s: &Vec<char>) -> (r: Result<u64, IntErrorKind>)
    ensures
        r == parse_u64(s@),
{
    parse_uint_chars(s, u64::MAX)
}

/// Reads `s` as a `u32`, as `parse_u32` describes.
pub fn parse_u32_chars(s: &Vec<char>) -> (r: Result<u32, IntErrorKind>)
    ensures
        r == parse_u32(s@),
{
    match parse_uint_chars(s, 4294967295u64) {
        Ok(v) => Ok(v as u32),
        Err(e) => Err(e),
    }
}

/// The decimal digits of `n`, most significant first, without leading zeros.
pub open spec fn decimal(n: nat) -> Seq<char>
    decreases n,
{
    if n < 10 {
        seq![(n + 48) as char]
    } else {
        decimal(n / 10).push((n % 10 + 48) as char)
    }
}

/// Every character of `decimal(n)` is a digit, and there is at least one.
pub proof fn lemma_decimal_digits(n: nat)
    ensures
        decimal(n).len() > 0,
        forall|i: int| 0 <= i < decimal(n).len() ==> is_digit(#[trigger] decimal(n)[i]),
    decreases n,
{
    if n >= 10 {
        lemma_decimal_digits(n / 10);
        let p = decimal(n / 10);
        let c = ((n % 10 + 48) as char);
        assert(decimal(n) == p.push(c));
        assert forall|i: int| 0 <= i < decimal(n).len() implies is_digit(#[trigger] decimal(n)[i]) by {
            if i < p.len() {
                assert(decimal(n)[i] == p[i]);
            }
        }
    }
}

/// The decimal digits of a number no larger than `max` read back as that
/// number.
pub proof fn lemma_parse_decimal(n: nat, max: nat)
    requires
        n <= max,
    ensures
        parse_digits(decimal(n), max) == Ok::<nat, IntErrorKind>(n),
        parse_uint(decimal(n), max) == Ok::<nat, IntErrorKind>(n),
    decreases n,
{
    lemma_decimal_digits(n);
    if n < 10 {
        let d = decimal(n);
        assert(d.drop_last() =~= Seq::<char>::empty());
        assert(d.last() == ((n + 48) as char));
        assert(digit_value(d.last()) == n);
        assert(parse_digits(d.drop_last(), max) == Ok::<nat, IntErrorKind>(0));
    } else {
        lemma_parse_decimal(n / 10, max);
        let d = decimal(n);
        assert(d.drop_last() == decimal(n / 10));
        assert(d.last() == ((n % 10 + 48) as char));
        assert(digit_value(d.last()) == n % 10);
        assert((n / 10) * 10 + n % 10 == n) by (nonlinear_arith);
    }
    assert(decimal(n)[0] != '+') by {
        assert(is_digit(decimal(n)[0]));
    }
}

/// Text without whitespace at its ends, followed by whitespace, trims to
/// itself.
pub proof fn lemma_trim_digits(s: Seq<char>, tail: Seq<char>)
    requires
        s.len() > 0,
        !is_ws(s[0]),
        !is_ws(s.last()),
        forall|i: int| 0 <= i < tail.len() ==> is_ws(#[trigger] tail[i]),
    ensures
        trim(s + tail) == s,
    decreases tail.len(),
{
    if tail.len() > 0 {
        let t2 = tail.drop_last();
        assert forall|i: int| 0 <= i < t2.len() implies is_ws(#[trigger] t2[i]) by {
            assert(t2[i] == tail[i]);
        }
        lemma_trim_digits(s, t2);
        assert((s + tail)[0] == s[0]);
        assert(trim_start(s + tail) == s + tail);
        assert(trim_start(s + t2) == s + t2);
        assert((s + tail).drop_last() == s + t2);
        assert(is_ws((s + tail).last()));
    } else {
        assert(s + tail == s);
    }
}

/// Cutting `a + b` where `a` is empty or ends in `sep`: the pieces of `a`
/// but its empty last one, then the pieces of `b`.
pub proof fn lemma_pieces_append(a: Seq<char>, b: Seq<char>, sep: char)
    requires
        a.len() == 0 || a.last() == sep,
    ensures
        pieces(a + b, sep) == pieces(a, sep).drop_last() + pieces(b, sep),
    decreases b.len(),
{
    if b.len() == 0 {
        assert(a + b =~= a);
        if a.len() == 0 {
            assert(pieces(a, sep).drop_last() + pieces(b, sep) =~= pieces(a, sep));
        } else {
            assert(pieces(a, sep).drop_last() + pieces(b, sep) =~= pieces(a, sep));
        }
    } else {
        let b2 = b.drop_last();
        let c = b.last();
        lemma_pieces_append(a, b2, sep);
        lemma_pieces_nonempty(b2, sep);
        assert((a + b).drop_last() =~= a + b2);
        assert((a + b).last() == c);
        let x = pieces(a, sep).drop_last();
        let y = pieces(b2, sep);
        if c == sep {
            assert((x + y).push(Seq::<char>::empty()) =~= x + y.push(Seq::<char>::empty()));
        } else {
            assert((x + y).last() == y.last());
            assert((x + y).update((x + y).len() - 1, (x + y).last().push(c)) =~= x + y.update(
                y.len() - 1,
                y.last().push(c),
            ));
        }
    }
}

/// Text without `sep` is one piece.
pub proof fn lemma_pieces_none(s: Seq<char>, sep: char)
    requires
        forall|i: int| 0 <= i < s.len() ==> s[i] != sep,
    ensures
        pieces(s, sep) == seq![s],
    decreases s.len(),
{
    if s.len() == 0 {
        assert(s =~= Seq::<char>::empty());
    } else {
        let s2 = s.drop_last();
        assert(s[s.len() - 1] != sep);
        assert forall|i: int| 0 <= i < s2.len() implies s2[i] != sep by {
            assert(s2[i] == s[i]);
        }
        lemma_pieces_none(s2, sep);
        assert(s2.push(s.last()) =~= s);
        assert(seq![s2].update(0, s2.push(s.last())) =~= seq![s]);
    }
}

/// A word without whitespace is one token.
pub proof fn lemma_tokens_word(k: Seq<char>)
    requires
        k.len() > 0,
        forall|i: int| 0 <= i < k.len() ==> !is_ws(#[trigger] k[i]),
    ensures
        tokens(k) == seq![k],
    decreases k.len(),
{
    let k2 = k.drop_last();
    assert(!is_ws(k[k.len() - 1]));
    if k2.len() == 0 {
        assert(tokens(k2) == Seq::<Seq<char>>::empty());
        assert(seq![k.last()] =~= k);
        assert(tokens(k) == Seq::<Seq<char>>::empty().push(seq![k.last()]));
        assert(Seq::<Seq<char>>::empty().push(seq![k.last()]) =~= seq![k]);
    } else {
        assert forall|i: int| 0 <= i < k2.len() implies !is_ws(#[trigger] k2[i]) by {
            assert(k2[i] == k[i]);
        }
        lemma_tokens_word(k2);
        assert(k[k.len() - 2] == k2.last());
        assert(!is_ws(k[k.len() - 2]));
        assert(k2.push(k.last()) =~= k);
        assert(seq![k2].update(0, k2.push(k.last())) =~= seq![k]);
    }
}

/// Two words without whitespace, a space between them, are two tokens.
pub proof fn lemma_tokens_two_words(x: Seq<char>, y: Seq<char>)
    requires
        x.len() > 0,
        y.len() > 0,
        forall|i: int| 0 <= i < x.len() ==> !is_ws(#[trigger] x[i]),
        forall|i: int| 0 <= i < y.len() ==> !is_ws(#[trigger] y[i]),
    ensures
        tokens(x + seq![' '] + y) == seq![x, y],
    decreases y.len(),
{
    let s = x + seq![' '] + y;
    let y2 = y.drop_last();
    assert(s.drop_last() =~= x + seq![' '] + y2);
    assert(s.last() == y.last());
    assert(!is_ws(y[y.len() - 1]));
    if y2.len() == 0 {
        lemma_tokens_word(x);
        let xs = x + seq![' '];
        assert(xs.drop_last() =~= x);
        assert(is_ws(xs.last()));
        assert(tokens(xs) == seq![x]);
        assert(s.drop_last() =~= xs);
        assert(s[s.len() - 2] == ' ');
        assert(seq![y.last()] =~= y);
        assert(seq![x].push(seq![y.last()]) =~= seq![x, y]);
    } else {
        assert forall|i: int| 0 <= i < y2.len() implies !is_ws(#[trigger] y2[i]) by {
            assert(y2[i] == y[i]);
        }
        lemma_tokens_two_words(x, y2);
        assert(s[s.len() - 2] == y2.last());
        assert(!is_ws(y[y.len() - 2]));
        assert(y2.push(y.last()) =~= y);
        assert(seq![x, y2].update(1, y2.push(y.last())) =~= seq![x, y]);
    }
}

/// Appends the decimal digits of `n` to `out`.
pub fn push_decimal(out: &mut Vec<char>, n: u64)
    ensures
        final(out)@ == old(out)@ + decimal(n as nat),
    decreases n,
{
    if n >= 10 {
        push_decimal(out, n / 10);
    }
    let d = (n % 10) as u8;
    let c = (d + 48u8) as char;
    out.push(c);
}


/// `a` sorts before `b`: the order of `String`, which compares the UTF-8
/// bytes and so the code points one by one, a proper prefix first.
pub open spec fn chars_lt(a: Seq<char>, b: Seq<char>) -> bool
    decreases a.len(),
{
    if a.len() == 0 {
        b.len() > 0
    } else if b.len() == 0 {
        false
    } else if a[0] != b[0] {
        (a[0] as int) < (b[0] as int)
    } else {
        chars_lt(a.drop_first(), b.drop_first())
    }
}

proof fn lemma_chars_lt_skip(a: Seq<char>, b: Seq<char>, i: int)
    requires
        0 <= i <= a.len(),
        i <= b.len(),
        forall|j: int| 0 <= j < i ==> a[j] == b[j],
    ensures
        chars_lt(a, b) == chars_lt(a.skip(i), b.skip(i)),
    decreases i,
{
    if i > 0 {
        assert(a.drop_first().skip(i - 1) == a.skip(i));
        assert(b.drop_first().skip(i - 1) == b.skip(i));
        lemma_chars_lt_skip(a.drop_first(), b.drop_first(), i - 1);
    } else {
        assert(a.skip(0) == a);
        assert(b.skip(0) == b);
    }
}

/// Sorting before is transitive.
pub proof fn lemma_chars_lt_transitive(a: Seq<char>, b: Seq<char>, c: Seq<char>)
    requires
        chars_lt(a, b),
        chars_lt(b, c),
    ensures
        chars_lt(a, c),
    decreases a.len(),
{
    if a.len() > 0 && b.len() > 0 && c.len() > 0 {
        if a[0] == b[0] && b[0] == c[0] {
            lemma_chars_lt_transitive(a.drop_first(), b.drop_first(), c.drop_first());
        }
    }
}

/// No sequence sorts before itself.
pub proof fn lemma_chars_lt_irreflexive(a: Seq<char>)
    ensures
        !chars_lt(a, a),
    decreases a.len(),
{
    if a.len() > 0 {
        lemma_chars_lt_irreflexive(a.drop_first());
    }
}

/// Of two different sequences exactly one sorts first.
pub proof fn lemma_chars_lt_trichotomy(a: Seq<char>, b: Seq<char>)
    ensures
        !(chars_lt(a, b) && chars_lt(b, a)),
        a != b ==> chars_lt(a, b) || chars_lt(b, a),
    decreases a.len(),
{
    if a.len() > 0 && b.len() > 0 {
        lemma_chars_lt_trichotomy(a.drop_first(), b.drop_first());
        if a[0] == b[0] && a != b {
            assert(a.drop_first() != b.drop_first()) by {
                if a.drop_first() == b.drop_first() {
                    assert(a =~= b) by {
                        assert forall|j: int| 0 <= j < a.len() implies a[j] == b[j] by {
                            if j > 0 {
                                assert(a[j] == a.drop_first()[j - 1]);
                                assert(b[j] == b.drop_first()[j - 1]);
                            }
                        }
                    }
                }
            }
        } else if a[0] != b[0] {
            assert((a[0] as int) != (b[0] as int));
        }
    } else if a.len() == 0 && b.len() == 0 {
        assert(a =~= b);
    }
}

/// Whether `a` sorts before `b`.
pub fn chars_less(a: &Vec<char>, b: &Vec<char>) -> (r: bool)
    ensures
        r == chars_lt(a@, b@),
{
    let mut i: usize = 0;
    while i < a.len() && i < b.len()
        invariant
            i <= a.len(),
            i <= b.len(),
            forall|j: int| 0 <= j < i ==> a@[j] == b@[j],
        decreases a.len() - i,
    {
        if a[i] != b[i] {
            proof {
                lemma_chars_lt_skip(a@, b@, i as int);
                assert(a@.skip(i as int)[0] == a@[i as int]);
                assert(b@.skip(i as int)[0] == b@[i as int]);
            }
            return code_point(a[i]) < code_point(b[i]);
        }
        i += 1;
    }
    proof {
        lemma_chars_lt_skip(a@, b@, i as int);
    }
    i == a.len() && i < b.len()
}

/// Whether `a` and `b` hold the same characters.
pub fn chars_equal(a: &Vec<char>, b: &Vec<char>) -> (r: bool)
    ensures
        r == (a@ == b@),
{
    if a.len() != b.len() {
        return false;
    }
    let mut i: usize = 0;
    while i < a.len()
        invariant
            a.len() == b.len(),
            i <= a.len(),
            forall|j: int| 0 <= j < i ==> a@[j] == b@[j],
        decreases a.len() - i,
    {
        if a[i] != b[i] {
            return false;
        }
        i += 1;
    }
    assert(a@ =~= b@);
    true
}

/// Whether the characters of `a` are those of `b`.
pub fn chars_equal_str(a: &Vec<char>, b: &str) -> (r: bool)
    ensures
        r == (a@ == b@),
{
    let bc = chars_of(b);
    chars_equal(a, &bc)
}

/// Appends the characters of `s` to `out`.
pub fn push_chars(out: &mut Vec<char>, s: &Vec<char>)
    ensures
        final(out)@ == old(out)@ + s@,
{
    let ghost start = out@;
    for i in 0..s.len()
        invariant
            out@ == start + s@.take(i as int),
    {
        out.push(s[i]);
        assert(s@.take(i + 1) == s@.take(i as int).push(s@[i as int]));
    }
    assert(s@.take(s@.len() as int) == s@);
}

/// Appends the characters of `s` to `out`.
pub fn push_str(out: &mut Vec<char>, s: &str)
    ensures
        final(out)@ == old(out)@ + s@,
{
    let c = chars_of(s);
    push_chars(out, &c);
}

/// A `String` holding the characters of `v`.
///
/// Trusted: calls std's `FromIterator<&char>` for `String`, which the
/// documentation describes as pushing each character in turn.
#[verifier::external_body]
pub fn string_from_chars(v: &Vec<char>) -> (r: String)
    ensures
        r@ == v@,
{
    v.iter().collect()
}


/// `c` with ASCII capitals made small, as `u8::to_ascii_lowercase` does.
pub open spec fn ascii_lower(c: char) -> char {
    if 65 <= (c as int) <= 90 {
        ((c as int) + 32) as char
    } else {
        c
    }
}

pub open spec fn lower_ascii(s: Seq<char>) -> Seq<char> {
    s.map_values(|c: char| ascii_lower(c))
}

pub open spec fn all_digits(s: Seq<char>) -> bool {
    forall|i: int| 0 <= i < s.len() ==> is_digit(#[trigger] s[i])
}

/// `Digit+ | Digit+ '.' Digit* | Digit* '.' Digit+`
pub open spec fn is_mantissa(m: Seq<char>) -> bool {
    match split_once(m, '.') {
        Some((a, b)) => all_digits(a) && all_digits(b) && a.len() + b.len() > 0,
        None => all_digits(m) && m.len() > 0,
    }
}

/// `Sign? Digit+`, the part after the `e`.
pub open spec fn is_exponent(e: Seq<char>) -> bool {
    let d = if e.len() > 0 && (e[0] == '+' || e[0] == '-') {
        e.drop_first()
    } else {
        e
    };
    d.len() > 0 && all_digits(d)
}

/// The grammar that the documentation of `f64`'s `FromStr` gives for the
/// texts it accepts, after ASCII lowercasing:
/// `Sign? ( 'inf' | 'infinity' | 'nan' | Number )`, where
/// `Number ::= Mantissa ('e' Sign? Digit+)?`.
pub open spec fn is_float_literal(s: Seq<char>) -> bool {
    let b = if s.len() > 0 && (s[0] == '+' || s[0] == '-') {
        s.drop_first()
    } else {
        s
    };
    let l = lower_ascii(b);
    ||| l == seq!['i', 'n', 'f']
    ||| l == seq!['i', 'n', 'f', 'i', 'n', 'i', 't', 'y']
    ||| l == seq!['n', 'a', 'n']
    ||| match split_once(l, 'e') {
        Some((m, e)) => is_mantissa(m) && is_exponent(e),
        None => is_mantissa(l),
    }
}

fn digits_only(s: &Vec<char>) -> (r: bool)
    ensures
        r == all_digits(s@),
{
    for i in 0..s.len()
        invariant
            forall|j: int| 0 <= j < i ==> is_digit(#[trigger] s@[j]),
    {
        let u = code_point(s[i]);
        if u < 48 || u > 57 {
            return false;
        }
    }
    true
}

fn mantissa_ok(m: &Vec<char>) -> (r: bool)
    ensures
        r == is_mantissa(m@),
{
    match split_once_at(m, '.') {
        Some((a, b)) => digits_only(&a) && digits_only(&b) && (a.len() > 0 || b.len() > 0),
        None => digits_only(m) && m.len() > 0,
    }
}

fn exponent_ok(e: &Vec<char>) -> (r: bool)
    ensures
        r == is_exponent(e@),
{
    let mut d: Vec<char> = Vec::new();
    let start: usize = if e.len() > 0 && (e[0] == '+' || e[0] == '-') {
        1
    } else {
        0
    };
    for i in start..e.len()
        invariant
            start <= e.len(),
            d@ == e@.subrange(start as int, i as int),
    {
        d.push(e[i]);
        assert(d@ == e@.subrange(start as int, i + 1));
    }
    assert(d@ == e@.subrange(start as int, e@.len() as int));
    assert(start == 1 ==> e@.drop_first() == d@);
    assert(start == 0 ==> e@ == d@);
    d.len() > 0 && digits_only(&d)
}

fn lowered(s: &Vec<char>, start: usize) -> (r: Vec<char>)
    requires
        start <= s.len(),
    ensures
        r@ == lower_ascii(s@.skip(start as int)),
{
    let mut r: Vec<char> = Vec::new();
    for i in start..s.len()
        invariant
            start <= s.len(),
            r@ == lower_ascii(s@.subrange(start as int, i as int)),
    {
        let c = s[i];
        let u = code_point(c);
        let l = if 65 <= u && u <= 90 {
            ((u + 32) as u8) as char
        } else {
            c
        };
        r.push(l);
        assert(lower_ascii(s@.subrange(start as int, i + 1)) == lower_ascii(
            s@.subrange(start as int, i as int),
        ).push(ascii_lower(c)));
    }
    assert(s@.subrange(start as int, s@.len() as int) == s@.skip(start as int));
    r
}

/// Whether `s` is a number that `f64`'s `FromStr` accepts, as
/// `is_float_literal` describes.
pub fn float_literal_ok(s: &Vec<char>) -> (r: bool)
    ensures
        r == is_float_literal(s@),
{
    let start: usize = if s.len() > 0 && (s[0] == '+' || s[0] == '-') {
        1
    } else {
        0
    };
    let l = lowered(s, start);
    assert(start == 0 ==> s@.skip(0) == s@);
    let inf = chars_of("inf");
    let infinity = chars_of("infinity");
    let nan = chars_of("nan");
    proof {
        reveal_strlit("inf");
        reveal_strlit("infinity");
        reveal_strlit("nan");
        assert(inf@ == seq!['i', 'n', 'f']);
        assert(infinity@ == seq!['i', 'n', 'f', 'i', 'n', 'i', 't', 'y']);
        assert(nan@ == seq!['n', 'a', 'n']);
    }
    if chars_equal(&l, &inf) || chars_equal(&l, &infinity) || chars_equal(&l, &nan) {
        return true;
    }
    match split_once_at(&l, 'e') {
        Some((m, e)) => mantissa_ok(&m) && exponent_ok(&e),
        None => mantissa_ok(&l),
    }
}

} // verus!
