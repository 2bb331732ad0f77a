//! Parser for the pressure stall information (PSI) files `cpu.pressure`,
//! `memory.pressure` and `io.pressure`.
//!
//! The averages are percentages that the kernel writes as decimal text. The
//! parser checks that each is a number that `f64` reads and keeps its text;
//! turning it into a float is left to the caller.

use crate::collector::error::{ParseError, ParseErrorView, PressureField};
use crate::text::{
    chars_equal_str, chars_of, float_literal_ok, is_float_literal, lines, parse_u64,
    parse_u64_chars, split_lines, split_once, split_once_at, split_tokens, string_from_chars,
    tokens, views,
};
use vstd::prelude::*;

verus! {

/// One line of a pressure file: the share of time stalled over the last 10,
/// 60 and 300 seconds, as text, and the total stall time in microseconds.
#[derive(Clone, Debug, PartialEq)]
pub struct PressureLine {
    pub avg10: String,
    pub avg60: String,
    pub avg300: String,
    pub total_usec: u64,
}

pub struct PressureLineView {
    pub avg10: Seq<char>,
    pub avg60: Seq<char>,
    pub avg300: Seq<char>,
    pub total_usec: u64,
}

impl View for PressureLine {
    type V = PressureLineView;

    open spec fn view(&self) -> PressureLineView {
        PressureLineView {
            avg10: self.avg10@,
            avg60: self.avg60@,
            avg300: self.avg300@,
            total_usec: self.total_usec,
        }
    }
}

/// A pressure file: the `some` line, and the `full` line where there is one.
#[derive(Clone, Debug, PartialEq)]
pub struct Pressure {
    pub some: PressureLine,
    pub full: Option<PressureLine>,
}

pub struct PressureView {
    pub some: PressureLineView,
    pub full: Option<PressureLineView>,
}

pub open spec fn line_view(o: Option<PressureLine>) -> Option<PressureLineView> {
    match o {
        Some(l) => Some(l@),
        None => None,
    }
}

impl View for Pressure {
    type V = PressureView;

    open spec fn view(&self) -> PressureView {
        PressureView { some: self.some@, full: line_view(self.full) }
    }
}

/// The fields of a pressure line found so far.
pub struct PressureFields {
    pub avg10: Option<Seq<char>>,
    pub avg60: Option<Seq<char>>,
    pub avg300: Option<Seq<char>>,
    pub total: Option<u64>,
}

/// The `key=value` fields of a pressure line read in order: a later key
/// wins, unknown keys are ignored, and the first bad field decides the
/// error.
pub open spec fn pressure_pairs(ts: Seq<Seq<char>>) -> Result<PressureFields, ParseErrorView>
    decreases ts.len(),
{
    if ts.len() == 0 {
        Ok(PressureFields { avg10: None, avg60: None, avg300: None, total: None })
    } else {
        match pressure_pairs(ts.drop_last()) {
            Err(e) => Err(e),
            Ok(f) => match split_once(ts.last(), '=') {
                None => Err(ParseErrorView::MalformedPressurePair { part: ts.last() }),
                Some((k, v)) => if k == "avg10"@ {
                    if is_float_literal(v) {
                        Ok(PressureFields { avg10: Some(v), avg60: f.avg60, avg300: f.avg300, total: f.total })
                    } else {
                        Err(ParseErrorView::BadPressureAverage { field: PressureField::Avg10, value: v })
                    }
                } else if k == "avg60"@ {
                    if is_float_literal(v) {
                        Ok(PressureFields { avg10: f.avg10, avg60: Some(v), avg300: f.avg300, total: f.total })
                    } else {
                        Err(ParseErrorView::BadPressureAverage { field: PressureField::Avg60, value: v })
                    }
                } else if k == "avg300"@ {
                    if is_float_literal(v) {
                        Ok(PressureFields { avg10: f.avg10, avg60: f.avg60, avg300: Some(v), total: f.total })
                    } else {
                        Err(ParseErrorView::BadPressureAverage { field: PressureField::Avg300, value: v })
                    }
                } else if k == "total"@ {
                    match parse_u64(v) {
                        Ok(x) => Ok(PressureFields { avg10: f.avg10, avg60: f.avg60, avg300: f.avg300, total: Some(x) }),
                        Err(c) => Err(ParseErrorView::BadPressureTotal { value: v, cause: c }),
                    }
                } else {
                    Ok(f)
                },
            },
        }
    }
}

/// The fields `ts` of one pressure line (the words after its kind), or why
/// they do not make one: all four fields are required, checked in the
/// order `avg10`, `avg60`, `avg300`, `total`.
pub open spec fn pressure_line(ts: Seq<Seq<char>>) -> Result<PressureLineView, ParseErrorView> {
    match pressure_pairs(ts) {
        Err(e) => Err(e),
        Ok(f) => if f.avg10 is None {
            Err(ParseErrorView::MissingPressureField { field: PressureField::Avg10 })
        } else if f.avg60 is None {
            Err(ParseErrorView::MissingPressureField { field: PressureField::Avg60 })
        } else if f.avg300 is None {
            Err(ParseErrorView::MissingPressureField { field: PressureField::Avg300 })
        } else if f.total is None {
            Err(ParseErrorView::MissingPressureField { field: PressureField::Total })
        } else {
            Ok(
                PressureLineView {
                    avg10: f.avg10->0,
                    avg60: f.avg60->0,
                    avg300: f.avg300->0,
                    total_usec: f.total->0,
                },
            )
        },
    }
}

/// The lines of a pressure file read in order: blank lines are skipped; a
/// line's fields are read before its kind is looked at; a later `some` or
/// `full` line replaces an earlier one.
pub open spec fn pressure_fold(ls: Seq<Seq<char>>) -> Result<
    (Option<PressureLineView>, Option<PressureLineView>),
    ParseErrorView,
>
    decreases ls.len(),
{
    if ls.len() == 0 {
        Ok((None, None))
    } else {
        match pressure_fold(ls.drop_last()) {
            Err(e) => Err(e),
            Ok((some, full)) => {
                let t = tokens(ls.last());
                if t.len() == 0 {
                    Ok((some, full))
                } else {
                    match pressure_line(t.skip(1)) {
                        Err(e) => Err(e),
                        Ok(p) => if t[0] == "some"@ {
                            Ok((Some(p), full))
                        } else if t[0] == "full"@ {
                            Ok((some, Some(p)))
                        } else {
                            Err(ParseErrorView::UnknownPressureKind { kind: t[0] })
                        },
                    }
                }
            },
        }
    }
}

/// What a pressure file holds, or why it does not parse; a file without a
/// `some` line is an error.
pub open spec fn pressure_text(s: Seq<char>) -> Result<PressureView, ParseErrorView> {
    match pressure_fold(lines(s)) {
        Err(e) => Err(e),
        Ok((None, _)) => Err(ParseErrorView::MissingSomeLine),
        Ok((Some(p), f)) => Ok(PressureView { some: p, full: f }),
    }
}

proof fn lemma_pressure_pairs_err_prefix(ts: Seq<Seq<char>>, k: int)
    requires
        0 <= k <= ts.len(),
        pressure_pairs(ts.take(k)) is Err,
    ensures
        pressure_pairs(ts) == pressure_pairs(ts.take(k)),
    decreases ts.len() - k,
{
    if k < ts.len() {
        assert(ts.drop_last().take(k) == ts.take(k));
        lemma_pressure_pairs_err_prefix(ts.drop_last(), k);
    } else {
        assert(ts.take(k) == ts);
    }
}

proof fn lemma_pressure_fold_err_prefix(ls: Seq<Seq<char>>, k: int)
    requires
        0 <= k <= ls.len(),
        pressure_fold(ls.take(k)) is Err,
    ensures
        pressure_fold(ls) == pressure_fold(ls.take(k)),
    decreases ls.len() - k,
{
    if k < ls.len() {
        assert(ls.drop_last().take(k) == ls.take(k));
        lemma_pressure_fold_err_prefix(ls.drop_last(), k);
    } else {
        assert(ls.take(k) == ls);
    }
}

pub open spec fn opt_chars(o: Option<Vec<char>>) -> Option<Seq<char>> {
    match o {
        Some(v) => Some(v@),
        None => None,
    }
}

/// Reads the fields `toks[1..]` of a pressure line.
fn parse_pressure_line(toks: &Vec<Vec<char>>) -> (r: Result<PressureLine, ParseError>)
    requires
        toks.len() >= 1,
    ensures
        match r {
            Ok(p) => pressure_line(views(toks@).skip(1)) == Ok::<PressureLineView, ParseErrorView>(
                p@,
            ),
            Err(e) => pressure_line(views(toks@).skip(1)) == Err::<
                PressureLineView,
                ParseErrorView,
            >(e@),
        },
{
    let ghost ts = views(toks@).skip(1);
    let mut avg10: Option<Vec<char>> = None;
    let mut avg60: Option<Vec<char>> = None;
    let mut avg300: Option<Vec<char>> = None;
    let mut total: Option<u64> = None;
    for i in 1..toks.len()
        invariant
            toks.len() >= 1,
            ts == views(toks@).skip(1),
            pressure_pairs(ts.take(i - 1)) == Ok::<PressureFields, ParseErrorView>(
                PressureFields {
                    avg10: opt_chars(avg10),
                    avg60: opt_chars(avg60),
                    avg300: opt_chars(avg300),
                    total,
                },
            ),
    {
        assert(ts.take(i as int).drop_last() == ts.take(i - 1));
        assert(ts.take(i as int).last() == toks@[i as int]@);
        match split_once_at(&toks[i], '=') {
            None => {
                let e = ParseError::MalformedPressurePair { part: string_from_chars(&toks[i]) };
                proof {
                    lemma_pressure_pairs_err_prefix(ts, i as int);
                }
                return Err(e);
            },
            Some((k, v)) => {
                if chars_equal_str(&k, "avg10") {
                    if float_literal_ok(&v) {
                        avg10 = Some(v);
                    } else {
                        let e = ParseError::BadPressureAverage {
                            field: PressureField::Avg10,
                            value: string_from_chars(&v),
                        };
                        proof {
                            lemma_pressure_pairs_err_prefix(ts, i as int);
                        }
                        return Err(e);
                    }
                } else if chars_equal_str(&k, "avg60") {
                    if float_literal_ok(&v) {
                        avg60 = Some(v);
                    } else {
                        let e = ParseError::BadPressureAverage {
                            field: PressureField::Avg60,
                            value: string_from_chars(&v),
                        };
                        proof {
                            lemma_pressure_pairs_err_prefix(ts, i as int);
                        }
                        return Err(e);
                    }
                } else if chars_equal_str(&k, "avg300") {
                    if float_literal_ok(&v) {
                        avg300 = Some(v);
                    } else {
                        let e = ParseError::BadPressureAverage {
                            field: PressureField::Avg300,
                            value: string_from_chars(&v),
                        };
                        proof {
                            lemma_pressure_pairs_err_prefix(ts, i as int);
                        }
                        return Err(e);
                    }
                } else if chars_equal_str(&k, "total") {
                    match parse_u64_chars(&v) {
                        Ok(x) => {
                            total = Some(x);
                        },
                        Err(c) => {
                            let e = ParseError::BadPressureTotal {
                                value: string_from_chars(&v),
                                cause: c,
                            };
                            proof {
                                lemma_pressure_pairs_err_prefix(ts, i as int);
                            }
                            return Err(e);
                        },
                    }
                }
            },
        }
    }
    assert(ts.take(toks.len() - 1) == ts);
    match (avg10, avg60, avg300, total) {
        (None, _, _, _) => Err(ParseError::MissingPressureField { field: PressureField::Avg10 }),
        (_, None, _, _) => Err(ParseError::MissingPressureField { field: PressureField::Avg60 }),
        (_, _, None, _) => Err(ParseError::MissingPressureField { field: PressureField::Avg300 }),
        (_, _, _, None) => Err(ParseError::MissingPressureField { field: PressureField::Total }),
        (Some(a), Some(b), Some(c), Some(t)) => Ok(
            PressureLine {
                avg10: string_from_chars(&a),
                avg60: string_from_chars(&b),
                avg300: string_from_chars(&c),
                total_usec: t,
            },
        ),
    }
}

/// Parses a pressure file.
pub fn parse_pressure(s: &str) -> (r: Result<Pressure, ParseError>)
    ensures
        match r {
            Ok(p) => pressure_text(s@) == Ok::<PressureView, ParseErrorView>(p@),
            Err(e) => pressure_text(s@) == Err::<PressureView, ParseErrorView>(e@),
        },
{
    let chars = chars_of(s);
    let ls = split_lines(&chars);
    let ghost lv = views(ls@);
    let mut some: Option<PressureLine> = None;
    let mut full: Option<PressureLine> = None;
    for i in 0..ls.len()
        invariant
            lv == views(ls@),
            lv == lines(s@),
            pressure_fold(lv.take(i as int)) == Ok::<
                (Option<PressureLineView>, Option<PressureLineView>),
                ParseErrorView,
            >((line_view(some), line_view(full))),
    {
        assert(lv.take(i + 1).drop_last() == lv.take(i as int));
        assert(lv.take(i + 1).last() == ls@[i as int]@);
        let toks = split_tokens(&ls[i]);
        if toks.len() > 0 {
            assert(views(toks@)[0] == toks@[0]@);
            let parsed = match parse_pressure_line(&toks) {
                Ok(p) => p,
                Err(e) => {
                    proof {
                        lemma_pressure_fold_err_prefix(lv, i + 1);
                    }
                    return Err(e);
                },
            };
            if chars_equal_str(&toks[0], "some") {
                some = Some(parsed);
            } else if chars_equal_str(&toks[0], "full") {
                full = Some(parsed);
            } else {
                let e = ParseError::UnknownPressureKind { kind: string_from_chars(&toks[0]) };
                proof {
                    lemma_pressure_fold_err_prefix(lv, i + 1);
                }
                return Err(e);
            }
        }
    }
    assert(lv.take(ls.len() as int) == lv);
    match some {
        Some(p) => Ok(Pressure { some: p, full }),
        None => Err(ParseError::MissingSomeLine),
    }
}

} // verus!
