//! What the command line can ask for, and the checks on its values.

use vstd::prelude::*;

use crate::doc::digits_value;
use crate::text::{ascii_lower, chars_of};

verus! {

/// How images are drawn.
#[derive(Clone, Copy, Debug, PartialEq, Eq, Structural)]
pub enum ImageProtocol {
    /// Ask the terminal what it supports.
    Auto,
    /// Kitty graphics with Unicode placeholders, without asking first.
    Kitty,
    /// Two pixels per cell, drawn with half-block characters. Works anywhere.
    Halfblocks,
}

/// How much is written to the log file, from nothing to everything.
#[derive(Clone, Copy, Debug, PartialEq, Eq, Structural)]
pub enum LogLevel {
    Off,
    Error,
    Warn,
    Info,
    Debug,
    Trace,
}

/// What a bad log level is answered with: the levels, spelled out.
pub const LOG_LEVEL_HELP: &'static str = "expected one of: off, error, warn, info, debug, trace";

/// What a bad cell size is answered with.
pub const CELL_SIZE_HELP: &'static str = "expected WIDTHxHEIGHT in pixels, like 10x20";

/// Whether `s` and `name` are equal up to ASCII case.
pub open spec fn eq_ignore_ascii_case(s: Seq<char>, name: Seq<char>) -> bool {
    s.len() == name.len() && forall|i: int| 0 <= i < s.len() ==> ascii_lower(#[trigger] s[i]) == ascii_lower(name[i])
}

/// The log level named `s`, in any ASCII case; `None` if `s` names none.
pub open spec fn spec_level_of(s: Seq<char>) -> Option<LogLevel> {
    if eq_ignore_ascii_case(s, "OFF"@) {
        Some(LogLevel::Off)
    } else if eq_ignore_ascii_case(s, "ERROR"@) {
        Some(LogLevel::Error)
    } else if eq_ignore_ascii_case(s, "WARN"@) {
        Some(LogLevel::Warn)
    } else if eq_ignore_ascii_case(s, "INFO"@) {
        Some(LogLevel::Info)
    } else if eq_ignore_ascii_case(s, "DEBUG"@) {
        Some(LogLevel::Debug)
    } else if eq_ignore_ascii_case(s, "TRACE"@) {
        Some(LogLevel::Trace)
    } else {
        None
    }
}

/// `LevelFilter::from_str` of log. Its source compares `s` with `eq_ignore_ascii_case`
/// against the names OFF, ERROR, WARN, INFO, DEBUG and TRACE, in that order,
/// and gives the level of the first that matches, or an error.
#[verifier::external_body]
fn level_filter_from_str(s: &str) -> (r: Option<LogLevel>)
    ensures
        r == spec_level_of(s@),
{
    match s.parse::<log::LevelFilter>() {
        Ok(log::LevelFilter::Off) => Some(LogLevel::Off),
        Ok(log::LevelFilter::Error) => Some(LogLevel::Error),
        Ok(log::LevelFilter::Warn) => Some(LogLevel::Warn),
        Ok(log::LevelFilter::Info) => Some(LogLevel::Info),
        Ok(log::LevelFilter::Debug) => Some(LogLevel::Debug),
        Ok(log::LevelFilter::Trace) => Some(LogLevel::Trace),
        Err(_) => None,
    }
}

/// Parses a log level, in any case. The error spells the levels out, which
/// the log crate's own parse error does not.
pub fn parse_log_level(value: &str) -> (r: Result<LogLevel, String>)
    ensures
        match r {
            Ok(l) => spec_level_of(value@) == Some(l),
            Err(e) => spec_level_of(value@) is None && e@ == LOG_LEVEL_HELP@,
        },
{
    match level_filter_from_str(value) {
        Some(l) => Ok(l),
        None => Err(LOG_LEVEL_HELP.to_string()),
    }
}

/// A terminal cell's size in pixels.
#[derive(Clone, Copy, Debug, PartialEq, Eq, Structural)]
pub struct CellSize {
    pub width: u16,
    pub height: u16,
}

/// `s` split at its first `c`, as `str::split_once` does it.
pub open spec fn spec_split_once(s: Seq<char>, c: char) -> Option<(Seq<char>, Seq<char>)>
    decreases s.len(),
{
    if s.len() == 0 {
        None
    } else if s[0] == c {
        Some((Seq::empty(), s.drop_first()))
    } else {
        match spec_split_once(s.drop_first(), c) {
            Some((a, b)) => Some((seq![s[0]] + a, b)),
            None => None,
        }
    }
}

/// Whether `s` is one or more ASCII digits.
pub open spec fn all_digits(s: Seq<char>) -> bool {
    s.len() > 0 && forall|i: int| 0 <= i < s.len() ==> '0' <= #[trigger] s[i] && s[i] <= '9'
}

/// `s` read as a `u16` the way `str::parse` reads one: an optional `+`, then
/// decimal digits whose value fits.
pub open spec fn spec_parse_u16(s: Seq<char>) -> Option<u16> {
    let body = if s.len() > 0 && s[0] == '+' { s.drop_first() } else { s };
    if all_digits(body) && digits_value(body) <= u16::MAX {
        Some(digits_value(body) as u16)
    } else {
        None
    }
}

/// `WxH` read as a cell size; `None` unless both parts are numbers and
/// neither is zero.
pub open spec fn spec_cell_size(s: Seq<char>) -> Option<(u16, u16)> {
    match spec_split_once(s, 'x') {
        Some((a, b)) => match (spec_parse_u16(a), spec_parse_u16(b)) {
            (Some(w), Some(h)) => if w > 0 && h > 0 { Some((w, h)) } else { None },
            _ => None,
        },
        None => None,
    }
}

pub proof fn lemma_digits_value_prefix(s: Seq<char>, k: int)
    requires
        0 <= k <= s.len(),
    ensures
        digits_value(s.take(k)) <= digits_value(s),
    decreases s.len() - k,
{
    if k < s.len() {
        lemma_digits_value_prefix(s, k + 1);
        assert(s.take(k + 1).drop_last() =~= s.take(k));
        let last = s.take(k + 1).last();
        assert(digits_value(s.take(k + 1)) == digits_value(s.take(k)) * 10 + ((last as int - 48) as nat));
    } else {
        assert(s.take(k) =~= s);
    }
}

/// Reads `cs[from..to]` as a `u16`.
fn parse_u16(cs: &Vec<char>, from: usize, to: usize) -> (r: Option<u16>)
    requires
        from <= to <= cs@.len(),
    ensures
        r == spec_parse_u16(cs@.subrange(from as int, to as int)),
{
    let ghost s = cs@.subrange(from as int, to as int);
    let mut i = from;
    if i < to && cs[i] == '+' {
        i = i + 1;
    }
    let ghost body = if s.len() > 0 && s[0] == '+' { s.drop_first() } else { s };
    assert(body =~= cs@.subrange(i as int, to as int));
    if i == to {
        return None;
    }
    let start = i;
    let mut acc: u32 = 0;
    while i < to
        invariant
            start <= i <= to <= cs@.len(),
            s == cs@.subrange(from as int, to as int),
            body == (if s.len() > 0 && s[0] == '+' { s.drop_first() } else { s }),
            body == cs@.subrange(start as int, to as int),
            body.len() > 0,
            forall|k: int| 0 <= k < i - start ==> '0' <= #[trigger] body[k] && body[k] <= '9',
            acc == digits_value(body.take(i - start)),
            acc <= u16::MAX,
        decreases to - i,
    {
        let c = cs[i];
        if !('0' <= c && c <= '9') {
            assert(body[i - start] == c);
            return None;
        }
        let d = (c as u32) - 48;
        assert(body.take(i - start + 1).drop_last() =~= body.take(i - start));
        acc = acc * 10 + d;
        i = i + 1;
        if acc > 65535 {
            proof {
                lemma_digits_value_prefix(body, i - start);
            }
            return None;
        }
    }
    assert(body.take(i - start) =~= body);
    Some(acc as u16)
}

/// Parses `WxH`, like `10x20`. A zero either way is rejected: image layout
/// divides by it.
pub fn parse_cell_size(value: &str) -> (r: Result<CellSize, String>)
    ensures
        match r {
            Ok(c) => spec_cell_size(value@) == Some((c.width, c.height)),
            Err(e) => spec_cell_size(value@) is None && e@ == CELL_SIZE_HELP@,
        },
{
    let cs = chars_of(value);
    let mut i: usize = 0;
    while i < cs.len() && cs[i] != 'x'
        invariant
            i <= cs@.len(),
            forall|k: int| 0 <= k < i ==> cs@[k] != 'x',
        decreases cs@.len() - i,
    {
        i = i + 1;
    }
    proof { lemma_split_once_at(cs@, 'x', i as int); }
    if i == cs.len() {
        return Err(CELL_SIZE_HELP.to_string());
    }
    let w = parse_u16(&cs, 0, i);
    let h = parse_u16(&cs, i + 1, cs.len());
    match (w, h) {
        (Some(w), Some(h)) => if w > 0 && h > 0 {
            Ok(CellSize { width: w, height: h })
        } else {
            Err(CELL_SIZE_HELP.to_string())
        },
        _ => Err(CELL_SIZE_HELP.to_string()),
    }
}

/// Where `split_once` splits: at the first `c`, if there is one.
pub proof fn lemma_split_once_at(s: Seq<char>, c: char, i: int)
    requires
        0 <= i <= s.len(),
        forall|k: int| 0 <= k < i ==> s[k] != c,
        i < s.len() ==> s[i] == c,
    ensures
        i == s.len() ==> spec_split_once(s, c) is None,
        i < s.len() ==> spec_split_once(s, c) == Some((s.take(i), s.skip(i + 1))),
    decreases s.len(),
{
    if s.len() > 0 {
        if i > 0 {
            let t = s.drop_first();
            assert forall|k: int| 0 <= k < i - 1 implies t[k] != c by {
                assert(t[k] == s[k + 1]);
            }
            lemma_split_once_at(t, c, i - 1);
            if i < s.len() {
                assert(seq![s[0]] + t.take(i - 1) =~= s.take(i));
                assert(t.skip(i) =~= s.skip(i + 1));
            }
        } else {
            assert(s.take(0) =~= Seq::<char>::empty());
            assert(s.skip(1) =~= s.drop_first());
        }
    }
}

} // verus!
