//! Syntax highlighting for fenced code blocks, via `syntect`.

use vstd::prelude::*;

use crate::style::{Color, Modifier, Span, Style, spans_view, spec_add_modifier};
use crate::text::{chars_of, string_of};
use crate::theme;

verus! {

/// One highlighted piece: its text (line ending included, where it has one),
/// its foreground color, and syntect's font-style bits.
pub type Piece = (String, u8, u8, u8, u8);

/// A piece's view.
pub open spec fn piece_view(p: Piece) -> (Seq<char>, u8, u8, u8, u8) {
    (p.0@, p.1, p.2, p.3, p.4)
}

/// What syntect's default syntaxes and themes make of `code` as `lang` under
/// `theme`: one run of pieces per line, or `None` when the language or the
/// theme is unknown.
pub uninterp spec fn syntect_lines(code: Seq<char>, lang: Seq<char>, theme: Seq<char>)
    -> Option<Seq<Seq<(Seq<char>, u8, u8, u8, u8)>>>;

/// The views of highlighted lines.
pub open spec fn lines_view(ls: Seq<Vec<Piece>>) -> Seq<Seq<(Seq<char>, u8, u8, u8, u8)>> {
    ls.map_values(|l: Vec<Piece>| l@.map_values(|p: Piece| piece_view(p)))
}

/// Highlights `code` with syntect's `HighlightLines`, line by line
/// (`LinesWithEndings`), with the syntax `find_syntax_by_token(lang)` of the
/// default syntax set and the named theme of the default theme set. The
/// highlighter carries its parse state from one line to the next, so the
/// lines are walked here, where that state lives. The result depends on the
/// three arguments alone; nothing is claimed of what it holds.
#[verifier::external_body]
fn syntect_highlight(code: &str, lang: &str, theme: &str) -> (r: Option<Vec<Vec<Piece>>>)
    ensures
        match r {
            Some(ls) => syntect_lines(code@, lang@, theme@) == Some(lines_view(ls@)),
            None => syntect_lines(code@, lang@, theme@) is None,
        },
{
    let ss = syntect::parsing::SyntaxSet::load_defaults_newlines();
    let theme = syntect::highlighting::ThemeSet::load_defaults().themes.remove(theme)?;
    let mut h = syntect::easy::HighlightLines::new(ss.find_syntax_by_token(lang)?, &theme);
    let mut out = Vec::new();
    for line in syntect::util::LinesWithEndings::from(code) {
        let ranges = h.highlight_line(line, &ss).ok()?;
        let f = |(s, t): (syntect::highlighting::Style, &str)| {
            (t.to_string(), s.foreground.r, s.foreground.g, s.foreground.b, s.font_style.bits())
        };
        out.push(ranges.into_iter().map(f).collect());
    }
    Some(out)
}

/// A syntect style as a terminal style: its color as the foreground, and
/// its bold, italic and underline bits as modifiers.
pub open spec fn piece_style(r: u8, g: u8, b: u8, bits: u8) -> Style {
    let s0 = theme::fg_style(Color::Rgb(r, g, b));
    let s1 = if bits & 1 != 0 { spec_add_modifier(s0, Modifier { bits: 1 }) } else { s0 };
    let s2 = if bits & 4 != 0 { spec_add_modifier(s1, Modifier { bits: 4 }) } else { s1 };
    if bits & 2 != 0 { spec_add_modifier(s2, Modifier { bits: 8 }) } else { s2 }
}

/// `s` without its trailing `\n` and `\r` characters.
pub open spec fn trim_newlines(s: Seq<char>) -> Seq<char>
    decreases s.len(),
{
    if s.len() > 0 && (s.last() == '\n' || s.last() == '\r') {
        trim_newlines(s.drop_last())
    } else {
        s
    }
}

/// One highlighted line as spans: line endings trimmed, empty pieces dropped.
pub open spec fn line_spans(pieces: Seq<(Seq<char>, u8, u8, u8, u8)>) -> Seq<(Seq<char>, Style)>
    decreases pieces.len(),
{
    if pieces.len() == 0 {
        seq![]
    } else {
        let p = pieces.last();
        let t = trim_newlines(p.0);
        line_spans(pieces.drop_last()) + (if t.len() > 0 { seq![(t, piece_style(p.1, p.2, p.3, p.4))] } else { seq![] })
    }
}

/// What `highlight` gives: `None` for a missing language, else syntect's
/// lines as spans.
pub open spec fn spec_highlight(code: Seq<char>, lang: Seq<char>) -> Option<Seq<Seq<(Seq<char>, Style)>>> {
    if lang.len() == 0 {
        None
    } else {
        match syntect_lines(code, lang, "base16-ocean.dark"@) {
            Some(ls) => Some(ls.map_values(|l: Seq<(Seq<char>, u8, u8, u8, u8)>| line_spans(l))),
            None => None,
        }
    }
}

fn to_style(r: u8, g: u8, b: u8, bits: u8) -> (s: Style)
    ensures
        s == piece_style(r, g, b, bits),
{
    let mut out = Style::new().fg(Color::Rgb(r, g, b));
    if bits & 1 != 0 {
        out = out.add_modifier(Modifier::bold());
    }
    if bits & 4 != 0 {
        out = out.add_modifier(Modifier::italic());
    }
    if bits & 2 != 0 {
        out = out.add_modifier(Modifier::underlined());
    }
    out
}

fn trim_line_end(s: &String) -> (r: String)
    ensures
        r@ == trim_newlines(s@),
{
    let cs = chars_of(s.as_str());
    let mut k = cs.len();
    assert(cs@.take(k as int) =~= cs@);
    while k > 0 && (cs[k - 1] == '\n' || cs[k - 1] == '\r')
        invariant
            k <= cs@.len(),
            trim_newlines(cs@.take(k as int)) == trim_newlines(cs@),
        decreases k,
    {
        assert(cs@.take(k as int).drop_last() =~= cs@.take(k - 1));
        k = k - 1;
    }
    let mut out: Vec<char> = Vec::new();
    let mut i: usize = 0;
    while i < k
        invariant
            i <= k <= cs@.len(),
            out@ == cs@.take(i as int),
        decreases k - i,
    {
        out.push(cs[i]);
        i = i + 1;
        assert(out@ =~= cs@.take(i as int));
    }
    string_of(out.as_slice())
}

/// Highlights `code` as `lang` (`rust`, `py`, `sh`, ...). One run of spans per
/// source line, foreground only: the caller owns the background. `None` for an
/// unknown or missing language, so the caller can fall back to plain styling.
pub fn highlight(code: &str, lang: &str) -> (r: Option<Vec<Vec<Span>>>)
    ensures
        match r {
            Some(ls) => spec_highlight(code@, lang@) == Some(crate::style::rows_view(ls@)),
            None => spec_highlight(code@, lang@) is None,
        },
{
    if lang.is_empty() {
        return None;
    }
    let lines = match syntect_highlight(code, lang, theme::SYNTAX_THEME) {
        Some(ls) => ls,
        None => return None,
    };
    let ghost lv = lines_view(lines@);
    let mut out: Vec<Vec<Span>> = Vec::new();
    let mut i: usize = 0;
    while i < lines.len()
        invariant
            i <= lines@.len(),
            lv == lines_view(lines@),
            crate::style::rows_view(out@) == lv.take(i as int).map_values(|l: Seq<(Seq<char>, u8, u8, u8, u8)>| line_spans(l)),
        decreases lines@.len() - i,
    {
        let line = &lines[i];
        let ghost pv = lv[i as int];
        let mut spans: Vec<Span> = Vec::new();
        let mut k: usize = 0;
        while k < line.len()
            invariant
                k <= line@.len(),
                pv == line@.map_values(|p: Piece| piece_view(p)),
                spans_view(spans@) == line_spans(pv.take(k as int)),
            decreases line@.len() - k,
        {
            let p = &line[k];
            let t = trim_line_end(&p.0);
            let ghost s0 = spans_view(spans@);
            assert(pv.take(k + 1).drop_last() =~= pv.take(k as int));
            if !t.as_str().is_empty() {
                spans.push(Span::styled(t, to_style(p.1, p.2, p.3, p.4)));
                assert(spans_view(spans@) =~= s0.push((trim_newlines(p.0@), piece_style(p.1, p.2, p.3, p.4))));
            }
            assert(spans_view(spans@) =~= line_spans(pv.take(k + 1)));
            k = k + 1;
        }
        assert(pv.take(pv.len() as int) =~= pv);
        let ghost o0 = crate::style::rows_view(out@);
        out.push(spans);
        assert(crate::style::rows_view(out@) =~= o0.push(line_spans(pv)));
        assert(lv.take(i + 1).map_values(|l: Seq<(Seq<char>, u8, u8, u8, u8)>| line_spans(l))
            =~= lv.take(i as int).map_values(|l: Seq<(Seq<char>, u8, u8, u8, u8)>| line_spans(l)).push(line_spans(pv)));
        i = i + 1;
    }
    assert(lv.take(lv.len() as int) =~= lv);
    Some(out)
}

/// Highlighting sets foreground colors and font styles only: every span it
/// gives leaves the background to the caller.
pub proof fn lemma_highlight_is_foreground_only(code: Seq<char>, lang: Seq<char>)
    ensures
        spec_highlight(code, lang) matches Some(ls) ==> forall|i: int, j: int|
            0 <= i < ls.len() && 0 <= j < ls[i].len() ==> (#[trigger] ls[i][j]).1.bg is None,
{
    if let Some(ls) = spec_highlight(code, lang) {
        let raw = syntect_lines(code, lang, "base16-ocean.dark"@).unwrap();
        assert forall|i: int, j: int| 0 <= i < ls.len() && 0 <= j < ls[i].len() implies (#[trigger] ls[i][j]).1.bg is None by {
            lemma_line_spans_foreground_only(raw[i]);
        }
    }
}

proof fn lemma_line_spans_foreground_only(pieces: Seq<(Seq<char>, u8, u8, u8, u8)>)
    ensures
        forall|j: int| 0 <= j < line_spans(pieces).len() ==> (#[trigger] line_spans(pieces)[j]).1.bg is None,
    decreases pieces.len(),
{
    if pieces.len() > 0 {
        lemma_line_spans_foreground_only(pieces.drop_last());
        let p = pieces.last();
        let prev = line_spans(pieces.drop_last());
        assert forall|j: int| 0 <= j < line_spans(pieces).len() implies (#[trigger] line_spans(pieces)[j]).1.bg is None by {
            if j < prev.len() {
                assert(line_spans(pieces)[j] == prev[j]);
            }
        }
    }
}

} // verus!
