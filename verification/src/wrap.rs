//! Wrapping styled text to a fixed width.
//!
//! A terminal paragraph widget could wrap on its own, but it knows nothing of
//! the renderer's prefixes: a wrapped blockquote line would lose its bar, and
//! a wrapped list item would snap back to column 0. So the renderer wraps each
//! block itself, to the width left over after its prefix, and re-applies the
//! prefix to every resulting line.
//!
//! Text is processed as `(char, Style)` pairs: a word can straddle several
//! spans (`**bold**text`), and working char by char keeps each its style.

use vstd::prelude::*;

use crate::style::{Span, Style, rows_view, spans_view};
use crate::text::{chars_of, repeat_char, spec_repeat, string_of, unicode_char_width, unicode_str_width, cols, is_control, spec_is_control, str_width};

verus! {

/// One character and the style it is drawn in.
pub type SChar = (char, Style);

/// The columns a run of styled characters takes, each counted on its own.
pub open spec fn sum_cols(cs: Seq<SChar>) -> int
    decreases cs.len(),
{
    if cs.len() == 0 {
        0
    } else {
        sum_cols(cs.drop_last()) + cols(cs.last().0)
    }
}

/// The characters of one span, each with the span's style.
pub open spec fn span_chars(s: (Seq<char>, Style)) -> Seq<SChar> {
    s.0.map_values(|c: char| (c, s.1))
}

/// The characters of a run of spans, each with its span's style.
pub open spec fn styled_chars(spans: Seq<(Seq<char>, Style)>) -> Seq<SChar>
    decreases spans.len(),
{
    if spans.len() == 0 {
        seq![]
    } else {
        styled_chars(spans.drop_last()) + span_chars(spans.last())
    }
}

/// The views of a list of rows of styled characters.
pub open spec fn rows_chars(rows: Seq<Vec<SChar>>) -> Seq<Seq<SChar>> {
    rows.map_values(|r: Vec<SChar>| r@)
}

pub proof fn lemma_spans_width_nonneg(spans: Seq<(Seq<char>, Style)>)
    ensures
        spans_width(spans) >= 0,
    decreases spans.len(),
{
    if spans.len() > 0 {
        lemma_spans_width_nonneg(spans.drop_last());
    }
}

/// `x`, capped at the largest `usize`.
pub open spec fn sat(x: int) -> int {
    if x > usize::MAX { usize::MAX as int } else { x }
}

/// The display width of a run of spans: each span's string width, summed.
pub open spec fn spans_width(spans: Seq<(Seq<char>, Style)>) -> int
    decreases spans.len(),
{
    if spans.len() == 0 {
        0
    } else {
        spans_width(spans.drop_last()) + str_width(spans.last().0)
    }
}

// --- hard lines ---------------------------------------------------------------

/// One character's effect on the lines built so far: a newline starts a new
/// line, a tab becomes a space, other control characters are dropped.
pub open spec fn hard_line_step(lines: Seq<Seq<SChar>>, sc: SChar) -> Seq<Seq<SChar>> {
    if sc.0 == '\n' {
        lines.push(seq![])
    } else if sc.0 == '\t' {
        lines.update(lines.len() - 1, lines.last().push((' ', sc.1)))
    } else if spec_is_control(sc.0) {
        lines
    } else {
        lines.update(lines.len() - 1, lines.last().push(sc))
    }
}

/// `cs` split at every newline, with tabs made spaces and other control
/// characters dropped. Always at least one (possibly empty) line.
pub open spec fn spec_hard_lines(cs: Seq<SChar>) -> Seq<Seq<SChar>>
    decreases cs.len(),
{
    if cs.len() == 0 {
        seq![seq![]]
    } else {
        hard_line_step(spec_hard_lines(cs.drop_last()), cs.last())
    }
}

pub proof fn lemma_hard_lines_nonempty(cs: Seq<SChar>)
    ensures
        spec_hard_lines(cs).len() >= 1,
    decreases cs.len(),
{
    if cs.len() > 0 {
        lemma_hard_lines_nonempty(cs.drop_last());
    }
}

pub proof fn lemma_styled_chars_push(spans: Seq<(Seq<char>, Style)>, s: (Seq<char>, Style))
    ensures
        styled_chars(spans.push(s)) == styled_chars(spans) + span_chars(s),
{
    assert(spans.push(s).drop_last() =~= spans);
}

/// Text without a line break is one hard line.
pub proof fn lemma_one_hard_line(cs: Seq<SChar>)
    requires
        forall|k: int| 0 <= k < cs.len() ==> (#[trigger] cs[k]).0 != '\n',
    ensures
        spec_hard_lines(cs).len() == 1,
    decreases cs.len(),
{
    if cs.len() > 0 {
        lemma_one_hard_line(cs.drop_last());
    }
}

/// Characters without control characters are one hard line, kept as they are.
pub proof fn lemma_hard_lines_plain(cs: Seq<SChar>)
    requires
        forall|k: int| 0 <= k < cs.len() ==> !spec_is_control((#[trigger] cs[k]).0),
    ensures
        spec_hard_lines(cs) == seq![cs],
    decreases cs.len(),
{
    if cs.len() > 0 {
        let init = cs.drop_last();
        assert forall|k: int| 0 <= k < init.len() implies !spec_is_control((#[trigger] init[k]).0) by {
            assert(init[k] == cs[k]);
        }
        lemma_hard_lines_plain(init);
        let last = cs.last();
        assert(!spec_is_control(cs[cs.len() - 1].0));
        assert(last.0 != '\n' && last.0 != '\t');
        let lines = seq![init];
        assert(lines.len() - 1 == 0);
        assert(hard_line_step(lines, last) == lines.update(0, init.push(last)));
        assert(init.push(last) =~= cs);
        assert(lines.update(0, init.push(last)) =~= seq![cs]);
    } else {
        assert(cs =~= Seq::<SChar>::empty());
    }
}

/// Spans without a line break give characters without one.
pub proof fn lemma_styled_chars_no_newline(spans: Seq<(Seq<char>, Style)>)
    requires
        forall|i: int, k: int| 0 <= i < spans.len() && 0 <= k < spans[i].0.len() ==> (#[trigger] spans[i].0[k]) != '\n',
    ensures
        forall|k: int| 0 <= k < styled_chars(spans).len() ==> (#[trigger] styled_chars(spans)[k]).0 != '\n',
    decreases spans.len(),
{
    if spans.len() > 0 {
        let init = spans.drop_last();
        assert forall|i: int, k: int| 0 <= i < init.len() && 0 <= k < init[i].0.len() implies (#[trigger] init[i].0[k]) != '\n' by {
            assert(init[i] == spans[i]);
        }
        lemma_styled_chars_no_newline(init);
        let a = styled_chars(init);
        let b = span_chars(spans.last());
        assert forall|k: int| 0 <= k < styled_chars(spans).len() implies (#[trigger] styled_chars(spans)[k]).0 != '\n' by {
            if k >= a.len() {
                assert(styled_chars(spans)[k] == b[k - a.len()]);
                assert(spans[spans.len() - 1].0[k - a.len()] != '\n');
            }
        }
    }
}

/// Flattens spans into styled chars, split at every `'\n'`. Tabs become
/// spaces and other control characters are dropped, since they have no
/// sensible width.
fn hard_lines(spans: &[Span]) -> (lines: Vec<Vec<SChar>>)
    ensures
        rows_chars(lines@) == spec_hard_lines(styled_chars(spans_view(spans@))),
{
    let mut done: Vec<Vec<SChar>> = Vec::new();
    let mut cur: Vec<SChar> = Vec::new();
    let mut i: usize = 0;
    while i < spans.len()
        invariant
            i <= spans@.len(),
            rows_chars(done@).push(cur@) == spec_hard_lines(styled_chars(spans_view(spans@.take(i as int)))),
        decreases spans@.len() - i,
    {
        let span = &spans[i];
        let style = span.style;
        let cs = chars_of(span.content.as_str());
        let ghost before = styled_chars(spans_view(spans@.take(i as int)));
        let mut k: usize = 0;
        while k < cs.len()
            invariant
                k <= cs@.len(),
                cs@ == span.content@,
                style == span.style,
                rows_chars(done@).push(cur@) == spec_hard_lines(before + span_chars((cs@, style)).take(k as int)),
            decreases cs@.len() - k,
        {
            let c = cs[k];
            let ghost prev = before + span_chars((cs@, style)).take(k as int);
            assert(before + span_chars((cs@, style)).take(k + 1) =~= prev.push((c, style)));
            assert(prev.push((c, style)).drop_last() =~= prev);
            let ghost d0 = rows_chars(done@);
            let ghost c0 = cur@;
            if c == '\n' {
                done.push(cur);
                cur = Vec::new();
                assert(rows_chars(done@) =~= d0.push(c0));
                assert(rows_chars(done@).push(cur@) =~= d0.push(c0).push(seq![]));
            } else if c == '\t' {
                cur.push((' ', style));
                assert(rows_chars(done@).push(cur@) =~= d0.push(c0).update(d0.len() as int, c0.push((' ', style))));
            } else if is_control(c) {
            } else {
                cur.push((c, style));
                assert(rows_chars(done@).push(cur@) =~= d0.push(c0).update(d0.len() as int, c0.push((c, style))));
            }
            k = k + 1;
        }
        proof {
            assert(spans_view(spans@.take(i + 1)) =~= spans_view(spans@.take(i as int)).push(span@));
            lemma_styled_chars_push(spans_view(spans@.take(i as int)), span@);
            assert(span_chars((cs@, style)).take(cs@.len() as int) =~= span_chars(span@));
        }
        i = i + 1;
    }
    done.push(cur);
    proof {
        assert(spans@.take(spans@.len() as int) =~= spans@);
    }
    done
}

// --- spans from styled characters ----------------------------------------------

/// `cs` as spans: each maximal run of one style becomes one span.
pub open spec fn spec_to_spans(cs: Seq<SChar>) -> Seq<(Seq<char>, Style)>
    decreases cs.len(),
{
    if cs.len() == 0 {
        seq![]
    } else {
        let prev = spec_to_spans(cs.drop_last());
        let c = cs.last();
        if prev.len() > 0 && prev.last().1 == c.1 {
            prev.update(prev.len() - 1, (prev.last().0.push(c.0), c.1))
        } else {
            prev.push((seq![c.0], c.1))
        }
    }
}

/// Turning runs into spans loses no character and no style.
pub proof fn lemma_to_spans_chars(cs: Seq<SChar>)
    ensures
        styled_chars(spec_to_spans(cs)) == cs,
    decreases cs.len(),
{
    if cs.len() > 0 {
        let prev = spec_to_spans(cs.drop_last());
        let c = cs.last();
        lemma_to_spans_chars(cs.drop_last());
        if prev.len() > 0 && prev.last().1 == c.1 {
            let upd = prev.update(prev.len() - 1, (prev.last().0.push(c.0), c.1));
            assert(upd.drop_last() =~= prev.drop_last());
            assert(prev.drop_last().push(prev.last()) =~= prev);
            lemma_styled_chars_push(prev.drop_last(), prev.last());
            assert(span_chars(upd.last()) =~= span_chars(prev.last()).push(c));
        } else {
            lemma_styled_chars_push(prev, (seq![c.0], c.1));
            assert(span_chars((seq![c.0], c.1)) =~= seq![c]);
        }
        assert(cs.drop_last().push(c) =~= cs);
    }
}

/// Re-joins styled chars into spans, merging runs that share a style.
fn to_spans(cs: &Vec<SChar>) -> (spans: Vec<Span>)
    ensures
        spans_view(spans@) == spec_to_spans(cs@),
{
    let mut spans: Vec<Span> = Vec::new();
    let mut run: Vec<char> = Vec::new();
    let mut run_style = Style::new();
    let mut k: usize = 0;
    while k < cs.len()
        invariant
            k <= cs@.len(),
            k == 0 ==> spans@.len() == 0,
            k > 0 ==> spec_to_spans(cs@.take(k as int)) == spans_view(spans@).push((run@, run_style)),
        decreases cs@.len() - k,
    {
        let (c, st) = cs[k];
        assert(cs@.take(k + 1).drop_last() =~= cs@.take(k as int));
        assert(cs@.take(k + 1).last() == (c, st));
        let ghost sv = spans_view(spans@);
        let ghost prev = spec_to_spans(cs@.take(k as int));
        if k > 0 && st == run_style {
            let ghost r0 = run@;
            run.push(c);
            assert(sv.push((run@, run_style)) =~= sv.push((r0, run_style)).update(sv.len() as int, (r0.push(c), st)));
        } else {
            if k > 0 {
                let text = string_of(run.as_slice());
                spans.push(Span { content: text, style: run_style });
                assert(spans_view(spans@) =~= sv.push((run@, run_style)));
            }
            run = Vec::new();
            run.push(c);
            run_style = st;
            assert(run@ =~= seq![c]);
        }
        k = k + 1;
    }
    if k > 0 {
        let ghost sv = spans_view(spans@);
        let text = string_of(run.as_slice());
        spans.push(Span { content: text, style: run_style });
        assert(spans_view(spans@) =~= sv.push((run@, run_style)));
    }
    assert(cs@.take(cs@.len() as int) =~= cs@);
    spans
}

// --- breaking lines -------------------------------------------------------------

pub proof fn lemma_sum_cols_push(cs: Seq<SChar>, c: SChar)
    ensures
        sum_cols(cs.push(c)) == sum_cols(cs) + cols(c.0),
{
    assert(cs.push(c).drop_last() =~= cs);
}

pub proof fn lemma_sum_cols_concat(a: Seq<SChar>, b: Seq<SChar>)
    ensures
        sum_cols(a + b) == sum_cols(a) + sum_cols(b),
    decreases b.len(),
{
    if b.len() > 0 {
        lemma_sum_cols_concat(a, b.drop_last());
        assert((a + b).drop_last() =~= a + b.drop_last());
    } else {
        assert(a + b =~= a);
    }
}

pub proof fn lemma_sum_cols_single(c: SChar)
    ensures
        sum_cols(seq![c]) == cols(c.0),
{
    let s = seq![c];
    assert(s.drop_last() =~= Seq::<SChar>::empty());
    assert(s.last() == c);
    assert(sum_cols(s.drop_last()) == 0);
}

pub proof fn lemma_sum_cols_nonneg(cs: Seq<SChar>)
    ensures
        sum_cols(cs) >= 0,
    decreases cs.len(),
{
    if cs.len() > 0 {
        lemma_sum_cols_nonneg(cs.drop_last());
    }
}

/// Adds `c` to the line being built, first closing that line if `c` would
/// make it wider than `width` (an empty line takes any character).
pub open spec fn place_char(
    done: Seq<Seq<SChar>>,
    line: Seq<SChar>,
    c: SChar,
    width: int,
) -> (Seq<Seq<SChar>>, Seq<SChar>) {
    if sum_cols(line) + cols(c.0) > width && line.len() > 0 {
        (done.push(line), seq![c])
    } else {
        (done, line.push(c))
    }
}

/// `place_char` for each of `cs` in turn.
pub open spec fn place_chars(
    done: Seq<Seq<SChar>>,
    line: Seq<SChar>,
    cs: Seq<SChar>,
    width: int,
) -> (Seq<Seq<SChar>>, Seq<SChar>)
    decreases cs.len(),
{
    if cs.len() == 0 {
        (done, line)
    } else {
        let p = place_chars(done, line, cs.drop_last(), width);
        place_char(p.0, p.1, cs.last(), width)
    }
}

/// A line fits `width`, or holds a single character too wide for any line.
pub open spec fn fits_or_single(line: Seq<SChar>, width: int) -> bool {
    sum_cols(line) <= width || line.len() == 1
}

pub proof fn lemma_place_chars_fit(done: Seq<Seq<SChar>>, line: Seq<SChar>, cs: Seq<SChar>, width: int)
    requires
        forall|i: int| 0 <= i < done.len() ==> fits_or_single(#[trigger] done[i], width),
        fits_or_single(line, width),
    ensures
        forall|i: int| 0 <= i < place_chars(done, line, cs, width).0.len()
            ==> fits_or_single(#[trigger] place_chars(done, line, cs, width).0[i], width),
        fits_or_single(place_chars(done, line, cs, width).1, width),
        place_chars(done, line, cs, width).0.len() >= done.len(),
    decreases cs.len(),
{
    if cs.len() > 0 {
        lemma_place_chars_fit(done, line, cs.drop_last(), width);
        let p = place_chars(done, line, cs.drop_last(), width);
        let c = cs.last();
        lemma_sum_cols_push(p.1, c);
        lemma_sum_cols_single(c);
        lemma_sum_cols_nonneg(p.1);
        if p.1.len() == 0 {
            assert(p.1.push(c).len() == 1);
        }
    }
}

/// The last index of the run of spaces, or of non-spaces, that `i` is in.
pub open spec fn is_space(c: SChar) -> bool {
    c.0 == ' '
}

/// Where the run of spaces or non-spaces starting at `i` ends.
pub open spec fn run_end(cs: Seq<SChar>, i: int) -> int
    decreases cs.len() - i,
{
    if i + 1 >= cs.len() {
        cs.len() as int
    } else if is_space(cs[i + 1]) != is_space(cs[i]) {
        i + 1
    } else {
        run_end(cs, i + 1)
    }
}

pub proof fn lemma_run_end(cs: Seq<SChar>, i: int)
    requires
        0 <= i < cs.len(),
    ensures
        i < run_end(cs, i) <= cs.len(),
        forall|k: int| i <= k < run_end(cs, i) ==> is_space(#[trigger] cs[k]) == is_space(cs[i]),
        run_end(cs, i) < cs.len() ==> is_space(cs[run_end(cs, i)]) != is_space(cs[i]),
    decreases cs.len() - i,
{
    if i + 1 < cs.len() && is_space(cs[i + 1]) == is_space(cs[i]) {
        lemma_run_end(cs, i + 1);
    }
}

/// The state of a word wrap: finished lines, the line being built, and the
/// spaces held back until it is known whether the next word joins the line.
pub type WrapState = (Seq<Seq<SChar>>, Seq<SChar>, Seq<SChar>);

/// One run's effect. Spaces are held as the gap, unless the line is empty
/// (leading spaces are dropped). A word joins the line with the gap if it
/// fits; otherwise the line closes, the gap is dropped, and the word starts a
/// fresh line, split between characters where it is still too long.
pub open spec fn word_step(st: WrapState, tok: Seq<SChar>, width: int) -> WrapState {
    if is_space(tok[0]) {
        if st.1.len() > 0 {
            (st.0, st.1, tok)
        } else {
            st
        }
    } else if sum_cols(st.1) + st.2.len() + sum_cols(tok) <= width {
        (st.0, st.1 + st.2 + tok, seq![])
    } else {
        let done = if st.1.len() > 0 { st.0.push(st.1) } else { st.0 };
        let p = place_chars(done, seq![], tok, width);
        (p.0, p.1, seq![])
    }
}

/// The lines a greedy word wrap of `cs[i..]` adds to state `st`.
pub open spec fn words_from(cs: Seq<SChar>, width: int, i: int, st: WrapState) -> Seq<Seq<SChar>>
    decreases cs.len() - i,
{
    if i < 0 || i >= cs.len() {
        st.0.push(st.1)
    } else {
        let j = run_end(cs, i);
        if j <= i || j > cs.len() {
            st.0.push(st.1)
        } else {
            words_from(cs, width, j, word_step(st, cs.subrange(i, j), width))
        }
    }
}

/// The greedy word wrap of one hard line.
pub open spec fn spec_wrap_words(cs: Seq<SChar>, width: int) -> Seq<Seq<SChar>> {
    words_from(cs, width, 0, (seq![], seq![], seq![]))
}

/// The columns one character takes, as the wrap counts them.
fn char_cols(c: char) -> (r: usize)
    ensures
        r == cols(c),
        r <= 3,
{
    match unicode_char_width(c) {
        Some(w) => w,
        None => 0,
    }
}

pub proof fn lemma_spaces_cols(g: Seq<SChar>)
    requires
        cols(' ') == 1,
        forall|k: int| 0 <= k < g.len() ==> is_space(#[trigger] g[k]),
    ensures
        sum_cols(g) == g.len(),
    decreases g.len(),
{
    if g.len() > 0 {
        lemma_spaces_cols(g.drop_last());
    }
}

/// Greedy word wrap of one hard line. Whitespace between words is kept when
/// the next word fits on the same line and dropped at a line break. Only a
/// plain space is a break opportunity: a non-breaking space stays part of its
/// word.
fn wrap_words(cs: &Vec<SChar>, width: usize) -> (rows: Vec<Vec<SChar>>)
    ensures
        rows_chars(rows@) == spec_wrap_words(cs@, width as int),
{
    // Spaces are one column each, so a gap is as wide as it is long.
    let space = unicode_char_width(' ');
    assert(cols(' ') == 1);
    let n = cs.len();
    let mut done: Vec<Vec<SChar>> = Vec::new();
    let mut line: Vec<SChar> = Vec::new();
    let mut line_w: usize = 0;
    let mut gs: usize = 0;
    let mut ge: usize = 0;
    let mut i: usize = 0;
    assert(cs@.subrange(0, 0) =~= Seq::<SChar>::empty());
    assert(rows_chars(done@) =~= Seq::<Seq<SChar>>::empty());
    while i < n
        invariant
            n == cs@.len(),
            cols(' ') == 1,
            i <= n,
            gs <= ge <= i,
            forall|k: int| gs <= k < ge ==> is_space(#[trigger] cs@[k]),
            line_w == sum_cols(line@),
            line_w <= width || line@.len() == 1,
            line@.len() == 0 ==> line_w == 0,
            spec_wrap_words(cs@, width as int)
                == words_from(cs@, width as int, i as int, (rows_chars(done@), line@, cs@.subrange(gs as int, ge as int))),
        decreases n - i,
    {
        let ghost st = (rows_chars(done@), line@, cs@.subrange(gs as int, ge as int));
        proof { lemma_run_end(cs@, i as int); }
        let sp = cs[i].0 == ' ';
        let mut j = i + 1;
        while j < n && (cs[j].0 == ' ') == sp
            invariant
                n == cs@.len(),
                i < j <= n,
                j <= run_end(cs@, i as int),
                sp == is_space(cs@[i as int]),
                i < run_end(cs@, i as int) <= n,
                forall|k: int| i <= k < run_end(cs@, i as int) ==> is_space(#[trigger] cs@[k]) == is_space(cs@[i as int]),
                run_end(cs@, i as int) < n ==> is_space(cs@[run_end(cs@, i as int)]) != is_space(cs@[i as int]),
            decreases n - j,
        {
            j = j + 1;
        }
        assert(j == run_end(cs@, i as int));
        let ghost tok = cs@.subrange(i as int, j as int);
        assert(tok[0] == cs@[i as int]);
        let ghost next = word_step(st, tok, width as int);
        assert(words_from(cs@, width as int, i as int, st) == words_from(cs@, width as int, j as int, next));
        if sp {
            // Leading whitespace on a line is dropped; otherwise hold it until
            // we know whether the next word joins this line.
            if line.len() > 0 {
                gs = i;
                ge = j;
            }
        } else {
            let gap_w = ge - gs;
            let mut fits = line_w <= width && gap_w <= width - line_w;
            let mut rem: usize = if fits { width - line_w - gap_w } else { 0 };
            let mut k = i;
            proof {
                lemma_spaces_cols(cs@.subrange(gs as int, ge as int));
                assert(cs@.subrange(i as int, i as int) =~= Seq::<SChar>::empty());
            }
            while k < j
                invariant
                    n == cs@.len(),
                    i <= k <= j <= n,
                    line_w == sum_cols(line@),
                    gap_w == ge - gs,
                    fits == (line_w + gap_w + sum_cols(cs@.subrange(i as int, k as int)) <= width),
                    fits ==> rem == width - line_w - gap_w - sum_cols(cs@.subrange(i as int, k as int)),
                decreases j - k,
            {
                let cw = char_cols(cs[k].0);
                proof {
                    assert(cs@.subrange(i as int, k + 1) =~= cs@.subrange(i as int, k as int).push(cs@[k as int]));
                    lemma_sum_cols_push(cs@.subrange(i as int, k as int), cs@[k as int]);
                    lemma_sum_cols_nonneg(cs@.subrange(i as int, k as int));
                }
                if fits {
                    if cw <= rem {
                        rem = rem - cw;
                    } else {
                        fits = false;
                    }
                }
                k = k + 1;
            }
            proof { lemma_sum_cols_nonneg(tok); }
            if fits {
                let ghost l0 = line@;
                let mut g = gs;
                while g < ge
                    invariant
                        gs <= g <= ge,
                        ge <= n == cs@.len(),
                        line@ == l0 + cs@.subrange(gs as int, g as int),
                    decreases ge - g,
                {
                    line.push(cs[g]);
                    g = g + 1;
                    assert(line@ =~= l0 + cs@.subrange(gs as int, g as int));
                }
                let mut t = i;
                while t < j
                    invariant
                        i <= t <= j <= n == cs@.len(),
                        gs <= ge,
                        line@ == l0 + cs@.subrange(gs as int, ge as int) + cs@.subrange(i as int, t as int),
                    decreases j - t,
                {
                    line.push(cs[t]);
                    t = t + 1;
                    assert(line@ =~= l0 + cs@.subrange(gs as int, ge as int) + cs@.subrange(i as int, t as int));
                }
                proof {
                    lemma_sum_cols_concat(l0 + cs@.subrange(gs as int, ge as int), tok);
                    lemma_sum_cols_concat(l0, cs@.subrange(gs as int, ge as int));
                }
                line_w = width - rem;
                gs = 0;
                ge = 0;
                assert(cs@.subrange(0, 0) =~= Seq::<SChar>::empty());
            } else {
                // The word starts a fresh line; split it if it's still too long.
                if line.len() > 0 {
                    done.push(line);
                    line = Vec::new();
                    line_w = 0;
                }
                let ghost d0 = rows_chars(done@);
                assert(rows_chars(done@) == (if st.1.len() > 0 { st.0.push(st.1) } else { st.0 })) by {
                    assert(rows_chars(done@) =~= (if st.1.len() > 0 { st.0.push(st.1) } else { st.0 }));
                }
                let mut t = i;
                assert(cs@.subrange(i as int, i as int) =~= Seq::<SChar>::empty());
                assert(line@ =~= Seq::<SChar>::empty());
                while t < j
                    invariant
                        i <= t <= j <= n == cs@.len(),
                        line_w == sum_cols(line@),
                        line@.len() == 0 ==> line_w == 0,
                        line_w <= width || line@.len() == 1,
                        (rows_chars(done@), line@) == place_chars(d0, seq![], cs@.subrange(i as int, t as int), width as int),
                    decreases j - t,
                {
                    let c = cs[t];
                    let cw = char_cols(c.0);
                    let ghost dv = rows_chars(done@);
                    let ghost lv = line@;
                    proof {
                        assert(cs@.subrange(i as int, t + 1).drop_last() =~= cs@.subrange(i as int, t as int));
                        lemma_sum_cols_push(line@, c);
                        lemma_sum_cols_nonneg(line@);
                    }
                    if (cw > width || line_w > width - cw) && line.len() > 0 {
                        done.push(line);
                        line = Vec::new();
                        line.push(c);
                        line_w = cw;
                        assert(rows_chars(done@) =~= dv.push(lv));
                        assert(line@ =~= seq![c]);
                        proof { lemma_sum_cols_single(c); }
                    } else {
                        line.push(c);
                        line_w = line_w + cw;
                    }
                    t = t + 1;
                }
                gs = 0;
                ge = 0;
                assert(cs@.subrange(0, 0) =~= Seq::<SChar>::empty());
            }
        }
        i = j;
    }
    done.push(line);
    proof {
        let ghost st = (rows_chars(done@).drop_last(), line@, cs@.subrange(gs as int, ge as int));
    }
    assert(rows_chars(done@) =~= rows_chars(done@.drop_last()).push(line@));
    done
}

// --- whole texts ------------------------------------------------------------------

/// The rows of each line, wrapped by `f`, one line after another.
pub open spec fn wrap_rows(lines: Seq<Seq<SChar>>, width: int) -> Seq<Seq<SChar>>
    decreases lines.len(),
{
    if lines.len() == 0 {
        seq![]
    } else {
        wrap_rows(lines.drop_last(), width) + spec_wrap_words(lines.last(), width)
    }
}

/// One line broken into chunks of at most `width` columns, between any two characters.
pub open spec fn spec_chunk_line(cs: Seq<SChar>, width: int) -> Seq<Seq<SChar>> {
    let p = place_chars(seq![], seq![], cs, width);
    p.0.push(p.1)
}

/// The chunks of each line, one line after another.
pub open spec fn chunk_rows(lines: Seq<Seq<SChar>>, width: int) -> Seq<Seq<SChar>>
    decreases lines.len(),
{
    if lines.len() == 0 {
        seq![]
    } else {
        chunk_rows(lines.drop_last(), width) + spec_chunk_line(lines.last(), width)
    }
}

/// `width`, but at least 1.
pub open spec fn at_least_one(width: int) -> int {
    if width < 1 { 1 } else { width }
}

/// Rows of styled characters as rows of spans.
pub open spec fn rows_to_spans(rows: Seq<Seq<SChar>>) -> Seq<Seq<(Seq<char>, Style)>> {
    rows.map_values(|r: Seq<SChar>| spec_to_spans(r))
}

/// The word wrap of `spans` to `width` columns.
pub open spec fn spec_wrap(spans: Seq<(Seq<char>, Style)>, width: int) -> Seq<Seq<(Seq<char>, Style)>> {
    rows_to_spans(wrap_rows(spec_hard_lines(styled_chars(spans)), at_least_one(width)))
}

/// `spans` broken into chunks of at most `width` columns, ignoring word boundaries.
pub open spec fn spec_wrap_chars(spans: Seq<(Seq<char>, Style)>, width: int) -> Seq<Seq<(Seq<char>, Style)>> {
    rows_to_spans(chunk_rows(spec_hard_lines(styled_chars(spans)), at_least_one(width)))
}

/// Every row of `rows` fits `width` columns, or is one character too wide for any row.
pub open spec fn all_fit(rows: Seq<Seq<SChar>>, width: int) -> bool {
    forall|i: int| 0 <= i < rows.len() ==> fits_or_single(#[trigger] rows[i], width)
}

/// The characters of all rows, one row after another.
pub open spec fn flat(rows: Seq<Seq<SChar>>) -> Seq<SChar>
    decreases rows.len(),
{
    if rows.len() == 0 {
        seq![]
    } else {
        flat(rows.drop_last()) + rows.last()
    }
}

pub proof fn lemma_all_fit_concat(a: Seq<Seq<SChar>>, b: Seq<Seq<SChar>>, width: int)
    requires
        all_fit(a, width),
        all_fit(b, width),
    ensures
        all_fit(a + b, width),
{
    assert forall|i: int| 0 <= i < (a + b).len() implies fits_or_single(#[trigger] (a + b)[i], width) by {
        if i < a.len() {
            assert((a + b)[i] == a[i]);
        } else {
            assert((a + b)[i] == b[i - a.len()]);
        }
    }
}

/// The state invariant of a word wrap: every line fits, and the held gap is
/// spaces only.
pub open spec fn wrap_state_ok(st: WrapState, width: int) -> bool {
    &&& all_fit(st.0, width)
    &&& fits_or_single(st.1, width)
    &&& forall|k: int| 0 <= k < st.2.len() ==> is_space(#[trigger] st.2[k])
}

pub proof fn lemma_word_step_ok(st: WrapState, tok: Seq<SChar>, width: int)
    requires
        cols(' ') == 1,
        width >= 0,
        tok.len() > 0,
        wrap_state_ok(st, width),
        forall|k: int| 0 <= k < tok.len() ==> is_space(#[trigger] tok[k]) == is_space(tok[0]),
    ensures
        wrap_state_ok(word_step(st, tok, width), width),
{
    if is_space(tok[0]) {
    } else if sum_cols(st.1) + st.2.len() + sum_cols(tok) <= width {
        lemma_spaces_cols(st.2);
        lemma_sum_cols_concat(st.1 + st.2, tok);
        lemma_sum_cols_concat(st.1, st.2);
    } else {
        let done = if st.1.len() > 0 { st.0.push(st.1) } else { st.0 };
        assert(all_fit(done, width)) by {
            assert forall|i: int| 0 <= i < done.len() implies fits_or_single(#[trigger] done[i], width) by {
                if i < st.0.len() {
                    assert(done[i] == st.0[i]);
                }
            }
        }
        assert(fits_or_single(Seq::<SChar>::empty(), width)) by {
            assert(sum_cols(Seq::<SChar>::empty()) == 0);
        }
        lemma_place_chars_fit(done, seq![], tok, width);
    }
}

pub proof fn lemma_words_from_fit(cs: Seq<SChar>, width: int, i: int, st: WrapState)
    requires
        cols(' ') == 1,
        width >= 1,
        wrap_state_ok(st, width),
    ensures
        all_fit(words_from(cs, width, i, st), width),
    decreases cs.len() - i,
{
    if i < 0 || i >= cs.len() {
        assert(all_fit(st.0.push(st.1), width)) by {
            assert forall|k: int| 0 <= k < st.0.push(st.1).len() implies fits_or_single(#[trigger] st.0.push(st.1)[k], width) by {
                if k < st.0.len() {
                    assert(st.0.push(st.1)[k] == st.0[k]);
                }
            }
        }
    } else {
        let j = run_end(cs, i);
        lemma_run_end(cs, i);
        let tok = cs.subrange(i, j);
        assert forall|k: int| 0 <= k < tok.len() implies is_space(#[trigger] tok[k]) == is_space(tok[0]) by {
            assert(tok[k] == cs[i + k]);
            assert(tok[0] == cs[i]);
        }
        lemma_word_step_ok(st, tok, width);
        lemma_words_from_fit(cs, width, j, word_step(st, tok, width));
    }
}

pub proof fn lemma_wrap_rows_fit(lines: Seq<Seq<SChar>>, width: int)
    requires
        cols(' ') == 1,
        width >= 1,
    ensures
        all_fit(wrap_rows(lines, width), width),
        wrap_rows(lines, width).len() >= lines.len(),
    decreases lines.len(),
{
    if lines.len() > 0 {
        lemma_wrap_rows_fit(lines.drop_last(), width);
        assert(wrap_state_ok((seq![], seq![], seq![]), width)) by {
            assert(sum_cols(Seq::<SChar>::empty()) == 0);
        }
        lemma_words_from_fit(lines.last(), width, 0, (seq![], seq![], seq![]));
        lemma_words_from_len(lines.last(), width, 0, (seq![], seq![], seq![]));
        lemma_all_fit_concat(wrap_rows(lines.drop_last(), width), spec_wrap_words(lines.last(), width), width);
    }
}

pub proof fn lemma_words_from_len(cs: Seq<SChar>, width: int, i: int, st: WrapState)
    ensures
        words_from(cs, width, i, st).len() >= 1,
    decreases cs.len() - i,
{
    if i >= 0 && i < cs.len() {
        let j = run_end(cs, i);
        if j > i && j <= cs.len() {
            lemma_words_from_len(cs, width, j, word_step(st, cs.subrange(i, j), width));
        }
    }
}

pub proof fn lemma_rows_to_spans_chars(rows: Seq<Seq<SChar>>)
    ensures
        forall|i: int| 0 <= i < rows.len() ==> styled_chars(#[trigger] rows_to_spans(rows)[i]) == rows[i],
{
    assert forall|i: int| 0 <= i < rows.len() implies styled_chars(#[trigger] rows_to_spans(rows)[i]) == rows[i] by {
        lemma_to_spans_chars(rows[i]);
    }
}

pub proof fn lemma_place_chars_flat(done: Seq<Seq<SChar>>, line: Seq<SChar>, cs: Seq<SChar>, width: int)
    ensures
        flat(place_chars(done, line, cs, width).0) + place_chars(done, line, cs, width).1 == flat(done) + line + cs,
    decreases cs.len(),
{
    if cs.len() > 0 {
        lemma_place_chars_flat(done, line, cs.drop_last(), width);
        let p = place_chars(done, line, cs.drop_last(), width);
        let c = cs.last();
        if sum_cols(p.1) + cols(c.0) > width && p.1.len() > 0 {
            assert(p.0.push(p.1).drop_last() =~= p.0);
        }
        assert(flat(done) + line + cs =~= flat(done) + line + cs.drop_last() + seq![c]);
    } else {
        assert(flat(done) + line + cs =~= flat(done) + line);
    }
}

/// The characters of `cs` other than plain spaces, in order.
pub open spec fn words_of(cs: Seq<SChar>) -> Seq<SChar>
    decreases cs.len(),
{
    if cs.len() == 0 {
        seq![]
    } else if is_space(cs.last()) {
        words_of(cs.drop_last())
    } else {
        words_of(cs.drop_last()).push(cs.last())
    }
}

pub proof fn lemma_words_of_concat(a: Seq<SChar>, b: Seq<SChar>)
    ensures
        words_of(a + b) == words_of(a) + words_of(b),
    decreases b.len(),
{
    if b.len() == 0 {
        assert(a + b =~= a);
        assert(words_of(a) + words_of(b) =~= words_of(a));
    } else {
        lemma_words_of_concat(a, b.drop_last());
        assert((a + b).drop_last() =~= a + b.drop_last());
        if !is_space(b.last()) {
            assert(words_of(a) + words_of(b.drop_last()).push(b.last()) =~= (words_of(a) + words_of(b.drop_last())).push(b.last()));
        }
    }
}

pub proof fn lemma_words_of_spaces(g: Seq<SChar>)
    requires
        forall|k: int| 0 <= k < g.len() ==> is_space(#[trigger] g[k]),
    ensures
        words_of(g) == Seq::<SChar>::empty(),
    decreases g.len(),
{
    if g.len() > 0 {
        lemma_words_of_spaces(g.drop_last());
    }
}

/// What a wrap state holds so far, spaces aside: its lines, then the open one.
pub open spec fn state_words(st: WrapState) -> Seq<SChar> {
    words_of(flat(st.0) + st.1)
}

pub proof fn lemma_word_step_words(st: WrapState, tok: Seq<SChar>, width: int)
    requires
        tok.len() > 0,
        forall|k: int| 0 <= k < tok.len() ==> is_space(#[trigger] tok[k]) == is_space(tok[0]),
        forall|k: int| 0 <= k < st.2.len() ==> is_space(#[trigger] st.2[k]),
    ensures
        state_words(word_step(st, tok, width)) == state_words(st) + words_of(tok),
        forall|k: int| 0 <= k < word_step(st, tok, width).2.len() ==> is_space(#[trigger] word_step(st, tok, width).2[k]),
{
    if is_space(tok[0]) {
        lemma_words_of_spaces(tok);
        assert(state_words(st) + words_of(tok) =~= state_words(st));
    } else if sum_cols(st.1) + st.2.len() + sum_cols(tok) <= width {
        lemma_words_of_spaces(st.2);
        assert(flat(st.0) + (st.1 + st.2 + tok) =~= (flat(st.0) + st.1) + st.2 + tok);
        lemma_words_of_concat(flat(st.0) + st.1 + st.2, tok);
        lemma_words_of_concat(flat(st.0) + st.1, st.2);
        assert(state_words(st) + Seq::<SChar>::empty() =~= state_words(st));
    } else {
        let done = if st.1.len() > 0 { st.0.push(st.1) } else { st.0 };
        assert(flat(done) == flat(st.0) + st.1) by {
            if st.1.len() > 0 {
                assert(done.drop_last() =~= st.0);
            } else {
                assert(flat(st.0) + st.1 =~= flat(st.0));
            }
        }
        lemma_place_chars_flat(done, seq![], tok, width);
        let p = place_chars(done, seq![], tok, width);
        assert(flat(done) + Seq::<SChar>::empty() + tok =~= (flat(st.0) + st.1) + tok);
        lemma_words_of_concat(flat(st.0) + st.1, tok);
    }
}

pub proof fn lemma_words_from_words(cs: Seq<SChar>, width: int, i: int, st: WrapState)
    requires
        0 <= i <= cs.len(),
        state_words(st) == words_of(cs.take(i)),
        forall|k: int| 0 <= k < st.2.len() ==> is_space(#[trigger] st.2[k]),
    ensures
        words_of(flat(words_from(cs, width, i, st))) == words_of(cs),
    decreases cs.len() - i,
{
    if i >= cs.len() {
        assert(cs.take(i) =~= cs);
        assert(st.0.push(st.1).drop_last() =~= st.0);
    } else {
        let j = run_end(cs, i);
        lemma_run_end(cs, i);
        let tok = cs.subrange(i, j);
        assert forall|k: int| 0 <= k < tok.len() implies is_space(#[trigger] tok[k]) == is_space(tok[0]) by {
            assert(tok[k] == cs[i + k]);
        }
        lemma_word_step_words(st, tok, width);
        assert(cs.take(j) =~= cs.take(i) + tok);
        lemma_words_of_concat(cs.take(i), tok);
        lemma_words_from_words(cs, width, j, word_step(st, tok, width));
    }
}

/// Word wrapping loses nothing but plain spaces: the other characters of a
/// line come out in order, with their styles, across the rows.
pub proof fn lemma_wrap_words_keeps_words(cs: Seq<SChar>, width: int)
    ensures
        words_of(flat(spec_wrap_words(cs, width))) == words_of(cs),
{
    let st: WrapState = (seq![], seq![], seq![]);
    assert(cs.take(0) =~= Seq::<SChar>::empty());
    assert(flat(st.0) + st.1 =~= Seq::<SChar>::empty());
    lemma_words_from_words(cs, width, 0, st);
}

/// Across hard lines: the wrapped rows hold the lines' characters other than
/// plain spaces, in order.
pub proof fn lemma_wrap_rows_keep_words(lines: Seq<Seq<SChar>>, width: int)
    ensures
        words_of(flat(wrap_rows(lines, width))) == words_of(flat(lines)),
    decreases lines.len(),
{
    if lines.len() > 0 {
        lemma_wrap_rows_keep_words(lines.drop_last(), width);
        lemma_wrap_words_keeps_words(lines.last(), width);
        lemma_flat_concat(wrap_rows(lines.drop_last(), width), spec_wrap_words(lines.last(), width));
        lemma_words_of_concat(flat(wrap_rows(lines.drop_last(), width)), flat(spec_wrap_words(lines.last(), width)));
        lemma_words_of_concat(flat(lines.drop_last()), lines.last());
    }
}

pub proof fn lemma_chunk_rows(lines: Seq<Seq<SChar>>, width: int)
    requires
        width >= 0,
    ensures
        all_fit(chunk_rows(lines, width), width),
        chunk_rows(lines, width).len() >= lines.len(),
        flat(chunk_rows(lines, width)) == flat(lines),
    decreases lines.len(),
{
    if lines.len() > 0 {
        lemma_chunk_rows(lines.drop_last(), width);
        let cs = lines.last();
        assert(all_fit(Seq::<Seq<SChar>>::empty(), width));
        assert(fits_or_single(Seq::<SChar>::empty(), width)) by {
            assert(sum_cols(Seq::<SChar>::empty()) == 0);
        }
        lemma_place_chars_fit(seq![], seq![], cs, width);
        let p = place_chars(seq![], seq![], cs, width);
        let chunk = p.0.push(p.1);
        assert(all_fit(chunk, width)) by {
            assert forall|k: int| 0 <= k < chunk.len() implies fits_or_single(#[trigger] chunk[k], width) by {
                if k < p.0.len() {
                    assert(chunk[k] == p.0[k]);
                }
            }
        }
        lemma_all_fit_concat(chunk_rows(lines.drop_last(), width), chunk, width);
        lemma_place_chars_flat(seq![], seq![], cs, width);
        assert(chunk.drop_last() =~= p.0);
        assert(flat(Seq::<Seq<SChar>>::empty()) =~= Seq::<SChar>::empty());
        lemma_flat_concat(chunk_rows(lines.drop_last(), width), chunk);
        assert(Seq::<SChar>::empty() + Seq::<SChar>::empty() + cs =~= cs);
    }
}

pub proof fn lemma_flat_concat(a: Seq<Seq<SChar>>, b: Seq<Seq<SChar>>)
    ensures
        flat(a + b) == flat(a) + flat(b),
    decreases b.len(),
{
    if b.len() > 0 {
        lemma_flat_concat(a, b.drop_last());
        assert((a + b).drop_last() =~= a + b.drop_last());
        assert(flat(a) + flat(b.drop_last()) + b.last() =~= flat(a) + (flat(b.drop_last()) + b.last()));
    } else {
        assert(a + b =~= a);
        assert(flat(a) + flat(b) =~= flat(a));
    }
}

/// Splits one hard line into chunks of at most `width` columns, anywhere.
fn chunk_line(cs: &Vec<SChar>, width: usize) -> (rows: Vec<Vec<SChar>>)
    ensures
        rows_chars(rows@) == spec_chunk_line(cs@, width as int),
{
    let mut done: Vec<Vec<SChar>> = Vec::new();
    let mut line: Vec<SChar> = Vec::new();
    let mut line_w: usize = 0;
    let mut t: usize = 0;
    assert(cs@.subrange(0, 0) =~= Seq::<SChar>::empty());
    assert(rows_chars(done@) =~= Seq::<Seq<SChar>>::empty());
    while t < cs.len()
        invariant
            t <= cs@.len(),
            line_w == sum_cols(line@),
            line@.len() == 0 ==> line_w == 0,
            line_w <= width || line@.len() == 1,
            (rows_chars(done@), line@) == place_chars(seq![], seq![], cs@.subrange(0, t as int), width as int),
        decreases cs@.len() - t,
    {
        let c = cs[t];
        let cw = char_cols(c.0);
        let ghost dv = rows_chars(done@);
        let ghost lv = line@;
        proof {
            assert(cs@.subrange(0, t + 1).drop_last() =~= cs@.subrange(0, t as int));
            lemma_sum_cols_push(line@, c);
            lemma_sum_cols_nonneg(line@);
        }
        if (cw > width || line_w > width - cw) && line.len() > 0 {
            done.push(line);
            line = Vec::new();
            line.push(c);
            line_w = cw;
            assert(rows_chars(done@) =~= dv.push(lv));
            assert(line@ =~= seq![c]);
            proof { lemma_sum_cols_single(c); }
        } else {
            line.push(c);
            line_w = line_w + cw;
        }
        t = t + 1;
    }
    let ghost dv = rows_chars(done@);
    done.push(line);
    assert(cs@.subrange(0, cs@.len() as int) =~= cs@);
    assert(rows_chars(done@) =~= dv.push(line@));
    done
}

/// Word-wraps `spans` to `width` columns. A `'\n'` inside the text forces a
/// break. Words longer than a whole line are split mid-word. Always returns at
/// least one (possibly empty) line.
pub fn wrap(spans: &[Span], width: usize) -> (rows: Vec<Vec<Span>>)
    ensures
        rows_view(rows@) == spec_wrap(spans_view(spans@), width as int),
        rows@.len() >= 1,
        forall|i: int| 0 <= i < rows@.len()
            ==> fits_or_single(styled_chars(#[trigger] rows_view(rows@)[i]), at_least_one(width as int)),
{
    let w = if width < 1 { 1 } else { width };
    // Learns that a space is one column wide, which the fit argument needs.
    let space = unicode_char_width(' ');
    let lines = hard_lines(spans);
    let ghost ls = rows_chars(lines@);
    let mut out: Vec<Vec<Span>> = Vec::new();
    let mut li: usize = 0;
    assert(rows_view(out@) =~= rows_to_spans(wrap_rows(ls.take(0), w as int)));
    while li < lines.len()
        invariant
            li <= lines@.len(),
            ls == rows_chars(lines@),
            rows_view(out@) == rows_to_spans(wrap_rows(ls.take(li as int), w as int)),
        decreases lines@.len() - li,
    {
        let rows = wrap_words(&lines[li], w);
        let ghost before = wrap_rows(ls.take(li as int), w as int);
        let mut r: usize = 0;
        assert(rows_chars(rows@).take(0) + Seq::<Seq<SChar>>::empty() =~= Seq::<Seq<SChar>>::empty());
        assert(rows_view(out@) =~= rows_to_spans(before + rows_chars(rows@).take(0)));
        while r < rows.len()
            invariant
                r <= rows@.len(),
                rows_view(out@) == rows_to_spans(before + rows_chars(rows@).take(r as int)),
            decreases rows@.len() - r,
        {
            let ghost ov = rows_view(out@);
            out.push(to_spans(&rows[r]));
            assert(rows_view(out@) =~= ov.push(spec_to_spans(rows@[r as int]@)));
            assert(before + rows_chars(rows@).take(r + 1) =~= (before + rows_chars(rows@).take(r as int)).push(rows@[r as int]@));
            assert(rows_view(out@) =~= rows_to_spans(before + rows_chars(rows@).take(r + 1)));
            r = r + 1;
        }
        assert(ls.take(li + 1).drop_last() =~= ls.take(li as int));
        assert(rows_chars(rows@).take(rows@.len() as int) =~= rows_chars(rows@));
        li = li + 1;
    }
    proof {
        assert(ls.take(ls.len() as int) =~= ls);
        lemma_hard_lines_nonempty(styled_chars(spans_view(spans@)));
        lemma_wrap_rows_fit(ls, w as int);
        lemma_rows_to_spans_chars(wrap_rows(ls, w as int));
    }
    out
}

/// Breaks `spans` into chunks of at most `width` columns without regard for
/// word boundaries: for code, where whitespace is significant.
pub fn wrap_chars(spans: &[Span], width: usize) -> (rows: Vec<Vec<Span>>)
    ensures
        rows_view(rows@) == spec_wrap_chars(spans_view(spans@), width as int),
        rows@.len() >= 1,
        forall|i: int| 0 <= i < rows@.len()
            ==> fits_or_single(styled_chars(#[trigger] rows_view(rows@)[i]), at_least_one(width as int)),
        flat(chunk_rows(spec_hard_lines(styled_chars(spans_view(spans@))), at_least_one(width as int)))
            == flat(spec_hard_lines(styled_chars(spans_view(spans@)))),
{
    let w = if width < 1 { 1 } else { width };
    let lines = hard_lines(spans);
    let ghost ls = rows_chars(lines@);
    let mut out: Vec<Vec<Span>> = Vec::new();
    let mut li: usize = 0;
    assert(rows_view(out@) =~= rows_to_spans(chunk_rows(ls.take(0), w as int)));
    while li < lines.len()
        invariant
            li <= lines@.len(),
            ls == rows_chars(lines@),
            rows_view(out@) == rows_to_spans(chunk_rows(ls.take(li as int), w as int)),
        decreases lines@.len() - li,
    {
        let rows = chunk_line(&lines[li], w);
        let ghost before = chunk_rows(ls.take(li as int), w as int);
        let mut r: usize = 0;
        assert(rows_view(out@) =~= rows_to_spans(before + rows_chars(rows@).take(0)));
        while r < rows.len()
            invariant
                r <= rows@.len(),
                rows_view(out@) == rows_to_spans(before + rows_chars(rows@).take(r as int)),
            decreases rows@.len() - r,
        {
            let ghost ov = rows_view(out@);
            out.push(to_spans(&rows[r]));
            assert(rows_view(out@) =~= ov.push(spec_to_spans(rows@[r as int]@)));
            assert(before + rows_chars(rows@).take(r + 1) =~= (before + rows_chars(rows@).take(r as int)).push(rows@[r as int]@));
            assert(rows_view(out@) =~= rows_to_spans(before + rows_chars(rows@).take(r + 1)));
            r = r + 1;
        }
        assert(ls.take(li + 1).drop_last() =~= ls.take(li as int));
        assert(rows_chars(rows@).take(rows@.len() as int) =~= rows_chars(rows@));
        li = li + 1;
    }
    proof {
        assert(ls.take(ls.len() as int) =~= ls);
        lemma_hard_lines_nonempty(styled_chars(spans_view(spans@)));
        lemma_chunk_rows(ls, w as int);
        lemma_rows_to_spans_chars(chunk_rows(ls, w as int));
    }
    out
}

// --- measuring and padding ---------------------------------------------------------

pub proof fn lemma_sat_add(x: int, b: int)
    requires
        b >= 0,
    ensures
        sat(sat(x) + b) == sat(x + b),
{
}

/// Display width of a run of spans, in terminal columns (capped at the
/// largest `usize`).
pub fn width(spans: &[Span]) -> (w: usize)
    ensures
        w == sat(spans_width(spans_view(spans@))),
{
    let mut acc: usize = 0;
    let mut i: usize = 0;
    assert(spans_view(spans@.take(0)) =~= Seq::<(Seq<char>, Style)>::empty());
    while i < spans.len()
        invariant
            i <= spans@.len(),
            acc == sat(spans_width(spans_view(spans@.take(i as int)))),
        decreases spans@.len() - i,
    {
        let sw = unicode_str_width(spans[i].content.as_str());
        proof {
            assert(spans_view(spans@.take(i + 1)) =~= spans_view(spans@.take(i as int)).push(spans@[i as int]@));
            assert(spans_view(spans@.take(i + 1)).drop_last() =~= spans_view(spans@.take(i as int)));
            lemma_sat_add(spans_width(spans_view(spans@.take(i as int))), sw as int);
        }
        acc = acc.saturating_add(sw);
        i = i + 1;
    }
    assert(spans@.take(spans@.len() as int) =~= spans@);
    acc
}

/// The room one line needs: what wrapping measures it at, char by char, and
/// what it measures once drawn, as spans; whichever is more (capped at the
/// largest `usize`).
pub open spec fn line_need(line: Seq<SChar>) -> int {
    let by_chars = sat(sum_cols(line));
    let drawn = sat(spans_width(spec_to_spans(line)));
    if drawn > by_chars { drawn } else { by_chars }
}

/// The widest of `lines`, each measured by `line_need`.
pub open spec fn max_cols(lines: Seq<Seq<SChar>>) -> int
    decreases lines.len(),
{
    if lines.len() == 0 {
        0
    } else {
        let rest = max_cols(lines.drop_last());
        let last = line_need(lines.last());
        if last > rest { last } else { rest }
    }
}

/// Width of the widest line in `spans` when split only at `'\n'`: the room
/// the text needs to be neither wrapped nor wider than that once drawn.
/// Columns are measured the same way the finished line is, so a table's
/// borders line up.
pub fn max_line_width(spans: &[Span]) -> (w: usize)
    ensures
        w == max_cols(spec_hard_lines(styled_chars(spans_view(spans@)))),
{
    let lines = hard_lines(spans);
    let ghost ls = rows_chars(lines@);
    let mut best: usize = 0;
    let mut li: usize = 0;
    assert(ls.take(0) =~= Seq::<Seq<SChar>>::empty());
    while li < lines.len()
        invariant
            li <= lines@.len(),
            ls == rows_chars(lines@),
            best == max_cols(ls.take(li as int)),
        decreases lines@.len() - li,
    {
        let line = &lines[li];
        let mut lw: usize = 0;
        let mut k: usize = 0;
        assert(line@.take(0) =~= Seq::<SChar>::empty());
        while k < line.len()
            invariant
                k <= line@.len(),
                lw == sat(sum_cols(line@.take(k as int))),
            decreases line@.len() - k,
        {
            let cw = char_cols(line[k].0);
            proof {
                assert(line@.take(k + 1).drop_last() =~= line@.take(k as int));
                lemma_sat_add(sum_cols(line@.take(k as int)), cw as int);
            }
            lw = lw.saturating_add(cw);
            k = k + 1;
        }
        assert(line@.take(line@.len() as int) =~= line@);
        assert(ls.take(li + 1).drop_last() =~= ls.take(li as int));
        let drawn = width(to_spans(line).as_slice());
        let need = if drawn > lw { drawn } else { lw };
        if need > best {
            best = need;
        }
        li = li + 1;
    }
    assert(ls.take(ls.len() as int) =~= ls);
    best
}

/// A line that fits what is left of the width goes on as one row: the words
/// and the gaps between them all stay on the line being built.
proof fn lemma_words_from_one(cs: Seq<SChar>, width: int, i: int, st: WrapState)
    requires
        cols(' ') == 1,
        0 <= i <= cs.len(),
        st.0.len() == 0,
        forall|k: int| 0 <= k < st.2.len() ==> is_space(#[trigger] st.2[k]),
        sum_cols(st.1) + st.2.len() + sum_cols(cs.subrange(i, cs.len() as int)) <= width,
    ensures
        words_from(cs, width, i, st).len() == 1,
    decreases cs.len() - i,
{
    if i < cs.len() {
        lemma_run_end(cs, i);
        let j = run_end(cs, i);
        let tok = cs.subrange(i, j);
        let rest = cs.subrange(j, cs.len() as int);
        assert(cs.subrange(i, cs.len() as int) =~= tok + rest);
        lemma_sum_cols_concat(tok, rest);
        lemma_sum_cols_nonneg(tok);
        lemma_sum_cols_nonneg(rest);
        assert(tok[0] == cs[i]);
        let st2 = word_step(st, tok, width);
        if is_space(tok[0]) {
            assert forall|k: int| 0 <= k < tok.len() implies is_space(#[trigger] tok[k]) by {
                assert(tok[k] == cs[i + k]);
            }
            lemma_spaces_cols(tok);
        } else {
            lemma_spaces_cols(st.2);
            lemma_sum_cols_concat(st.1, st.2);
            lemma_sum_cols_concat(st.1 + st.2, tok);
        }
        lemma_words_from_one(cs, width, j, st2);
    }
}

/// Lines that each fit the width are not wrapped: one row per line.
proof fn lemma_wrap_rows_one(lines: Seq<Seq<SChar>>, width: int)
    requires
        cols(' ') == 1,
        forall|k: int| 0 <= k < lines.len() ==> sum_cols(#[trigger] lines[k]) <= width,
    ensures
        wrap_rows(lines, width).len() == lines.len(),
    decreases lines.len(),
{
    if lines.len() > 0 {
        let l = lines.last();
        assert(sum_cols(lines[lines.len() - 1]) <= width);
        lemma_wrap_rows_one(lines.drop_last(), width);
        assert(l.subrange(0, l.len() as int) =~= l);
        assert(sum_cols(Seq::<SChar>::empty()) == 0);
        lemma_words_from_one(l, width, 0, (seq![], seq![], seq![]));
    }
}

/// The widest line's need is at least each line's.
proof fn lemma_max_cols(lines: Seq<Seq<SChar>>, k: int)
    requires
        0 <= k < lines.len(),
    ensures
        line_need(lines[k]) <= max_cols(lines),
    decreases lines.len(),
{
    if k < lines.len() - 1 {
        lemma_max_cols(lines.drop_last(), k);
        assert(lines.drop_last()[k] == lines[k]);
    }
}

/// `max_line_width` is room enough for the text: wrapping it at that width
/// breaks no line, and gives one row per hard line. (A space is one column
/// wide, as every call of `wrap` learns from unicode-width; and no line is
/// wider than the largest `usize`.)
pub proof fn lemma_wrap_at_max_width(spans: Seq<(Seq<char>, Style)>)
    requires
        cols(' ') == 1,
        forall|k: int| 0 <= k < spec_hard_lines(styled_chars(spans)).len()
            ==> sum_cols(#[trigger] spec_hard_lines(styled_chars(spans))[k]) <= usize::MAX,
    ensures
        spec_wrap(spans, max_cols(spec_hard_lines(styled_chars(spans)))).len()
            == spec_hard_lines(styled_chars(spans)).len(),
{
    let lines = spec_hard_lines(styled_chars(spans));
    let w = at_least_one(max_cols(lines));
    assert forall|k: int| 0 <= k < lines.len() implies sum_cols(#[trigger] lines[k]) <= w by {
        lemma_max_cols(lines, k);
        lemma_sum_cols_nonneg(lines[k]);
    }
    lemma_wrap_rows_one(lines, w);
}

/// `spans` right-padded with spaces in `style` to `width` columns.
pub open spec fn spec_pad(spans: Seq<(Seq<char>, Style)>, width: int, style: Style) -> Seq<(Seq<char>, Style)> {
    let w = sat(spans_width(spans));
    if w < width {
        spans.push((spec_repeat(' ', (width - w) as nat), style))
    } else {
        spans
    }
}

/// Right-pads `spans` with spaces in `style` until they are `width` columns wide.
pub fn pad(spans: Vec<Span>, width: usize, style: Style) -> (r: Vec<Span>)
    ensures
        spans_view(r@) == spec_pad(spans_view(spans@), width as int, style),
{
    let mut spans = spans;
    let w = self::width(spans.as_slice());
    if w < width {
        let ghost sv = spans_view(spans@);
        spans.push(Span::styled(repeat_char(' ', width - w), style));
        assert(spans_view(spans@) =~= sv.push((spec_repeat(' ', (width - w) as nat), style)));
    }
    spans
}

/// `cs` with each tab replaced by spaces up to the next multiple of four
/// columns, counting columns as characters from the start of each line;
/// `col` is the current column modulo four.
pub open spec fn expand_from(cs: Seq<char>, col: nat) -> Seq<char>
    decreases cs.len(),
{
    if cs.len() == 0 {
        seq![]
    } else if cs[0] == '\t' {
        let n = (4 - col % 4) as nat;
        spec_repeat(' ', n) + expand_from(cs.drop_first(), 0)
    } else if cs[0] == '\n' {
        seq!['\n'] + expand_from(cs.drop_first(), 0)
    } else {
        seq![cs[0]] + expand_from(cs.drop_first(), (col + 1) % 4)
    }
}

/// Tabs expanded to four-column tab stops.
pub fn expand_tabs(s: &str) -> (r: String)
    ensures
        r@ == expand_from(s@, 0),
{
    let cs = chars_of(s);
    let mut out: Vec<char> = Vec::new();
    let mut col: usize = 0;
    let mut i: usize = 0;
    assert(cs@.skip(0) =~= cs@);
    assert(out@ + expand_from(cs@.skip(0), 0) =~= expand_from(s@, 0));
    while i < cs.len()
        invariant
            i <= cs@.len(),
            col < 4,
            out@ + expand_from(cs@.skip(i as int), col as nat) == expand_from(s@, 0),
            cs@ == s@,
        decreases cs@.len() - i,
    {
        let c = cs[i];
        assert(cs@.skip(i as int).drop_first() =~= cs@.skip(i + 1));
        assert(cs@.skip(i as int)[0] == c);
        let ghost o0 = out@;
        if c == '\t' {
            let n = 4 - col % 4;
            let mut k: usize = 0;
            while k < n
                invariant
                    k <= n <= 4,
                    out@ == o0 + spec_repeat(' ', k as nat),
                decreases n - k,
            {
                out.push(' ');
                k = k + 1;
                assert(out@ =~= o0 + spec_repeat(' ', k as nat));
            }
            assert(o0 + (spec_repeat(' ', n as nat) + expand_from(cs@.skip(i + 1), 0))
                =~= out@ + expand_from(cs@.skip(i + 1), 0));
            col = 0;
        } else if c == '\n' {
            out.push('\n');
            assert(o0 + (seq!['\n'] + expand_from(cs@.skip(i + 1), 0)) =~= out@ + expand_from(cs@.skip(i + 1), 0));
            col = 0;
        } else {
            out.push(c);
            assert(o0 + (seq![c] + expand_from(cs@.skip(i + 1), ((col + 1) % 4) as nat)) =~= out@ + expand_from(cs@.skip(i + 1), ((col + 1) % 4) as nat));
            col = (col + 1) % 4;
        }
        i = i + 1;
    }
    assert(cs@.skip(cs@.len() as int) =~= Seq::<char>::empty());
    assert(out@ + Seq::<char>::empty() =~= out@);
    string_of(out.as_slice())
}

} // verus!
