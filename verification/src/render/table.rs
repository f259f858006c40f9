//! Laying out and drawing a GFM table.
//!
//! Column widths depend on every row, so the whole table is rendered and
//! measured before a single line of it is drawn. Nothing here touches the
//! renderer's state: it takes each row's cells, already rendered to spans, and
//! the width it has to fit in, and hands back finished rows.

use vstd::prelude::*;

use crate::style::{Span, Style, rows_view, spans_view, spec_style_default};
use crate::text::{repeat_char, spec_repeat};
use crate::wrap::{sat, spans_width, width};

verus! {

/// Narrowest a column may be squeezed to.
pub const MIN_COLUMN_WIDTH: usize = 3;
/// Columns a cell spends on chrome: its opening `│` and a space either side.
/// `layout` budgets for it and `draw` draws it: keep the two in step.
pub const CELL_CHROME: usize = 3;

/// How a column's cells sit in their width.
#[derive(Clone, Copy, Debug, PartialEq, Eq, Structural)]
pub enum Alignment {
    Unaligned,
    Left,
    Center,
    Right,
}

// --- fitting columns -----------------------------------------------------------------

/// The sum of `ws`.
pub open spec fn total(ws: Seq<usize>) -> int
    decreases ws.len(),
{
    if ws.len() == 0 {
        0
    } else {
        total(ws.drop_last()) + ws.last()
    }
}

/// The index of the last of the widest among `ws[..n]` (for `n >= 1`).
pub open spec fn last_max(ws: Seq<usize>, n: int) -> int
    decreases n,
{
    if n <= 1 {
        0
    } else {
        let k = last_max(ws, n - 1);
        if ws[n - 1] >= ws[k] { n - 1 } else { k }
    }
}

/// Shrinks the widest column (the last of them, on a tie) by one, again and
/// again, until the total fits `budget` or the widest is at the minimum.
pub open spec fn spec_fit(ws: Seq<usize>, budget: int) -> Seq<usize>
    decreases total(ws),
{
    if ws.len() == 0 || total(ws) <= budget {
        ws
    } else {
        let k = last_max(ws, ws.len() as int);
        if 0 <= k < ws.len() && ws[k] > MIN_COLUMN_WIDTH {
            proof {
                lemma_total_update(ws, k, (ws[k] - 1) as usize);
                lemma_total_nonneg(ws.update(k, (ws[k] - 1) as usize));
            }
            spec_fit(ws.update(k, (ws[k] - 1) as usize), budget)
        } else {
            ws
        }
    }
}

pub proof fn lemma_total_nonneg(ws: Seq<usize>)
    ensures
        total(ws) >= 0,
    decreases ws.len(),
{
    if ws.len() > 0 {
        lemma_total_nonneg(ws.drop_last());
    }
}

pub proof fn lemma_total_update(ws: Seq<usize>, k: int, v: usize)
    requires
        0 <= k < ws.len(),
    ensures
        total(ws.update(k, v)) == total(ws) - ws[k] + v,
    decreases ws.len(),
{
    if k < ws.len() - 1 {
        lemma_total_update(ws.drop_last(), k, v);
        assert(ws.update(k, v).drop_last() =~= ws.drop_last().update(k, v));
    } else {
        assert(ws.update(k, v).drop_last() =~= ws.drop_last());
    }
}

pub proof fn lemma_last_max(ws: Seq<usize>, n: int)
    requires
        1 <= n <= ws.len(),
    ensures
        0 <= last_max(ws, n) < n,
        forall|j: int| 0 <= j < n ==> #[trigger] ws[j] <= ws[last_max(ws, n)],
        forall|j: int| last_max(ws, n) < j < n ==> #[trigger] ws[j] < ws[last_max(ws, n)],
    decreases n,
{
    if n > 1 {
        lemma_last_max(ws, n - 1);
    }
}

/// Whether the total of `ws` exceeds `budget`, without overflowing.
fn exceeds(ws: &Vec<usize>, budget: usize) -> (r: bool)
    ensures
        r == (total(ws@) > budget),
{
    let mut acc: usize = 0;
    let mut i: usize = 0;
    assert(ws@.take(0) =~= Seq::<usize>::empty());
    while i < ws.len()
        invariant
            i <= ws@.len(),
            acc == total(ws@.take(i as int)),
            acc <= budget,
        decreases ws@.len() - i,
    {
        assert(ws@.take(i + 1).drop_last() =~= ws@.take(i as int));
        if ws[i] > budget - acc {
            proof { lemma_total_ge_prefix(ws@, i + 1); }
            return true;
        }
        acc = acc + ws[i];
        i = i + 1;
    }
    assert(ws@.take(ws@.len() as int) =~= ws@);
    false
}

pub proof fn lemma_total_ge_prefix(ws: Seq<usize>, n: int)
    requires
        0 <= n <= ws.len(),
    ensures
        total(ws) >= total(ws.take(n)),
    decreases ws.len(),
{
    if n < ws.len() {
        lemma_total_ge_prefix(ws.drop_last(), n);
        assert(ws.drop_last().take(n) =~= ws.take(n));
    } else {
        assert(ws.take(n) =~= ws);
    }
}

/// Shrinks the widest columns, one column at a time, until the total fits in
/// `budget`. Stops early if every column is already at the minimum: the
/// table then overflows instead of becoming unreadable.
pub fn fit_columns(widths: &mut Vec<usize>, budget: usize)
    ensures
        final(widths)@ == spec_fit(old(widths)@, budget as int),
{
    loop
        invariant
            spec_fit(widths@, budget as int) == spec_fit(old(widths)@, budget as int),
        decreases total(widths@),
    {
        if widths.len() == 0 || !exceeds(widths, budget) {
            return;
        }
        let mut best: usize = 0;
        let mut i: usize = 1;
        while i < widths.len()
            invariant
                1 <= i <= widths@.len(),
                best < i,
                best == last_max(widths@, i as int),
            decreases widths@.len() - i,
        {
            if widths[i] >= widths[best] {
                best = i;
            }
            i = i + 1;
        }
        proof { lemma_last_max(widths@, widths@.len() as int); }
        if widths[best] <= MIN_COLUMN_WIDTH {
            return;
        }
        let ghost before = widths@;
        let v = widths[best] - 1;
        widths.set(best, v);
        proof { lemma_total_update(before, best as int, v); }
    }
}

/// Fitting never widens a column, never takes one below the minimum (or its
/// own width, if that was already smaller), and ends with the table within
/// budget unless its widest column is at the minimum.
pub proof fn lemma_fit_columns(ws: Seq<usize>, budget: int)
    ensures
        spec_fit(ws, budget).len() == ws.len(),
        forall|i: int| 0 <= i < ws.len() ==> #[trigger] spec_fit(ws, budget)[i] <= ws[i],
        forall|i: int| 0 <= i < ws.len() ==> #[trigger] spec_fit(ws, budget)[i] >= MIN_COLUMN_WIDTH || spec_fit(ws, budget)[i] == ws[i],
        total(spec_fit(ws, budget)) <= budget
            || forall|i: int| 0 <= i < ws.len() ==> #[trigger] spec_fit(ws, budget)[i] <= MIN_COLUMN_WIDTH,
        total(ws) <= budget ==> spec_fit(ws, budget) == ws,
    decreases total(ws),
{
    if ws.len() == 0 || total(ws) <= budget {
    } else {
        let k = last_max(ws, ws.len() as int);
        lemma_last_max(ws, ws.len() as int);
        if ws[k] > MIN_COLUMN_WIDTH {
            let next = ws.update(k, (ws[k] - 1) as usize);
            lemma_total_update(ws, k, (ws[k] - 1) as usize);
            lemma_total_nonneg(next);
            lemma_fit_columns(next, budget);
            assert forall|i: int| 0 <= i < ws.len() implies #[trigger] spec_fit(ws, budget)[i] >= MIN_COLUMN_WIDTH
                || spec_fit(ws, budget)[i] == ws[i] by {
                if i == k {
                    assert(spec_fit(next, budget)[i] >= MIN_COLUMN_WIDTH || spec_fit(next, budget)[i] == next[i]);
                }
            }
        }
    }
}

/// Fitting shrinks only the widest columns: every column it shrank ends
/// within one of the widest column left.
pub proof fn lemma_fit_columns_levels(ws: Seq<usize>, budget: int)
    ensures
        forall|i: int, j: int| 0 <= i < ws.len() && 0 <= j < ws.len() && #[trigger] spec_fit(ws, budget)[i] < ws[i]
            ==> #[trigger] spec_fit(ws, budget)[j] <= spec_fit(ws, budget)[i] + 1,
{
    lemma_fit_levels_from(ws, ws, budget);
}

proof fn lemma_fit_levels_from(ws0: Seq<usize>, ws: Seq<usize>, budget: int)
    requires
        ws.len() == ws0.len(),
        forall|i: int| 0 <= i < ws.len() ==> #[trigger] ws[i] <= ws0[i],
        forall|i: int, j: int| 0 <= i < ws.len() && 0 <= j < ws.len() && #[trigger] ws[i] < ws0[i]
            ==> #[trigger] ws[j] <= ws[i] + 1,
    ensures
        forall|i: int, j: int| 0 <= i < ws.len() && 0 <= j < ws.len() && #[trigger] spec_fit(ws, budget)[i] < ws0[i]
            ==> #[trigger] spec_fit(ws, budget)[j] <= spec_fit(ws, budget)[i] + 1,
    decreases total(ws),
{
    if ws.len() == 0 || total(ws) <= budget {
        assert(spec_fit(ws, budget) == ws);
    } else {
        let k = last_max(ws, ws.len() as int);
        lemma_last_max(ws, ws.len() as int);
        if ws[k] <= MIN_COLUMN_WIDTH {
            assert(spec_fit(ws, budget) == ws);
        } else {
            let next = ws.update(k, (ws[k] - 1) as usize);
            lemma_total_update(ws, k, (ws[k] - 1) as usize);
            lemma_total_nonneg(next);
            assert(spec_fit(ws, budget) == spec_fit(next, budget));
            assert forall|i: int, j: int| 0 <= i < next.len() && 0 <= j < next.len() && #[trigger] next[i] < ws0[i]
                implies #[trigger] next[j] <= next[i] + 1 by {
                if i == k {
                    assert(ws[j] <= ws[k]);
                } else {
                    assert(next[i] == ws[i]);
                    assert(ws[j] <= ws[i] + 1);
                }
            }
            lemma_fit_levels_from(ws0, next, budget);
        }
    }
}

// --- aligning a cell ----------------------------------------------------------------

/// The spaces before and after a cell's content of width `w` in a column `width` wide.
pub open spec fn slack_split(w: int, width: int, align: Alignment) -> (int, int) {
    let slack = if width > w { width - w } else { 0 };
    match align {
        Alignment::Right => (slack, 0),
        Alignment::Center => (slack / 2, slack - slack / 2),
        _ => (0, slack),
    }
}

/// A run of `n` spaces with no style of its own, or nothing for `n == 0`.
pub open spec fn blank(n: int) -> Seq<(Seq<char>, Style)> {
    if n > 0 { seq![(spec_repeat(' ', n as nat), spec_style_default())] } else { seq![] }
}

/// `content` padded out to `width` according to `align`.
pub open spec fn spec_align_cell(content: Seq<(Seq<char>, Style)>, width: int, align: Alignment) -> Seq<(Seq<char>, Style)> {
    let lr = slack_split(sat(spans_width(content)), width, align);
    blank(lr.0) + content + blank(lr.1)
}

/// A cell comes out exactly as wide as its column, however the slack splits,
/// and is never cut: its content stands whole between two runs of spaces,
/// whose lengths and the content's width add up to the column's width; content
/// wider than the column gets no padding. Centered content takes the odd
/// column of slack on its right.
pub proof fn lemma_align_cell_fills(content: Seq<(Seq<char>, Style)>, width: int, align: Alignment)
    requires
        width >= 0,
    ensures
        ({
            let w = sat(spans_width(content));
            let lr = slack_split(w, width, align);
            &&& spec_align_cell(content, width, align) == blank(lr.0) + content + blank(lr.1)
            &&& lr.0 >= 0 && lr.1 >= 0
            &&& w <= width ==> lr.0 + w + lr.1 == width
            &&& w > width ==> lr.0 == 0 && lr.1 == 0
            &&& align == Alignment::Center ==> lr.0 <= lr.1 <= lr.0 + 1
            &&& align == Alignment::Right ==> lr.1 == 0
            &&& (align == Alignment::Left || align == Alignment::Unaligned) ==> lr.0 == 0
        }),
{
}

/// Pads a cell's content out to `width` according to the column's alignment.
/// Content wider than the column is kept whole.
pub fn align_cell(content: Vec<Span>, width: usize, align: Alignment) -> (r: Vec<Span>)
    ensures
        spans_view(r@) == spec_align_cell(spans_view(content@), width as int, align),
{
    let w = self::width(content.as_slice());
    let slack = if width > w { width - w } else { 0 };
    let (left, right) = match align {
        Alignment::Right => (slack, 0),
        Alignment::Center => (slack / 2, slack - slack / 2),
        _ => (0, slack),
    };
    let mut out: Vec<Span> = Vec::new();
    if left > 0 {
        out.push(Span::raw(repeat_char(' ', left)));
    }
    assert(spans_view(out@) =~= blank(left as int));
    let mut i: usize = 0;
    while i < content.len()
        invariant
            i <= content@.len(),
            spans_view(out@) == blank(left as int) + spans_view(content@).take(i as int),
        decreases content@.len() - i,
    {
        let ghost ov = spans_view(out@);
        out.push(content[i].clone_span());
        assert(spans_view(out@) =~= ov.push(content@[i as int]@));
        assert(spans_view(content@).take(i + 1) =~= spans_view(content@).take(i as int).push(content@[i as int]@));
        assert(spans_view(out@) =~= blank(left as int) + spans_view(content@).take(i + 1));
        i = i + 1;
    }
    let ghost ov = spans_view(out@);
    if right > 0 {
        out.push(Span::raw(repeat_char(' ', right)));
    }
    assert(spans_view(content@).take(content@.len() as int) =~= spans_view(content@));
    assert(spans_view(out@) =~= ov + blank(right as int));
    out
}

// --- layout ------------------------------------------------------------------------

/// One table row as rendered, before column widths are known.
pub struct RawRow {
    pub header: bool,
    /// Each cell's content, already rendered to spans.
    pub cells: Vec<Vec<Span>>,
}

/// A row laid out: each cell wrapped to its column, one entry per line.
pub struct Row {
    pub header: bool,
    /// One entry per column, even where the source row was short.
    pub cells: Vec<Vec<Vec<Span>>>,
}

/// A table laid out: every cell wrapped to a column width that fits the screen.
pub struct Grid {
    pub rows: Vec<Row>,
    pub widths: Vec<usize>,
    /// Whether any cell wrapped: if so, rules between rows keep them readable.
    pub multiline: bool,
}

/// The view of a cell's lines.
pub open spec fn cell_view(cell: Vec<Vec<Span>>) -> Seq<Seq<(Seq<char>, Style)>> {
    rows_view(cell@)
}

/// A raw row's view: its header flag and each cell's spans.
pub type RawRowV = (bool, Seq<Seq<(Seq<char>, Style)>>);

/// The view of a raw row.
pub open spec fn raw_view(r: RawRow) -> RawRowV {
    (r.header, r.cells@.map_values(|c: Vec<Span>| spans_view(c@)))
}

/// The views of raw rows.
pub open spec fn raw_views(raw: Seq<RawRow>) -> Seq<RawRowV> {
    raw.map_values(|r: RawRow| raw_view(r))
}

/// The most cells any row has.
pub open spec fn column_count(raw: Seq<RawRowV>) -> int
    decreases raw.len(),
{
    if raw.len() == 0 {
        0
    } else {
        let rest = column_count(raw.drop_last());
        let n = raw.last().1.len() as int;
        if n > rest { n } else { rest }
    }
}

/// The room a cell's content needs to avoid wrapping.
pub open spec fn cell_need(cell: Seq<(Seq<char>, Style)>) -> int {
    crate::wrap::max_cols(crate::wrap::spec_hard_lines(crate::wrap::styled_chars(cell)))
}

/// `ws` widened so each column holds row `row`'s cell in it.
pub open spec fn widen(ws: Seq<usize>, row: RawRowV) -> Seq<usize> {
    Seq::new(ws.len(), |i: int|
        if i < row.1.len() && cell_need(row.1[i]) > ws[i] {
            cell_need(row.1[i]) as usize
        } else {
            ws[i]
        })
}

/// Each column's widest cell, at least 1.
pub open spec fn natural_widths(raw: Seq<RawRowV>, columns: int) -> Seq<usize>
    decreases raw.len(),
{
    if raw.len() == 0 {
        Seq::new(columns as nat, |_i: int| 1usize)
    } else {
        widen(natural_widths(raw.drop_last(), columns), raw.last())
    }
}

/// What the columns may take once every cell's chrome is paid for.
pub open spec fn column_budget(avail: int, columns: int) -> int {
    if CELL_CHROME * columns + 1 > avail { 0 } else { avail - (CELL_CHROME * columns + 1) }
}

/// The widths the columns end up with.
pub open spec fn spec_widths(raw: Seq<RawRowV>, avail: int) -> Seq<usize> {
    let columns = column_count(raw);
    spec_fit(natural_widths(raw, columns), column_budget(avail, columns))
}

/// Cell `i` of `row` wrapped to `width`, or one empty line if the row is short.
pub open spec fn spec_cell(row: RawRowV, i: int, width: int) -> Seq<Seq<(Seq<char>, Style)>> {
    if i < row.1.len() {
        crate::wrap::spec_wrap(row.1[i], width)
    } else {
        seq![seq![]]
    }
}

/// The layout's rows: the header flag, and each column's wrapped cell.
pub open spec fn spec_grid_rows(raw: Seq<RawRowV>, widths: Seq<usize>) -> Seq<(bool, Seq<Seq<Seq<(Seq<char>, Style)>>>)> {
    raw.map_values(|row: RawRowV| (row.0, Seq::new(widths.len(), |i: int| spec_cell(row, i, widths[i] as int))))
}

/// The view of a laid-out row.
pub open spec fn row_view(row: Row) -> (bool, Seq<Seq<Seq<(Seq<char>, Style)>>>) {
    (row.header, row.cells@.map_values(|c: Vec<Vec<Span>>| cell_view(c)))
}

/// Whether any cell of `rows` takes more than one line.
pub open spec fn any_multiline(rows: Seq<(bool, Seq<Seq<Seq<(Seq<char>, Style)>>>)>) -> bool {
    exists|r: int, c: int| 0 <= r < rows.len() && 0 <= c < rows[r].1.len() && #[trigger] rows[r].1[c].len() > 1
}

fn column_count_exec(raw: &Vec<RawRow>) -> (n: usize)
    ensures
        n == column_count(raw_views(raw@)),
{
    let ghost rv = raw_views(raw@);
    let mut n: usize = 0;
    let mut r: usize = 0;
    assert(rv.take(0) =~= Seq::<RawRowV>::empty());
    while r < raw.len()
        invariant
            r <= raw@.len(),
            rv == raw_views(raw@),
            n == column_count(rv.take(r as int)),
        decreases raw@.len() - r,
    {
        assert(rv.take(r + 1).drop_last() =~= rv.take(r as int));
        assert(rv[r as int].1.len() == raw@[r as int].cells@.len());
        if raw[r].cells.len() > n {
            n = raw[r].cells.len();
        }
        r = r + 1;
    }
    assert(rv.take(rv.len() as int) =~= rv);
    n
}

/// Renders every cell, sizes the columns to fit, and wraps each cell to its
/// column. `None` if the table has no columns.
pub fn layout(raw: &Vec<RawRow>, avail: usize) -> (g: Option<Grid>)
    ensures
        column_count(raw_views(raw@)) == 0 <==> g is None,
        g matches Some(grid) ==> {
            &&& grid.widths@ == spec_widths(raw_views(raw@), avail as int)
            &&& grid.rows@.map_values(|row: Row| row_view(row)) == spec_grid_rows(raw_views(raw@), grid.widths@)
            &&& grid.multiline == any_multiline(spec_grid_rows(raw_views(raw@), grid.widths@))
        },
{
    let ghost rv = raw_views(raw@);
    let columns = column_count_exec(raw);
    if columns == 0 {
        return None;
    }
    // Pass 2: give each column its widest cell, then shrink to fit.
    let mut widths: Vec<usize> = Vec::new();
    let mut c: usize = 0;
    while c < columns
        invariant
            c <= columns,
            widths@ == Seq::new(c as nat, |_i: int| 1usize),
        decreases columns - c,
    {
        widths.push(1);
        c = c + 1;
        assert(widths@ =~= Seq::new(c as nat, |_i: int| 1usize));
    }
    let mut r: usize = 0;
    assert(rv.take(0) =~= Seq::<RawRowV>::empty());
    while r < raw.len()
        invariant
            r <= raw@.len(),
            rv == raw_views(raw@),
            columns == column_count(rv),
            widths@ == natural_widths(rv.take(r as int), columns as int),
        decreases raw@.len() - r,
    {
        let row = &raw[r];
        let ghost ws0 = widths@;
        let ghost rowv = rv[r as int];
        proof { lemma_row_fits_columns(rv, r as int); }
        let mut i: usize = 0;
        while i < row.cells.len()
            invariant
                i <= row.cells@.len() <= widths@.len(),
                rowv == raw_view(*row),
                widths@.len() == ws0.len(),
                forall|k: int| 0 <= k < i ==> #[trigger] widths@[k] == widen(ws0, rowv)[k],
                forall|k: int| i <= k < ws0.len() ==> #[trigger] widths@[k] == ws0[k],
            decreases row.cells@.len() - i,
        {
            let need = crate::wrap::max_line_width(row.cells[i].as_slice());
            if need > widths[i] {
                widths.set(i, need);
            }
            i = i + 1;
        }
        assert(widths@ =~= widen(ws0, rowv));
        assert(rv.take(r + 1).drop_last() =~= rv.take(r as int));
        r = r + 1;
    }
    assert(rv.take(rv.len() as int) =~= rv);
    let budget = if columns > (usize::MAX - 1) / CELL_CHROME {
        0
    } else {
        avail.saturating_sub(CELL_CHROME * columns + 1)
    };
    assert(budget == column_budget(avail as int, columns as int));
    fit_columns(&mut widths, budget);
    proof { lemma_fit_columns(natural_widths(rv, columns as int), budget as int); }
    assert(widths@.len() == columns) by {
        lemma_natural_widths_len(rv, columns as int);
    }

    // Pass 3: wrap each cell to the column it ended up with.
    let ghost target = spec_grid_rows(rv, widths@);
    let mut rows: Vec<Row> = Vec::new();
    let mut multiline = false;
    let mut r: usize = 0;
    while r < raw.len()
        invariant
            r <= raw@.len(),
            widths@.len() == columns,
            rv == raw_views(raw@),
            target == spec_grid_rows(rv, widths@),
            rows@.len() == r,
            forall|k: int| 0 <= k < r ==> row_view(#[trigger] rows@[k]) == target[k],
            multiline == any_multiline(target.take(r as int)),
        decreases raw@.len() - r,
    {
        let row = &raw[r];
        let ghost rowv = rv[r as int];
        let mut cells: Vec<Vec<Vec<Span>>> = Vec::new();
        let mut row_multi = false;
        let mut i: usize = 0;
        while i < columns
            invariant
                i <= columns == widths@.len(),
                r < raw@.len(),
                rowv == raw_view(*row),
                cells@.len() == i,
                forall|k: int| 0 <= k < i ==> cell_view(#[trigger] cells@[k]) == spec_cell(rowv, k, widths@[k] as int),
                row_multi == exists|k: int| 0 <= k < i && #[trigger] spec_cell(rowv, k, widths@[k] as int).len() > 1,
            decreases columns - i,
        {
            let cell: Vec<Vec<Span>> = if i < row.cells.len() {
                crate::wrap::wrap(row.cells[i].as_slice(), widths[i])
            } else {
                let mut one: Vec<Vec<Span>> = Vec::new();
                one.push(Vec::new());
                assert(spans_view(one@[0]@) =~= Seq::<(Seq<char>, Style)>::empty());
                assert(rows_view(one@) =~= seq![Seq::<(Seq<char>, Style)>::empty()]);
                one
            };
            assert(cell_view(cell) == spec_cell(rowv, i as int, widths@[i as int] as int));
            assert(cell_view(cell).len() == cell@.len());
            let ghost rm0 = row_multi;
            if cell.len() > 1 {
                row_multi = true;
            }
            cells.push(cell);
            proof {
                if cell@.len() > 1 {
                    assert(spec_cell(rowv, i as int, widths@[i as int] as int).len() > 1);
                }
                if !row_multi {
                    assert forall|k: int| 0 <= k < i + 1 implies !(#[trigger] spec_cell(rowv, k, widths@[k] as int).len() > 1) by {
                        if k < i {
                            assert(!rm0);
                        }
                    }
                }
            }
            i = i + 1;
        }
        let ghost cv = cells@.map_values(|c: Vec<Vec<Span>>| cell_view(c));
        assert(cv =~= target[r as int].1);
        rows.push(Row { header: row.header, cells });
        proof {
            assert(target.take(r + 1) =~= target.take(r as int).push(target[r as int]));
            if row_multi {
                let k = choose|k: int| 0 <= k < columns && #[trigger] spec_cell(rowv, k, widths@[k] as int).len() > 1;
                assert(target.take(r + 1)[r as int].1[k].len() > 1);
            }
            if !row_multi && !multiline {
                assert forall|a: int, b: int| 0 <= a < target.take(r + 1).len() && 0 <= b < target.take(r + 1)[a].1.len()
                    implies !(#[trigger] target.take(r + 1)[a].1[b].len() > 1) by {
                    if a < r {
                        assert(target.take(r + 1)[a] == target.take(r as int)[a]);
                    }
                }
            }
            if multiline {
                let (a, b) = choose|a: int, b: int| 0 <= a < target.take(r as int).len() && 0 <= b < target.take(r as int)[a].1.len()
                    && #[trigger] target.take(r as int)[a].1[b].len() > 1;
                assert(target.take(r + 1)[a] == target.take(r as int)[a]);
            }
        }
        multiline = multiline || row_multi;
        r = r + 1;
    }
    assert(rows@.map_values(|row: Row| row_view(row)) =~= target);
    assert(target.take(target.len() as int) =~= target);
    Some(Grid { rows, widths, multiline })
}

pub proof fn lemma_natural_widths_len(raw: Seq<RawRowV>, columns: int)
    requires
        columns >= 0,
    ensures
        natural_widths(raw, columns).len() == columns,
    decreases raw.len(),
{
    if raw.len() > 0 {
        lemma_natural_widths_len(raw.drop_last(), columns);
    }
}

pub proof fn lemma_row_fits_columns(raw: Seq<RawRowV>, r: int)
    requires
        0 <= r < raw.len(),
    ensures
        raw[r].1.len() <= column_count(raw),
        natural_widths(raw.take(r), column_count(raw)).len() == column_count(raw),
    decreases raw.len(),
{
    lemma_column_count_nonneg(raw);
    lemma_natural_widths_len(raw.take(r), column_count(raw));
    if r < raw.len() - 1 {
        lemma_row_fits_columns(raw.drop_last(), r);
        assert(raw.drop_last()[r] == raw[r]);
    }
}

pub proof fn lemma_column_count_nonneg(raw: Seq<RawRowV>)
    ensures
        column_count(raw) >= 0,
    decreases raw.len(),
{
    if raw.len() > 0 {
        lemma_column_count_nonneg(raw.drop_last());
    }
}

// --- drawing -------------------------------------------------------------------------

/// The border style, as a plain spec value.
pub open spec fn border_style() -> Style {
    crate::theme::fg_style(crate::style::Color::DarkGray)
}

/// The horizontal run over one column: its width plus the two padding spaces.
pub open spec fn segment(w: usize) -> Seq<char> {
    spec_repeat('─', sat(w + 2) as nat)
}

/// The columns' runs, joined by `mid`.
pub open spec fn joined(ws: Seq<usize>, mid: char) -> Seq<char>
    decreases ws.len(),
{
    if ws.len() == 0 {
        seq![]
    } else if ws.len() == 1 {
        segment(ws[0])
    } else {
        joined(ws.drop_last(), mid).push(mid) + segment(ws.last())
    }
}

/// A horizontal rule across the table, with the given corner and joint glyphs.
pub open spec fn rule_line(ws: Seq<usize>, left: char, mid: char, right: char) -> Seq<(Seq<char>, Style)> {
    seq![(seq![left] + joined(ws, mid) + seq![right], border_style())]
}

/// Column `i`'s alignment, `Unaligned` past the end of `aligns`.
pub open spec fn align_at(aligns: Seq<Alignment>, i: int) -> Alignment {
    if 0 <= i < aligns.len() { aligns[i] } else { Alignment::Unaligned }
}

/// Line `k` of a cell, or nothing once the cell has run out of lines.
pub open spec fn cell_line(cell: Seq<Seq<(Seq<char>, Style)>>, k: int) -> Seq<(Seq<char>, Style)> {
    if 0 <= k < cell.len() { cell[k] } else { seq![] }
}

/// One cell's part of a row's line `k`: padded content and the bar after it.
pub open spec fn cell_piece(cell: Seq<Seq<(Seq<char>, Style)>>, k: int, width: usize, align: Alignment) -> Seq<(Seq<char>, Style)> {
    seq![(seq![' '], spec_style_default())]
        + spec_align_cell(cell_line(cell, k), width as int, align)
        + seq![(seq![' '], spec_style_default()), (seq!['│'], border_style())]
}

/// Line `k` of a row: the opening bar, then each cell's piece.
pub open spec fn row_line(
    cells: Seq<Seq<Seq<(Seq<char>, Style)>>>,
    ws: Seq<usize>,
    aligns: Seq<Alignment>,
    k: int,
) -> Seq<(Seq<char>, Style)>
    decreases cells.len(),
{
    if cells.len() == 0 {
        seq![(seq!['│'], border_style())]
    } else {
        let i = cells.len() - 1;
        row_line(cells.drop_last(), ws, aligns, k) + cell_piece(cells.last(), k, ws[i], align_at(aligns, i))
    }
}

/// How many lines a row takes: its tallest cell, or 1 for a row without cells.
pub open spec fn row_height(cells: Seq<Seq<Seq<(Seq<char>, Style)>>>) -> int
    decreases cells.len(),
{
    if cells.len() == 0 {
        0
    } else {
        let rest = row_height(cells.drop_last());
        if cells.last().len() > rest { cells.last().len() as int } else { rest }
    }
}

/// The lines of the table body, with a rule after the header and, when any
/// cell wrapped, between every two rows.
pub open spec fn draw_rows(
    rows: Seq<(bool, Seq<Seq<Seq<(Seq<char>, Style)>>>)>,
    ws: Seq<usize>,
    aligns: Seq<Alignment>,
    multiline: bool,
) -> Seq<Seq<(Seq<char>, Style)>>
    decreases rows.len(),
{
    if rows.len() == 0 {
        seq![]
    } else {
        let r = rows.len() - 1;
        let prev = draw_rows(rows.drop_last(), ws, aligns, multiline);
        let sep = if r > 0 && (rows[r - 1].0 || multiline) { seq![rule_line(ws, '├', '┼', '┤')] } else { seq![] };
        let h = if row_height(rows.last().1) > 0 { row_height(rows.last().1) } else { 1 };
        prev + sep + Seq::new(h as nat, |k: int| row_line(rows.last().1, ws, aligns, k))
    }
}

/// The whole table: top border, body, bottom border.
pub open spec fn spec_draw(
    rows: Seq<(bool, Seq<Seq<Seq<(Seq<char>, Style)>>>)>,
    ws: Seq<usize>,
    aligns: Seq<Alignment>,
    multiline: bool,
) -> Seq<Seq<(Seq<char>, Style)>> {
    seq![rule_line(ws, '┌', '┬', '┐')] + draw_rows(rows, ws, aligns, multiline) + seq![rule_line(ws, '└', '┴', '┘')]
}

fn clone_spans(v: &Vec<Span>) -> (r: Vec<Span>)
    ensures
        spans_view(r@) == spans_view(v@),
{
    let mut r: Vec<Span> = Vec::new();
    let mut i: usize = 0;
    while i < v.len()
        invariant
            i <= v@.len(),
            spans_view(r@) == spans_view(v@).take(i as int),
        decreases v@.len() - i,
    {
        let ghost r0 = spans_view(r@);
        r.push(v[i].clone_span());
        assert(spans_view(r@) =~= r0.push(v@[i as int]@));
        assert(spans_view(v@).take(i + 1) =~= spans_view(v@).take(i as int).push(v@[i as int]@));
        assert(spans_view(r@) =~= spans_view(v@).take(i + 1));
        i = i + 1;
    }
    assert(spans_view(v@).take(v@.len() as int) =~= spans_view(v@));
    r
}

fn rule(ws: &Vec<usize>, left: char, mid: char, right: char) -> (line: Vec<Span>)
    ensures
        spans_view(line@) == rule_line(ws@, left, mid, right),
{
    let mut cs: Vec<char> = Vec::new();
    cs.push(left);
    let mut i: usize = 0;
    assert(cs@ =~= seq![left] + joined(ws@.take(0), mid));
    while i < ws.len()
        invariant
            i <= ws@.len(),
            cs@ == seq![left] + joined(ws@.take(i as int), mid),
        decreases ws@.len() - i,
    {
        let ghost c0 = cs@;
        if i > 0 {
            cs.push(mid);
        }
        let n = ws[i].saturating_add(2);
        let ghost c1 = cs@;
        let mut k: usize = 0;
        while k < n
            invariant
                k <= n,
                cs@ == c1 + spec_repeat('─', k as nat),
            decreases n - k,
        {
            cs.push('─');
            k = k + 1;
            assert(cs@ =~= c1 + spec_repeat('─', k as nat));
        }
        proof {
            assert(ws@.take(i + 1).drop_last() =~= ws@.take(i as int));
            if i == 0 {
                assert(joined(ws@.take(1), mid) == segment(ws@[0]));
                assert(cs@ =~= seq![left] + joined(ws@.take(1), mid));
            } else {
                assert(cs@ =~= seq![left] + joined(ws@.take(i + 1), mid));
            }
        }
        i = i + 1;
    }
    assert(ws@.take(ws@.len() as int) =~= ws@);
    let ghost c2 = cs@;
    cs.push(right);
    assert(cs@ =~= seq![left] + joined(ws@, mid) + seq![right]);
    let mut line: Vec<Span> = Vec::new();
    let sp = Span::styled(crate::text::string_of(cs.as_slice()), crate::theme::table_border());
    assert(sp@ == (seq![left] + joined(ws@, mid) + seq![right], border_style()));
    line.push(sp);
    assert(line@ =~= seq![sp]);
    assert(spans_view(line@) =~= rule_line(ws@, left, mid, right));
    line
}

fn border_bar() -> (s: Span)
    ensures
        s@ == (seq!['│'], border_style()),
{
    Span::styled(repeat_char('│', 1), crate::theme::table_border())
}

fn space() -> (s: Span)
    ensures
        s@ == (seq![' '], spec_style_default()),
{
    Span::raw(repeat_char(' ', 1))
}

/// Line `k` of a laid-out row.
fn draw_row_line(row: &Row, ws: &Vec<usize>, aligns: &Vec<Alignment>, k: usize) -> (line: Vec<Span>)
    requires
        row.cells@.len() == ws@.len(),
    ensures
        spans_view(line@) == row_line(row_view(*row).1, ws@, aligns@, k as int),
{
    let ghost cells = row_view(*row).1;
    let mut line: Vec<Span> = Vec::new();
    line.push(border_bar());
    assert(cells.take(0) =~= Seq::<Seq<Seq<(Seq<char>, Style)>>>::empty());
    assert(spans_view(line@) =~= row_line(cells.take(0), ws@, aligns@, k as int));
    let mut i: usize = 0;
    while i < row.cells.len()
        invariant
            i <= row.cells@.len() == ws@.len(),
            cells == row_view(*row).1,
            spans_view(line@) == row_line(cells.take(i as int), ws@, aligns@, k as int),
        decreases row.cells@.len() - i,
    {
        let cell = &row.cells[i];
        let content = if k < cell.len() { clone_spans(&cell[k]) } else { Vec::new() };
        assert(spans_view(content@) == cell_line(cells[i as int], k as int)) by {
            assert(cells[i as int] == cell_view(*cell));
            if k >= cell.len() {
                assert(spans_view(content@) =~= Seq::<(Seq<char>, Style)>::empty());
            }
        }
        let align = if i < aligns.len() { aligns[i] } else { Alignment::Unaligned };
        let padded = align_cell(content, ws[i], align);
        let ghost l0 = spans_view(line@);
        line.push(space());
        let mut t: usize = 0;
        let ghost l1 = spans_view(line@);
        while t < padded.len()
            invariant
                t <= padded@.len(),
                spans_view(line@) == l1 + spans_view(padded@).take(t as int),
            decreases padded@.len() - t,
        {
            let ghost lt = spans_view(line@);
            line.push(padded[t].clone_span());
            assert(spans_view(line@) =~= lt.push(padded@[t as int]@));
            assert(spans_view(padded@).take(t + 1) =~= spans_view(padded@).take(t as int).push(padded@[t as int]@));
            assert(spans_view(line@) =~= l1 + spans_view(padded@).take(t + 1));
            t = t + 1;
        }
        assert(spans_view(padded@).take(padded@.len() as int) =~= spans_view(padded@));
        let ghost l2 = spans_view(line@);
        let s2 = space();
        let b2 = border_bar();
        line.push(s2);
        line.push(b2);
        proof {
            assert(spans_view(line@) =~= l2.push(s2@).push(b2@));
            assert(l1 =~= l0.push((seq![' '], spec_style_default())));
            assert(cells.take(i + 1).drop_last() =~= cells.take(i as int));
            assert(cells.take(i + 1).last() == cells[i as int]);
            assert(spans_view(line@) =~= l0 + cell_piece(cells[i as int], k as int, ws@[i as int], align_at(aligns@, i as int)));
        }
        i = i + 1;
    }
    assert(cells.take(cells.len() as int) =~= cells);
    line
}

fn row_height_exec(row: &Row) -> (h: usize)
    ensures
        h == row_height(row_view(*row).1),
{
    let ghost cells = row_view(*row).1;
    let mut h: usize = 0;
    let mut i: usize = 0;
    assert(cells.take(0) =~= Seq::<Seq<Seq<(Seq<char>, Style)>>>::empty());
    while i < row.cells.len()
        invariant
            i <= row.cells@.len(),
            cells == row_view(*row).1,
            h == row_height(cells.take(i as int)),
        decreases row.cells@.len() - i,
    {
        assert(cells.take(i + 1).drop_last() =~= cells.take(i as int));
        assert(cells[i as int].len() == row.cells@[i as int]@.len());
        if row.cells[i].len() > h {
            h = row.cells[i].len();
        }
        i = i + 1;
    }
    assert(cells.take(cells.len() as int) =~= cells);
    h
}

/// The rows of a view of laid-out rows.
pub open spec fn grid_rows_view(rows: Seq<Row>) -> Seq<(bool, Seq<Seq<Seq<(Seq<char>, Style)>>>)> {
    rows.map_values(|row: Row| row_view(row))
}

/// Draws a laid-out table: borders, cells padded to their columns, and rules
/// between rows where they help.
pub fn draw(grid: &Grid, aligns: &Vec<Alignment>) -> (out: Vec<Vec<Span>>)
    requires
        forall|r: int| 0 <= r < grid.rows@.len() ==> #[trigger] grid.rows@[r].cells@.len() == grid.widths@.len(),
    ensures
        rows_view(out@) == spec_draw(grid_rows_view(grid.rows@), grid.widths@, aligns@, grid.multiline),
{
    let ghost rv = grid_rows_view(grid.rows@);
    let mut out: Vec<Vec<Span>> = Vec::new();
    out.push(rule(&grid.widths, '┌', '┬', '┐'));
    let ghost top = rows_view(out@);
    assert(rv.take(0) =~= Seq::<(bool, Seq<Seq<Seq<(Seq<char>, Style)>>>)>::empty());
    assert(rows_view(out@) =~= top + draw_rows(rv.take(0), grid.widths@, aligns@, grid.multiline));
    let mut r: usize = 0;
    while r < grid.rows.len()
        invariant
            r <= grid.rows@.len(),
            rv == grid_rows_view(grid.rows@),
            top == seq![rule_line(grid.widths@, '┌', '┬', '┐')],
            forall|q: int| 0 <= q < grid.rows@.len() ==> #[trigger] grid.rows@[q].cells@.len() == grid.widths@.len(),
            rows_view(out@) == top + draw_rows(rv.take(r as int), grid.widths@, aligns@, grid.multiline),
        decreases grid.rows@.len() - r,
    {
        let ghost o0 = rows_view(out@);
        let sep = r > 0 && (grid.rows[r - 1].header || grid.multiline);
        if sep {
            let rl = rule(&grid.widths, '├', '┼', '┤');
            out.push(rl);
            assert(rows_view(out@) =~= o0.push(rule_line(grid.widths@, '├', '┼', '┤')));
        } else {
            assert(rows_view(out@) =~= o0);
        }
        let ghost o1 = rows_view(out@);
        let row = &grid.rows[r];
        let hh = row_height_exec(row);
        let h = if hh > 0 { hh } else { 1 };
        let mut k: usize = 0;
        while k < h
            invariant
                k <= h,
                r < grid.rows@.len(),
                *row == grid.rows@[r as int],
                row.cells@.len() == grid.widths@.len(),
                rows_view(out@) == o1 + Seq::new(k as nat, |q: int| row_line(row_view(*row).1, grid.widths@, aligns@, q)),
            decreases h - k,
        {
            let line = draw_row_line(row, &grid.widths, aligns, k);
            let ghost o2 = rows_view(out@);
            out.push(line);
            assert(rows_view(out@) =~= o2.push(spans_view(line@)));
            assert(rows_view(out@) =~= o1 + Seq::new((k + 1) as nat, |q: int| row_line(row_view(*row).1, grid.widths@, aligns@, q)));
            k = k + 1;
        }
        proof {
            assert(rv.take(r + 1).drop_last() =~= rv.take(r as int));
            assert(rv.take(r + 1).last() == row_view(*row));
            if r > 0 {
                assert(rv.take(r + 1)[r - 1] == row_view(grid.rows@[r - 1]));
            }
            let ghost sepv = if sep { seq![rule_line(grid.widths@, '├', '┼', '┤')] } else { Seq::<Seq<(Seq<char>, Style)>>::empty() };
            assert(o1 =~= o0 + sepv);
            assert(rows_view(out@) =~= top + draw_rows(rv.take(r + 1), grid.widths@, aligns@, grid.multiline));
        }
        r = r + 1;
    }
    let ghost o3 = rows_view(out@);
    out.push(rule(&grid.widths, '└', '┴', '┘'));
    assert(rv.take(rv.len() as int) =~= rv);
    assert(rows_view(out@) =~= o3.push(rule_line(grid.widths@, '└', '┴', '┘')));
    out
}

/// A table of rows `raw` laid out in `avail` columns and drawn.
pub open spec fn spec_table(raw: Seq<RawRowV>, avail: int, aligns: Seq<Alignment>) -> Seq<Seq<(Seq<char>, Style)>> {
    let widths = spec_widths(raw, avail);
    let rows = spec_grid_rows(raw, widths);
    spec_draw(rows, widths, aligns, any_multiline(rows))
}

/// Lays the table out to fit in `avail` columns and draws it. `None` if it has
/// no columns at all.
pub fn render(raw: &Vec<RawRow>, avail: usize, aligns: &Vec<Alignment>) -> (out: Option<Vec<Vec<Span>>>)
    ensures
        out is None <==> column_count(raw_views(raw@)) == 0,
        out matches Some(lines) ==> rows_view(lines@) == spec_table(raw_views(raw@), avail as int, aligns@),
{
    match layout(raw, avail) {
        None => None,
        Some(grid) => {
            assert(grid_rows_view(grid.rows@) == spec_grid_rows(raw_views(raw@), grid.widths@));
            assert forall|r: int| 0 <= r < grid.rows@.len() implies #[trigger] grid.rows@[r].cells@.len() == grid.widths@.len() by {
                assert(grid_rows_view(grid.rows@)[r] == row_view(grid.rows@[r]));
                assert(spec_grid_rows(raw_views(raw@), grid.widths@)[r].1.len() == grid.widths@.len());
            }
            Some(draw(&grid, aligns))
        }
    }
}

} // verus!
