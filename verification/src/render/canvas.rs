//! The rendered document, and everything needed to place one more line in it.
//!
//! A container (a quote, a list item) leads each of its lines with a prefix:
//! its bar, or its marker on the first line and blanks after. Prefixes stack,
//! outermost first. The canvas changes only through its methods, and each
//! method's contract says what it does to the canvas's view.

use vstd::prelude::*;

use crate::render::image::{Image, ImageV, image_view};
use crate::render::inline::SpanV;
use crate::style::{Line, Span, Style, clone_spans, extend_spans, spans_view, spec_style_default};
use crate::text::{repeat_char, spec_repeat, str_width};
use crate::wrap::{sat, spans_width, spec_wrap};

verus! {

/// Narrowest width text is wrapped to. If nesting eats more of the screen
/// than this, lines overflow and get clipped rather than collapsing to a
/// letter per row.
pub const MIN_TEXT_WIDTH: usize = 10;

/// Text drawn at the start of every line inside one container. `first`
/// leads the container's first line, `rest` every line after; `width` is what
/// the prefix costs on every line.
pub struct Prefix {
    pub first: Vec<Span>,
    pub rest: Vec<Span>,
    pub width: usize,
}

/// A prefix's view: its first and later leads, and its width.
pub type PrefixV = (Seq<SpanV>, Seq<SpanV>, usize);

/// The view of a prefix.
pub open spec fn prefix_view(p: Prefix) -> PrefixV {
    (spans_view(p.first@), spans_view(p.rest@), p.width)
}

/// A prefix leading with `first`, then `rest`, as wide as `first`.
pub open spec fn spec_prefix(first: Seq<SpanV>, rest: Seq<SpanV>) -> PrefixV {
    (first, rest, sat(spans_width(first)) as usize)
}

/// A prefix shown on every line, like a blockquote's bar.
pub open spec fn spec_every_line(spans: Seq<SpanV>) -> PrefixV {
    spec_prefix(spans, spans)
}

/// A prefix shown on the first line only, like a bullet: later lines get as
/// many blanks, so the text stays aligned.
pub open spec fn spec_first_line(spans: Seq<SpanV>) -> PrefixV {
    spec_prefix(spans, seq![(spec_repeat(' ', sat(spans_width(spans)) as nat), spec_style_default())])
}

impl Prefix {
    pub fn new(first: Vec<Span>, rest: Vec<Span>) -> (r: Prefix)
        ensures
            prefix_view(r) == spec_prefix(spans_view(first@), spans_view(rest@)),
    {
        let width = crate::wrap::width(first.as_slice());
        Prefix { first, rest, width }
    }

    /// Shown on every line, like a blockquote's bar.
    pub fn every_line(spans: Vec<Span>) -> (r: Prefix)
        ensures
            prefix_view(r) == spec_every_line(spans_view(spans@)),
            sat(spans_width(spans_view(r.rest@))) == r.width,
    {
        let rest = clone_spans(spans.as_slice());
        let r = Self::new(spans, rest);
        assert(prefix_view(r).1 == prefix_view(r).0);
        proof { crate::wrap::lemma_spans_width_nonneg(prefix_view(r).1); }
        r
    }

    /// Shown on the first line, like a bullet; later lines get blanks of the
    /// same width.
    pub fn first_line(spans: Vec<Span>) -> (r: Prefix)
        ensures
            prefix_view(r) == spec_first_line(spans_view(spans@)),
            sat(spans_width(spans_view(r.rest@))) == r.width,
    {
        let w = crate::wrap::width(spans.as_slice());
        let mut rest: Vec<Span> = Vec::new();
        let blanks = repeat_char(' ', w);
        // Learns that blanks are as wide as they are many.
        let bw = crate::text::unicode_str_width(blanks.as_str());
        assert(bw == w);
        rest.push(Span::raw(blanks));
        assert(spans_view(rest@) =~= seq![(spec_repeat(' ', w as nat), spec_style_default())]);
        assert(spans_view(rest@).drop_last() =~= Seq::<SpanV>::empty());
        assert(spans_width(spans_view(rest@)) == spans_width(Seq::<SpanV>::empty()) + str_width(spec_repeat(' ', w as nat)));
        let r = Self::new(spans, rest);
        assert(prefix_view(r).1 == spans_view(r.rest@));
        r
    }
}

/// A rendered element: text rows, or an image.
#[derive(Debug)]
pub enum RenderElement {
    /// A run of text rows.
    Lines(Vec<Line>),
    /// An image and the rows it takes.
    Image(Image),
}

/// An element's view.
pub enum ElementView {
    Lines(Seq<Seq<SpanV>>),
    Image(ImageV),
}

/// The view of a row.
pub open spec fn line_view(l: Line) -> Seq<SpanV> {
    spans_view(l.spans@)
}

/// The view of an element.
pub open spec fn element_view(e: RenderElement) -> ElementView {
    match e {
        RenderElement::Lines(ls) => ElementView::Lines(ls@.map_values(|l: Line| line_view(l))),
        RenderElement::Image(i) => ElementView::Image(image_view(i)),
    }
}

/// The views of a run of elements.
pub open spec fn elements_view(es: Seq<RenderElement>) -> Seq<ElementView> {
    es.map_values(|e: RenderElement| element_view(e))
}

/// The rendered document, and what the next line placed in it needs.
pub struct Canvas {
    /// Total width available, in columns.
    pub width: usize,
    /// Text rows and images, in document order.
    pub elements: Vec<RenderElement>,
    /// One entry per container we're inside, outermost first.
    pub prefixes: Vec<Prefix>,
    /// How many prefixes, from the outermost, have led a line already; the
    /// others lead their next line with `first`.
    pub drawn: usize,
    /// Whether the next block needs a blank line before it: true after
    /// content, false at the start, after a blank line, and when a container
    /// opens.
    pub needs_separator: bool,
}

/// A canvas's view.
pub struct CanvasView {
    pub width: usize,
    pub elements: Seq<ElementView>,
    pub prefixes: Seq<PrefixV>,
    pub drawn: int,
    pub needs_separator: bool,
}

impl View for Canvas {
    type V = CanvasView;

    open spec fn view(&self) -> CanvasView {
        CanvasView {
            width: self.width,
            elements: elements_view(self.elements@),
            prefixes: self.prefixes@.map_values(|p: Prefix| prefix_view(p)),
            drawn: self.drawn as int,
            needs_separator: self.needs_separator,
        }
    }
}

/// A canvas view is well formed when no more prefixes are drawn than exist.
pub open spec fn canvas_wf(c: CanvasView) -> bool {
    0 <= c.drawn <= c.prefixes.len()
}

/// What the prefixes take together, in columns.
pub open spec fn widths_sum(ps: Seq<PrefixV>) -> int
    decreases ps.len(),
{
    if ps.len() == 0 {
        0
    } else {
        widths_sum(ps.drop_last()) + ps.last().2
    }
}

/// Width left for content once every prefix has taken its share.
pub open spec fn spec_content_width(c: CanvasView) -> int {
    let left = c.width - widths_sum(c.prefixes);
    if left < MIN_TEXT_WIDTH { MIN_TEXT_WIDTH as int } else { left }
}

/// What leads the next line: each prefix's `rest` if it has been drawn,
/// else its `first`.
pub open spec fn lead(ps: Seq<PrefixV>, drawn: int) -> Seq<SpanV>
    decreases ps.len(),
{
    if ps.len() == 0 {
        seq![]
    } else {
        lead(ps.drop_last(), drawn) + (if ps.len() - 1 < drawn { ps.last().1 } else { ps.last().0 })
    }
}

/// What leads a blank line: every prefix's `rest`.
pub open spec fn blank_lead(ps: Seq<PrefixV>) -> Seq<SpanV>
    decreases ps.len(),
{
    if ps.len() == 0 {
        seq![]
    } else {
        blank_lead(ps.drop_last()) + ps.last().1
    }
}

/// `es` with `row` added to its trailing run of text, or a new run after an
/// image.
pub open spec fn spec_push_row(es: Seq<ElementView>, row: Seq<SpanV>) -> Seq<ElementView> {
    if es.len() > 0 {
        match es.last() {
            ElementView::Lines(ls) => es.drop_last().push(ElementView::Lines(ls.push(row))),
            ElementView::Image(_) => es.push(ElementView::Lines(seq![row])),
        }
    } else {
        es.push(ElementView::Lines(seq![row]))
    }
}

/// One line of `content` behind the current prefixes.
pub open spec fn spec_push_line(c: CanvasView, content: Seq<SpanV>) -> CanvasView {
    CanvasView {
        elements: spec_push_row(c.elements, lead(c.prefixes, c.drawn) + content),
        drawn: c.prefixes.len() as int,
        needs_separator: true,
        ..c
    }
}

/// Lines, one after another.
pub open spec fn spec_push_lines(c: CanvasView, rows: Seq<Seq<SpanV>>) -> CanvasView
    decreases rows.len(),
{
    if rows.len() == 0 {
        c
    } else {
        spec_push_line(spec_push_lines(c, rows.drop_last()), rows.last())
    }
}

/// A line that the next block follows directly, with no separator.
pub open spec fn spec_push_title(c: CanvasView, content: Seq<SpanV>) -> CanvasView {
    CanvasView { needs_separator: false, ..spec_push_line(c, content) }
}

/// A blank separator line: it keeps visible prefixes but never uses up a
/// pending marker.
pub open spec fn spec_push_blank(c: CanvasView) -> CanvasView {
    CanvasView { elements: spec_push_row(c.elements, blank_lead(c.prefixes)), needs_separator: false, ..c }
}

/// A blank line if content came before; otherwise nothing.
pub open spec fn spec_push_separator(c: CanvasView) -> CanvasView {
    if c.needs_separator { spec_push_blank(c) } else { c }
}

/// `spans` word-wrapped to the content width, line by line.
pub open spec fn spec_push_wrapped(c: CanvasView, spans: Seq<SpanV>) -> CanvasView {
    spec_push_lines(c, spec_wrap(spans, spec_content_width(c)))
}

/// A horizontal rule of `width` copies of `glyph`.
pub open spec fn spec_push_rule(c: CanvasView, glyph: char, width: nat, style: Style) -> CanvasView {
    spec_push_line(c, seq![(spec_repeat(glyph, width), style)])
}

/// An image, outside the prefixes: it renders into its own area.
pub open spec fn spec_push_image(c: CanvasView, img: ImageV) -> CanvasView {
    CanvasView { elements: c.elements.push(ElementView::Image(img)), needs_separator: true, ..c }
}

/// Entering a container led by `p`.
pub open spec fn spec_open_container(c: CanvasView, p: PrefixV) -> CanvasView {
    CanvasView { prefixes: c.prefixes.push(p), needs_separator: false, ..c }
}

/// Leaving the innermost container. One with no content (an empty list item)
/// still shows its marker on a line of its own.
pub open spec fn spec_close_container(c: CanvasView) -> CanvasView {
    let c1 = if c.prefixes.len() > 0 && c.drawn >= c.prefixes.len() { c } else { spec_push_line(c, seq![]) };
    let ps = if c1.prefixes.len() > 0 { c1.prefixes.drop_last() } else { c1.prefixes };
    CanvasView {
        prefixes: ps,
        drawn: if c1.drawn > ps.len() { ps.len() as int } else { c1.drawn },
        needs_separator: true,
        ..c1
    }
}

pub proof fn lemma_widths_sum_nonneg(ps: Seq<PrefixV>)
    ensures
        widths_sum(ps) >= 0,
    decreases ps.len(),
{
    if ps.len() > 0 {
        lemma_widths_sum_nonneg(ps.drop_last());
    }
}

impl Canvas {
    pub fn new(width: usize) -> (c: Canvas)
        ensures
            c@ == (CanvasView {
                width,
                elements: Seq::empty(),
                prefixes: Seq::empty(),
                drawn: 0,
                needs_separator: false,
            }),
    {
        let c = Canvas { width, elements: Vec::new(), prefixes: Vec::new(), drawn: 0, needs_separator: false };
        assert(c@.elements =~= Seq::<ElementView>::empty());
        assert(c@.prefixes =~= Seq::<PrefixV>::empty());
        c
    }

    /// Width left for content once every active prefix has taken its share.
    pub fn content_width(&self) -> (w: usize)
        ensures
            w == spec_content_width(self@),
    {
        let ghost ps = self@.prefixes;
        let mut used: usize = 0;
        let mut i: usize = 0;
        assert(ps.take(0) =~= Seq::<PrefixV>::empty());
        while i < self.prefixes.len()
            invariant
                i <= self.prefixes@.len(),
                ps == self@.prefixes,
                used == sat(widths_sum(ps.take(i as int))),
            decreases self.prefixes@.len() - i,
        {
            proof { lemma_widths_sum_nonneg(ps.take(i as int)); }
            assert(ps.take(i + 1).drop_last() =~= ps.take(i as int));
            used = used.saturating_add(self.prefixes[i].width);
            i = i + 1;
        }
        assert(ps.take(ps.len() as int) =~= ps);
        proof { lemma_widths_sum_nonneg(ps); }
        let left = self.width.saturating_sub(used);
        if left < MIN_TEXT_WIDTH {
            MIN_TEXT_WIDTH
        } else {
            left
        }
    }

    /// Enters a container that leads every line with `prefix`.
    pub fn open_container(&mut self, prefix: Prefix)
        requires
            canvas_wf(old(self)@),
        ensures
            final(self)@ == spec_open_container(old(self)@, prefix_view(prefix)),
            canvas_wf(final(self)@),
    {
        let ghost c0 = self@;
        self.prefixes.push(prefix);
        self.needs_separator = false;
        assert(self@.prefixes =~= c0.prefixes.push(prefix_view(prefix)));
    }

    /// Adds a row to the trailing run of text, starting a new run after an image.
    fn push_row(&mut self, line: Line)
        ensures
            final(self)@ == (CanvasView { elements: spec_push_row(old(self)@.elements, line_view(line)), ..old(self)@ }),
    {
        let ghost c0 = self@;
        match self.elements.pop() {
            Some(RenderElement::Lines(mut ls)) => {
                let ghost lv = ls@.map_values(|l: Line| line_view(l));
                ls.push(line);
                assert(ls@.map_values(|l: Line| line_view(l)) =~= lv.push(line_view(line)));
                self.elements.push(RenderElement::Lines(ls));
            },
            Some(other) => {
                self.elements.push(other);
                let mut ls: Vec<Line> = Vec::new();
                ls.push(line);
                assert(ls@.map_values(|l: Line| line_view(l)) =~= seq![line_view(line)]);
                self.elements.push(RenderElement::Lines(ls));
            },
            None => {
                let mut ls: Vec<Line> = Vec::new();
                ls.push(line);
                assert(ls@.map_values(|l: Line| line_view(l)) =~= seq![line_view(line)]);
                self.elements.push(RenderElement::Lines(ls));
            },
        }
        assert(self@.elements =~= spec_push_row(c0.elements, line_view(line)));
        assert(self@.prefixes =~= c0.prefixes);
    }

    /// The spans that lead the next line.
    fn lead_spans(&self) -> (r: Vec<Span>)
        ensures
            spans_view(r@) == lead(self@.prefixes, self@.drawn),
    {
        let ghost ps = self@.prefixes;
        let mut out: Vec<Span> = Vec::new();
        let mut i: usize = 0;
        assert(ps.take(0) =~= Seq::<PrefixV>::empty());
        assert(spans_view(out@) =~= Seq::<SpanV>::empty());
        while i < self.prefixes.len()
            invariant
                i <= self.prefixes@.len(),
                ps == self@.prefixes,
                spans_view(out@) == lead(ps.take(i as int), self.drawn as int),
            decreases self.prefixes@.len() - i,
        {
            assert(ps.take(i + 1).drop_last() =~= ps.take(i as int));
            let p = &self.prefixes[i];
            if i < self.drawn {
                extend_spans(&mut out, p.rest.as_slice());
            } else {
                extend_spans(&mut out, p.first.as_slice());
            }
            i = i + 1;
        }
        assert(ps.take(ps.len() as int) =~= ps);
        out
    }

    /// The spans that lead a blank line.
    fn blank_spans(&self) -> (r: Vec<Span>)
        ensures
            spans_view(r@) == blank_lead(self@.prefixes),
    {
        let ghost ps = self@.prefixes;
        let mut out: Vec<Span> = Vec::new();
        let mut i: usize = 0;
        assert(ps.take(0) =~= Seq::<PrefixV>::empty());
        assert(spans_view(out@) =~= Seq::<SpanV>::empty());
        while i < self.prefixes.len()
            invariant
                i <= self.prefixes@.len(),
                ps == self@.prefixes,
                spans_view(out@) == blank_lead(ps.take(i as int)),
            decreases self.prefixes@.len() - i,
        {
            assert(ps.take(i + 1).drop_last() =~= ps.take(i as int));
            extend_spans(&mut out, self.prefixes[i].rest.as_slice());
            i = i + 1;
        }
        assert(ps.take(ps.len() as int) =~= ps);
        out
    }

    /// Emits one line of content behind the current prefixes.
    pub fn push_line(&mut self, content: Vec<Span>)
        requires
            canvas_wf(old(self)@),
        ensures
            final(self)@ == spec_push_line(old(self)@, spans_view(content@)),
            canvas_wf(final(self)@),
    {
        let ghost c0 = self@;
        let mut spans = self.lead_spans();
        let ghost l0 = spans_view(spans@);
        extend_spans(&mut spans, content.as_slice());
        self.push_row(Line::from_spans(spans));
        self.drawn = self.prefixes.len();
        self.needs_separator = true;
    }

    /// Emits `rows`, one line each.
    pub fn push_lines(&mut self, rows: Vec<Vec<Span>>)
        requires
            canvas_wf(old(self)@),
        ensures
            final(self)@ == spec_push_lines(old(self)@, crate::style::rows_view(rows@)),
            canvas_wf(final(self)@),
    {
        let ghost c0 = self@;
        let ghost rv = crate::style::rows_view(rows@);
        let mut rows = rows;
        let mut i: usize = 0;
        let n = rows.len();
        assert(rv.take(0) =~= Seq::<Seq<SpanV>>::empty());
        while i < n
            invariant
                i <= n == rows@.len() == rv.len(),
                rv == crate::style::rows_view(rows@),
                canvas_wf(self@),
                self@ == spec_push_lines(c0, rv.take(i as int)),
            decreases n - i,
        {
            let row = clone_spans(rows[i].as_slice());
            assert(spans_view(row@) == rv[i as int]);
            assert(rv.take(i + 1).drop_last() =~= rv.take(i as int));
            self.push_line(row);
            i = i + 1;
        }
        assert(rv.take(n as int) =~= rv);
    }

    /// Emits a line the next block follows directly, with no separator.
    pub fn push_title(&mut self, content: Vec<Span>)
        requires
            canvas_wf(old(self)@),
        ensures
            final(self)@ == spec_push_title(old(self)@, spans_view(content@)),
            canvas_wf(final(self)@),
    {
        self.push_line(content);
        self.needs_separator = false;
    }

    /// Emits a blank separator line.
    pub fn push_blank(&mut self)
        requires
            canvas_wf(old(self)@),
        ensures
            final(self)@ == spec_push_blank(old(self)@),
            canvas_wf(final(self)@),
    {
        let spans = self.blank_spans();
        self.push_row(Line::from_spans(spans));
        self.needs_separator = false;
    }

    /// Emits a blank line if content came before it; otherwise nothing.
    pub fn push_separator(&mut self)
        requires
            canvas_wf(old(self)@),
        ensures
            final(self)@ == spec_push_separator(old(self)@),
            canvas_wf(final(self)@),
    {
        if self.needs_separator {
            self.push_blank();
        }
    }

    /// Word-wraps `spans` to the content width and emits the result.
    pub fn push_wrapped(&mut self, spans: Vec<Span>)
        requires
            canvas_wf(old(self)@),
        ensures
            final(self)@ == spec_push_wrapped(old(self)@, spans_view(spans@)),
            canvas_wf(final(self)@),
    {
        let w = self.content_width();
        let rows = crate::wrap::wrap(spans.as_slice(), w);
        self.push_lines(rows);
    }

    /// Emits a horizontal rule `width` columns wide.
    pub fn push_rule(&mut self, glyph: char, width: usize, style: Style)
        requires
            canvas_wf(old(self)@),
        ensures
            final(self)@ == spec_push_rule(old(self)@, glyph, width as nat, style),
            canvas_wf(final(self)@),
    {
        let mut content: Vec<Span> = Vec::new();
        content.push(Span::styled(repeat_char(glyph, width), style));
        assert(spans_view(content@) =~= seq![(spec_repeat(glyph, width as nat), style)]);
        self.push_line(content);
    }

    /// Emits an image. It sits outside the prefixes: the image renders into
    /// its own area, not behind any container prefix.
    pub fn push_image(&mut self, img: Image)
        requires
            canvas_wf(old(self)@),
        ensures
            final(self)@ == spec_push_image(old(self)@, image_view(img)),
            canvas_wf(final(self)@),
    {
        let ghost c0 = self@;
        let ghost iv = image_view(img);
        self.elements.push(RenderElement::Image(img));
        self.needs_separator = true;
        assert(self@.elements =~= c0.elements.push(ElementView::Image(iv)));
    }

    /// Leaves the innermost container.
    pub fn close_container(&mut self)
        requires
            canvas_wf(old(self)@),
        ensures
            final(self)@ == spec_close_container(old(self)@),
            canvas_wf(final(self)@),
    {
        let n = self.prefixes.len();
        if !(n > 0 && self.drawn >= n) {
            self.push_line(Vec::new());
            assert(spans_view(Seq::<Span>::empty()) =~= Seq::<SpanV>::empty());
        }
        let ghost c1 = self@;
        if self.prefixes.len() > 0 {
            let _ = self.prefixes.pop();
        }
        assert(self@.prefixes =~= (if c1.prefixes.len() > 0 { c1.prefixes.drop_last() } else { c1.prefixes }));
        if self.drawn > self.prefixes.len() {
            self.drawn = self.prefixes.len();
        }
        self.needs_separator = true;
    }
}

/// A container that drew nothing still shows its marker: closing it emits one
/// more line, led by the open prefixes with the innermost one's `first`.
pub proof fn lemma_empty_container_shows_marker(c: CanvasView)
    requires
        canvas_wf(c),
        c.prefixes.len() > 0,
        c.drawn < c.prefixes.len(),
    ensures
        spec_close_container(c).elements == spec_push_row(
            c.elements,
            lead(c.prefixes.drop_last(), c.drawn) + c.prefixes.last().0,
        ),
{
    assert(lead(c.prefixes, c.drawn) + Seq::<SpanV>::empty() =~= lead(c.prefixes, c.drawn));
}

/// A line placed inside containers is led by every open container, outermost
/// first, and what it leads with is each prefix's `first` exactly once: the
/// next line gets the `rest`s.
pub proof fn lemma_lines_lead_with_prefixes(c: CanvasView, content: Seq<SpanV>)
    requires
        canvas_wf(c),
    ensures
        spec_push_line(c, content).drawn == c.prefixes.len(),
        spec_push_line(c, content).prefixes == c.prefixes,
        lead(c.prefixes, c.prefixes.len() as int) == blank_lead(c.prefixes),
    decreases c.prefixes.len(),
{
    lemma_lead_all_drawn(c.prefixes, c.prefixes.len() as int);
}

proof fn lemma_lead_all_drawn(ps: Seq<PrefixV>, d: int)
    requires
        d >= ps.len(),
    ensures
        lead(ps, d) == blank_lead(ps),
    decreases ps.len(),
{
    if ps.len() > 0 {
        lemma_lead_all_drawn(ps.drop_last(), d);
    }
}

} // verus!
