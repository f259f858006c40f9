//! Turns Markdown into styled terminal lines.
//!
//! `block` handles vertical structure (paragraphs, lists, quotes, ...) and
//! `inline` flattens a block's contents into styled spans. A `Line` is a row of
//! spans and each carries its own `Style`, so a word can be bold without any
//! `**`.
//!
//! Rendering happens at a fixed width, because wrapping happens here and rules
//! and code blocks stretch to fill the line. The app re-renders whenever the
//! terminal is resized.
//!
//! State splits three ways: the `Canvas` owns the output and how a line is
//! placed, `Ctx` is what a block inherits from the containers around it,
//! passed down by value, and the `Renderer` holds the canvas plus what is
//! global to the whole document. Every step has a spec function over views,
//! and `render_document` is proved to compute their composition.

pub mod canvas;
pub mod image;
pub mod inline;
pub mod laws;
pub mod table;

use vstd::prelude::*;

use crate::doc::{ListInfo, Node, NodeKind};
use crate::highlight::{highlight, spec_highlight};
use crate::render::canvas::{
    Canvas, CanvasView, Prefix, RenderElement, canvas_wf, elements_view, spec_close_container,
    spec_content_width, spec_every_line, spec_first_line, spec_open_container, spec_push_image, spec_push_line,
    spec_push_lines, spec_push_rule, spec_push_separator, spec_push_title, spec_push_wrapped,
};
use crate::render::image::{DescV, Image, ImageDescriptor, ImageSet, SetV, desc_view, loaded_height, set_view, spec_locate};
use crate::render::inline::{SpanV, alt_text, html_over, image_label, inlines, plain_text, spec_image_label, spec_inlines};
use crate::render::table::{Alignment, RawRow, RawRowV, column_count, raw_views, spec_table};
use crate::style::{Color, Modifier, Span, Style, rows_view, spans_view, spec_add_modifier, spec_patch, spec_remove_modifier, spec_style_default};
use crate::text::{
    chars_of, dec, decimal, ends_with, lines_of, repeat_char, spec_is_whitespace, spec_lines, spec_repeat, spec_trim,
    starts_with, str_width, string_of, trim, unicode_str_width,
};
use crate::theme;
use crate::theme::AlertKind;
use crate::wrap::{expand_from, sat, spec_pad, spec_wrap_chars};

verus! {

/// The footnote section's divider is short, not a full-width rule.
pub const FOOTNOTE_RULE_WIDTH: usize = 20;

/// Columns a code block spends on padding: one space either side of the code.
pub const CODE_GUTTER: usize = 2;

/// What a block inherits from the containers around it. Every block takes it
/// by value, so a container changes it for its children only.
///
/// Prose inherits `base_style`; chrome doesn't. Borders, markers, rules and
/// cell padding are themed absolutely, so a table inside a blockquote keeps
/// its own border color.
#[derive(Clone, Copy, Debug)]
pub struct Ctx {
    /// Style every piece of text starts from: a blockquote greys it out, a
    /// checked task dims it.
    pub base_style: Style,
    /// Inside a tight list, blocks aren't separated by blank lines.
    pub tight: bool,
    pub list_depth: usize,
}

/// The context a document starts in.
pub open spec fn default_ctx() -> Ctx {
    Ctx { base_style: spec_style_default(), tight: false, list_depth: 0 }
}

impl Ctx {
    /// The context a document starts in.
    pub fn new() -> (r: Ctx)
        ensures
            r == default_ctx(),
    {
        Ctx { base_style: Style::new(), tight: false, list_depth: 0 }
    }
}

/// What the whole document shares: the images that may be drawn (none at
/// all without a set), and the front matter's text.
pub struct RenderEnv {
    pub images: Option<SetV>,
    pub front_matter: Seq<char>,
}

/// The view of an optional image set.
pub open spec fn opt_set_view(images: Option<&ImageSet>) -> Option<SetV> {
    match images {
        Some(s) => Some(set_view(*s)),
        None => None,
    }
}

/// The environment of a run.
pub open spec fn env_view(images: Option<&ImageSet>, front_matter: Seq<char>) -> RenderEnv {
    RenderEnv { images: opt_set_view(images), front_matter }
}

/// The renderer's state: the canvas, whether the footnote divider has been
/// drawn, and the images the document could show but that were not loaded
/// (nor found unloadable) yet.
pub struct RenderState {
    pub canvas: CanvasView,
    pub footnotes_started: bool,
    pub misses: Seq<DescV>,
}

/// The state with its canvas replaced.
pub open spec fn with_canvas(s: RenderState, c: CanvasView) -> RenderState {
    RenderState { canvas: c, ..s }
}

/// A blank line between a block and what came before, unless the block sits
/// in a tight list.
pub open spec fn spec_separate(s: RenderState, ctx: Ctx) -> RenderState {
    if ctx.tight { s } else { with_canvas(s, spec_push_separator(s.canvas)) }
}

// --- list items ------------------------------------------------------------------

/// A list item is plain, or a task that's still to do or done.
#[derive(Clone, Copy, Debug, PartialEq, Eq, Structural)]
pub enum ItemKind {
    Plain,
    Todo,
    Done,
}

/// The kind of item a node is.
pub open spec fn spec_item_kind(k: NodeKind) -> ItemKind {
    match k {
        NodeKind::TaskItem(done) => if done { ItemKind::Done } else { ItemKind::Todo },
        _ => ItemKind::Plain,
    }
}

/// The box a task is drawn with; plain items have none.
pub open spec fn spec_checkbox(k: ItemKind) -> Seq<SpanV> {
    match k {
        ItemKind::Plain => seq![],
        ItemKind::Todo => seq![("☐ "@, theme::fg_style(Color::Yellow))],
        ItemKind::Done => seq![("✔ "@, theme::fg_style(Color::Green))],
    }
}

impl ItemKind {
    pub fn of(kind: &NodeKind) -> (r: ItemKind)
        ensures
            r == spec_item_kind(*kind),
    {
        match kind {
            NodeKind::TaskItem(done) => if *done { ItemKind::Done } else { ItemKind::Todo },
            _ => ItemKind::Plain,
        }
    }

    /// The box a task is drawn with; plain items have none.
    pub fn checkbox(self) -> (r: Option<Span>)
        ensures
            match r {
                Some(s) => spec_checkbox(self) == seq![s@],
                None => spec_checkbox(self) == Seq::<SpanV>::empty(),
            },
    {
        match self {
            ItemKind::Plain => None,
            ItemKind::Todo => Some(Span::styled("☐ ".to_string(), theme::task_todo())),
            ItemKind::Done => Some(Span::styled("✔ ".to_string(), theme::task_done())),
        }
    }
}

/// `digits` right-aligned in `width` columns.
pub open spec fn right_aligned(digits: Seq<char>, width: nat) -> Seq<char> {
    if digits.len() < width { spec_repeat(' ', (width - digits.len()) as nat) + digits } else { digits }
}

/// The last number an ordered list of `count` items shows.
pub open spec fn last_number(info: ListInfo, count: nat) -> nat {
    sat(info.start + if count > 0 { count - 1 } else { 0 }) as nat
}

/// What leads item `i` of a list of `count` items at nesting `depth`: a
/// bullet, or a task's box in its place; or a number, right-aligned to the
/// widest, with the box beside it.
pub open spec fn spec_item_marker(info: ListInfo, count: nat, depth: usize, i: nat, kind: ItemKind) -> Seq<SpanV> {
    if info.ordered {
        let width = dec(last_number(info, count)).len();
        let number = right_aligned(dec(sat(info.start + i) as nat), width) + seq![
            if info.paren { ')' } else { '.' },
            ' ',
        ];
        seq![(number, theme::fg_style(Color::Cyan))] + spec_checkbox(kind)
    } else if kind == ItemKind::Plain {
        seq![(theme::bullet_glyph(depth)@ + seq![' '], theme::fg_style(theme::bullet_color(depth)))]
    } else {
        spec_checkbox(kind)
    }
}

/// What leads each item of one list, fixed for the whole list.
pub enum ListMarker {
    /// The same glyph on every item.
    Bullet(Span),
    /// A number counting up from `start`, right-aligned to `width`.
    Ordered { start: usize, width: usize, delim: char },
}

/// Whether `m` is the marker of a list of `count` items at `depth`.
pub open spec fn marker_of(m: ListMarker, info: ListInfo, count: nat, depth: usize) -> bool {
    match m {
        ListMarker::Bullet(s) => !info.ordered
            && s@ == (theme::bullet_glyph(depth)@ + seq![' '], theme::fg_style(theme::bullet_color(depth))),
        ListMarker::Ordered { start, width, delim } => info.ordered && start == info.start
            && width == dec(last_number(info, count)).len() && delim == if info.paren { ')' } else { '.' },
    }
}

impl ListMarker {
    pub fn new(info: ListInfo, count: usize, depth: usize) -> (r: ListMarker)
        ensures
            marker_of(r, info, count as nat, depth),
    {
        if info.ordered {
            let last = info.start.saturating_add(if count > 0 { count - 1 } else { 0 });
            let digits = decimal(last);
            assert(last as nat == last_number(info, count as nat));
            ListMarker::Ordered { start: info.start, width: digits.len(), delim: if info.paren { ')' } else { '.' } }
        } else {
            let (glyph, style) = theme::bullet(depth);
            let mut cs = chars_of(glyph);
            cs.push(' ');
            assert(cs@ =~= theme::bullet_glyph(depth)@ + seq![' ']);
            ListMarker::Bullet(Span::styled(string_of(cs.as_slice()), style))
        }
    }

    /// The marker for item `i` (counting from 0).
    pub fn for_item(&self, i: usize, kind: ItemKind) -> (r: Vec<Span>)
        requires
            exists|info: ListInfo, count: nat, depth: usize| #[trigger] marker_of(*self, info, count, depth),
        ensures
            forall|info: ListInfo, count: nat, depth: usize| #[trigger] marker_of(*self, info, count, depth)
                ==> spans_view(r@) == spec_item_marker(info, count, depth, i as nat, kind),
    {
        let mut out: Vec<Span> = Vec::new();
        match self {
            ListMarker::Bullet(bullet) => {
                match kind.checkbox() {
                    Some(b) => out.push(b),
                    None => out.push(bullet.clone_span()),
                }
                assert(spans_view(out@) =~= seq![out@[0]@]);
            },
            ListMarker::Ordered { start, width, delim } => {
                let digits = decimal(start.saturating_add(i));
                let mut cs: Vec<char> = Vec::new();
                if digits.len() < *width {
                    let pad = *width - digits.len();
                    let mut k: usize = 0;
                    while k < pad
                        invariant
                            k <= pad,
                            cs@ == spec_repeat(' ', k as nat),
                        decreases pad - k,
                    {
                        cs.push(' ');
                        k = k + 1;
                        assert(cs@ =~= spec_repeat(' ', k as nat));
                    }
                }
                let ghost c0 = cs@;
                let mut k: usize = 0;
                while k < digits.len()
                    invariant
                        k <= digits@.len(),
                        cs@ == c0 + digits@.take(k as int),
                    decreases digits@.len() - k,
                {
                    cs.push(digits[k]);
                    k = k + 1;
                    assert(cs@ =~= c0 + digits@.take(k as int));
                }
                assert(digits@.take(digits@.len() as int) =~= digits@);
                cs.push(*delim);
                cs.push(' ');
                assert(cs@ =~= right_aligned(digits@, *width as nat) + seq![*delim, ' ']);
                out.push(Span::styled(string_of(cs.as_slice()), theme::ordered_marker()));
                let ghost o1 = spans_view(out@);
                match kind.checkbox() {
                    Some(b) => out.push(b),
                    None => {},
                }
                assert(spans_view(out@) =~= o1 + spec_checkbox(kind));
            },
        }
        out
    }
}

// --- the small blocks -----------------------------------------------------------------

/// A fence's language ends at whitespace, a comma or a closing brace.
pub open spec fn ends_language(c: char) -> bool {
    spec_is_whitespace(c) || c == ',' || c == '}'
}

/// `info` without the opening braces it starts with.
pub open spec fn skip_braces(info: Seq<char>) -> Seq<char>
    decreases info.len(),
{
    if info.len() > 0 && info[0] == '{' {
        skip_braces(info.drop_first())
    } else {
        info
    }
}

/// The longest start of `s` without whitespace, a comma or a closing brace.
pub open spec fn language_prefix(s: Seq<char>) -> Seq<char>
    decreases s.len(),
{
    if s.len() == 0 || ends_language(s[0]) {
        seq![]
    } else {
        seq![s[0]] + language_prefix(s.drop_first())
    }
}

/// The language from a fence's info string, which may carry more after it:
/// `rust`, `python title="x"`, `js,twoslash`, `{r}`.
pub open spec fn spec_fence_language(info: Seq<char>) -> Seq<char> {
    language_prefix(skip_braces(info))
}

/// Skipping the opening braces drops exactly the braces at the start.
pub proof fn lemma_skip_braces(info: Seq<char>)
    ensures
        skip_braces(info).len() <= info.len(),
        skip_braces(info) == info.skip(info.len() - skip_braces(info).len()),
        forall|i: int| 0 <= i < info.len() - skip_braces(info).len() ==> #[trigger] info[i] == '{',
        skip_braces(info).len() > 0 ==> skip_braces(info)[0] != '{',
    decreases info.len(),
{
    if info.len() > 0 && info[0] == '{' {
        let t = info.drop_first();
        lemma_skip_braces(t);
        assert(info.skip(info.len() - skip_braces(t).len()) =~= t.skip(t.len() - skip_braces(t).len()));
        assert forall|i: int| 0 <= i < info.len() - skip_braces(info).len() implies #[trigger] info[i] == '{' by {
            if i > 0 {
                assert(info[i] == t[i - 1]);
            }
        }
    } else {
        assert(info.skip(0) =~= info);
    }
}

/// The language is what follows the opening braces, up to the first
/// whitespace, comma or closing brace.
pub proof fn lemma_fence_language(info: Seq<char>)
    ensures
        ({
            let s = skip_braces(info);
            let lang = spec_fence_language(info);
            &&& s == info.skip(info.len() - s.len())
            &&& forall|i: int| 0 <= i < info.len() - s.len() ==> #[trigger] info[i] == '{'
            &&& s.len() > 0 ==> s[0] != '{'
            &&& lang.len() <= s.len()
            &&& lang == s.take(lang.len() as int)
            &&& forall|i: int| 0 <= i < lang.len() ==> !ends_language(#[trigger] s[i])
            &&& lang.len() < s.len() ==> ends_language(s[lang.len() as int])
        }),
{
    lemma_skip_braces(info);
    lemma_language_prefix(skip_braces(info));
}

proof fn lemma_language_prefix(s: Seq<char>)
    ensures
        language_prefix(s).len() <= s.len(),
        language_prefix(s) == s.take(language_prefix(s).len() as int),
        forall|i: int| 0 <= i < language_prefix(s).len() ==> !ends_language(#[trigger] s[i]),
        language_prefix(s).len() < s.len() ==> ends_language(s[language_prefix(s).len() as int]),
    decreases s.len(),
{
    if s.len() > 0 && !ends_language(s[0]) {
        let t = s.drop_first();
        lemma_language_prefix(t);
        let r = language_prefix(t);
        assert(seq![s[0]] + r =~= s.take(r.len() as int + 1));
        assert forall|i: int| 0 <= i < r.len() + 1 implies !ends_language(#[trigger] s[i]) by {
            if i > 0 {
                assert(s[i] == t[i - 1]);
            }
        }
        if r.len() < t.len() {
            assert(s[r.len() as int + 1] == t[r.len() as int]);
        }
    }
}

/// The language from a fence's info string: past the opening braces,
/// everything up to the first whitespace, comma or closing brace.
pub fn fence_language(info: &str) -> (r: String)
    ensures
        r@ == spec_fence_language(info@),
{
    let cs = chars_of(info);
    let mut b: usize = 0;
    assert(cs@.skip(0) =~= cs@);
    while b < cs.len() && cs[b] == '{'
        invariant
            b <= cs@.len(),
            skip_braces(cs@.skip(b as int)) == skip_braces(cs@),
        decreases cs@.len() - b,
    {
        assert(cs@.skip(b as int).drop_first() =~= cs@.skip(b + 1));
        b = b + 1;
    }
    let ghost s = cs@.skip(b as int);
    assert(skip_braces(s) == s);
    let mut i: usize = b;
    assert(s.skip(0) =~= s);
    assert(s.take(0) + language_prefix(s.skip(0)) =~= language_prefix(s));
    while i < cs.len() && !(crate::text::is_whitespace(cs[i]) || cs[i] == ',' || cs[i] == '}')
        invariant
            b <= i <= cs@.len(),
            s == cs@.skip(b as int),
            s.take(i - b) + language_prefix(s.skip(i - b)) == language_prefix(s),
        decreases cs@.len() - i,
    {
        let ghost k = i - b;
        assert(s[k] == cs@[i as int]);
        assert(s.skip(k).drop_first() =~= s.skip(k + 1));
        assert(s.take(k + 1) =~= s.take(k) + seq![s[k]]);
        assert(s.take(k + 1) + language_prefix(s.skip(k + 1)) =~= s.take(k) + language_prefix(s.skip(k)));
        i = i + 1;
    }
    let ghost k = i - b;
    proof {
        if k < s.len() {
            assert(s[k] == cs@[i as int]);
        }
    }
    assert(language_prefix(s.skip(k)) =~= Seq::<char>::empty());
    assert(s.take(k) + Seq::<char>::empty() =~= s.take(k));
    let mut out: Vec<char> = Vec::new();
    let mut t: usize = b;
    while t < i
        invariant
            b <= t <= i <= cs@.len(),
            s == cs@.skip(b as int),
            out@ == s.take(t - b),
        decreases i - t,
    {
        out.push(cs[t]);
        t = t + 1;
        assert(out@ =~= s.take(t - b));
    }
    string_of(out.as_slice())
}

/// The style a heading's rule takes: the heading's color, dimmed, not bold.
pub open spec fn heading_rule_style(level: u8) -> Style {
    spec_add_modifier(spec_remove_modifier(theme::bold_fg(theme::heading_color(level)), Modifier { bits: 1 }), Modifier { bits: 2 })
}

/// A heading: its text in the heading style, wrapped; the top two levels
/// get a rule underneath, like GitHub.
pub open spec fn spec_heading(s: RenderState, n: Node, level: u8, ctx: Ctx) -> RenderState {
    let s1 = spec_separate(s, ctx);
    let style = spec_patch(ctx.base_style, theme::bold_fg(theme::heading_color(level)));
    let c2 = spec_push_wrapped(s1.canvas, spec_inlines(n.children@, style));
    let w = spec_content_width(c2) as nat;
    with_canvas(s1, if level == 1 {
        spec_push_rule(c2, '━', w, heading_rule_style(level))
    } else if level == 2 {
        spec_push_rule(c2, '─', w, heading_rule_style(level))
    } else {
        c2
    })
}

/// A thematic break: a rule across the content width.
pub open spec fn spec_thematic_break(s: RenderState, ctx: Ctx) -> RenderState {
    let s1 = spec_separate(s, ctx);
    with_canvas(s1, spec_push_rule(s1.canvas, '─', spec_content_width(s1.canvas) as nat, theme::fg_style(Color::DarkGray)))
}

/// A paragraph that is nothing but one image, as its url and alt text. Only
/// these become pictures: an image in a run of text stays as its alt text.
pub open spec fn spec_sole_image(n: Node) -> Option<(Seq<char>, Seq<char>)> {
    if n.children@.len() == 1 {
        match n.children@[0].kind {
            NodeKind::Image { url, .. } => Some(
                (url@, plain_text(spec_inlines(n.children@[0].children@, spec_style_default()))),
            ),
            _ => None,
        }
    } else {
        None
    }
}

/// An image on its own line: drawn if it was loaded, else its alt text. An
/// image that could be drawn but was neither loaded nor found unloadable yet
/// is noted as missed.
pub open spec fn spec_image(images: Option<SetV>, s: RenderState, url: Seq<char>, alt: Seq<char>, ctx: Ctx) -> RenderState {
    let s1 = spec_separate(s, ctx);
    let w = spec_content_width(s1.canvas);
    let label = with_canvas(s1, spec_push_line(s1.canvas, seq![spec_image_label(alt, ctx.base_style)]));
    match images {
        Some(set) => match spec_locate(set.0, url, w as usize, alt) {
            Some(d) => match loaded_height(set.1, d) {
                Some(h) => with_canvas(s1, spec_push_image(s1.canvas, (d, h))),
                None => RenderState {
                    misses: if set.2.contains(d) { s1.misses } else { s1.misses.push(d) },
                    ..label
                },
            },
            None => label,
        },
        None => label,
    }
}

/// The code block style, for the background that fills a code block.
pub open spec fn code_bg_only() -> Style {
    Style { bg: Some(Color::Rgb(0x2b, 0x30, 0x3b)), ..spec_style_default() }
}

/// The style of a code block's language label.
pub open spec fn code_label_style() -> Style {
    spec_add_modifier(
        Style { fg: Some(Color::Rgb(0x65, 0x73, 0x7e)), bg: Some(Color::Rgb(0x2b, 0x30, 0x3b)), ..spec_style_default() },
        Modifier { bits: 4 },
    )
}

/// Highlighted lines laid over the code background.
pub open spec fn on_code_bg(lines: Seq<Seq<SpanV>>) -> Seq<Seq<SpanV>> {
    lines.map_values(|l: Seq<SpanV>| l.map_values(|s: SpanV| (s.0, spec_patch(s.1, code_bg_only()))))
}

/// Unhighlighted lines, each one span in the code style.
pub open spec fn plain_code(lit: Seq<char>) -> Seq<Seq<SpanV>> {
    spec_lines(lit).map_values(|l: Seq<char>| seq![(l, theme::code_style())])
}

/// A code block's lines: highlighted for a known language, plain otherwise.
pub open spec fn code_lines(lit: Seq<char>, lang: Seq<char>) -> Seq<Seq<SpanV>> {
    match spec_highlight(lit, lang) {
        Some(ls) => on_code_bg(ls),
        None => plain_code(lit),
    }
}

/// A code block's first row: its language right-aligned, or nothing where
/// there is none or it would not fit.
pub open spec fn code_header(lang: Seq<char>, width: int) -> Seq<SpanV> {
    let label = lang + seq![' '];
    let lw = str_width(label) as int;
    if lang.len() > 0 && lw <= width {
        seq![(spec_repeat(' ', (width - lw) as nat), theme::code_style()), (label, code_label_style())]
    } else {
        seq![]
    }
}

/// Chunks of one code line, each padded to the full width behind a space.
pub open spec fn spec_code_chunks(c: CanvasView, chunks: Seq<Seq<SpanV>>, width: int) -> CanvasView
    decreases chunks.len(),
{
    if chunks.len() == 0 {
        c
    } else {
        spec_push_line(
            spec_code_chunks(c, chunks.drop_last(), width),
            spec_pad(seq![(seq![' '], theme::code_style())] + chunks.last(), width, theme::code_style()),
        )
    }
}

/// Every code line, broken into chunks that fit beside the gutter.
pub open spec fn spec_code_rows(c: CanvasView, code: Seq<Seq<SpanV>>, width: int) -> CanvasView
    decreases code.len(),
{
    if code.len() == 0 {
        c
    } else {
        spec_code_chunks(
            spec_code_rows(c, code.drop_last(), width),
            spec_wrap_chars(code.last(), if width >= CODE_GUTTER { width - CODE_GUTTER } else { 0 }),
            width,
        )
    }
}

/// One row of a code block: a chunk of a code line behind the one-space
/// gutter, padded to the full width in the code background.
pub open spec fn gutter_row(chunk: Seq<SpanV>, width: int) -> Seq<SpanV> {
    spec_pad(seq![(seq![' '], theme::code_style())] + chunk, width, theme::code_style())
}

proof fn lemma_code_chunks_rows(c: CanvasView, chunks: Seq<Seq<SpanV>>, width: int)
    ensures
        spec_code_chunks(c, chunks, width) == spec_push_lines(c, chunks.map_values(|ch: Seq<SpanV>| gutter_row(ch, width))),
    decreases chunks.len(),
{
    if chunks.len() > 0 {
        lemma_code_chunks_rows(c, chunks.drop_last(), width);
        let f = |ch: Seq<SpanV>| gutter_row(ch, width);
        assert(chunks.map_values(f).drop_last() =~= chunks.drop_last().map_values(f));
    }
}

/// A code block keeps every character of a code line, spaces included: the
/// line is drawn as a run of chunks, each behind the one-space gutter and
/// padded to the width, whose characters joined are exactly the line's, and
/// each of which fits beside the gutter (or is one character too wide for it).
pub proof fn lemma_code_line_kept_whole(c: CanvasView, line: Seq<SpanV>, width: int) -> (chunks: Seq<Seq<SpanV>>)
    requires
        forall|k: int|
            0 <= k < crate::wrap::styled_chars(line).len() ==> !crate::text::spec_is_control(
                (#[trigger] crate::wrap::styled_chars(line)[k]).0,
            ),
    ensures
        crate::wrap::flat(chunks.map_values(|ch: Seq<SpanV>| crate::wrap::styled_chars(ch))) == crate::wrap::styled_chars(line),
        forall|i: int|
            0 <= i < chunks.len() ==> crate::wrap::fits_or_single(
                crate::wrap::styled_chars(#[trigger] chunks[i]),
                crate::wrap::at_least_one(if width >= 2 { width - 2 } else { 0 }),
            ),
        spec_code_rows(c, seq![line], width) == spec_push_lines(c, chunks.map_values(|ch: Seq<SpanV>| gutter_row(ch, width))),
{
    let gw = if width >= 2 { width - 2 } else { 0 };
    let aw = crate::wrap::at_least_one(gw);
    let sc = crate::wrap::styled_chars(line);
    crate::wrap::lemma_hard_lines_plain(sc);
    let lines = seq![sc];
    let rows = crate::wrap::chunk_rows(lines, aw);
    crate::wrap::lemma_chunk_rows(lines, aw);
    assert(lines.drop_last() =~= Seq::<Seq<crate::wrap::SChar>>::empty());
    assert(crate::wrap::flat(lines.drop_last()) =~= Seq::<crate::wrap::SChar>::empty());
    assert(crate::wrap::flat(lines) =~= crate::wrap::flat(lines.drop_last()) + lines.last());
    assert(crate::wrap::flat(lines) =~= sc);
    crate::wrap::lemma_rows_to_spans_chars(rows);
    let chunks = crate::wrap::rows_to_spans(rows);
    assert(chunks == spec_wrap_chars(line, gw));
    let g = |ch: Seq<SpanV>| crate::wrap::styled_chars(ch);
    assert(chunks.map_values(g) =~= rows);
    assert forall|i: int| 0 <= i < chunks.len() implies crate::wrap::fits_or_single(
        crate::wrap::styled_chars(#[trigger] chunks[i]),
        aw,
    ) by {
        assert(crate::wrap::styled_chars(chunks[i]) == rows[i]);
    }
    assert(seq![line].drop_last() =~= Seq::<Seq<SpanV>>::empty());
    assert(seq![line].last() == line);
    assert(spec_code_rows(c, seq![line].drop_last(), width) == c);
    assert(spec_code_rows(c, seq![line], width) == spec_code_chunks(c, chunks, width));
    lemma_code_chunks_rows(c, chunks, width);
    chunks
}

/// A code block: a padded block of rows with its language on the first row
/// and a blank row under it. Tabs are expanded before highlighting.
pub open spec fn spec_code_block(s: RenderState, info: Seq<char>, literal: Seq<char>, ctx: Ctx) -> RenderState {
    let s1 = spec_separate(s, ctx);
    let lang = spec_fence_language(info);
    let lit = expand_from(literal, 0);
    let w = spec_content_width(s1.canvas);
    let c1 = spec_push_line(s1.canvas, spec_pad(code_header(lang, w), w, theme::code_style()));
    let c2 = spec_code_rows(c1, code_lines(lit, lang), w);
    with_canvas(s1, spec_push_line(c2, spec_pad(seq![], w, theme::code_style())))
}

/// Whether raw text shows nothing: it is blank, or an HTML comment.
pub open spec fn is_hidden_literal(t: Seq<char>) -> bool {
    t.len() == 0 || (starts_with(t, "<!--"@) && ends_with(t, "-->"@))
}

/// Raw lines, each broken into chunks that fit.
pub open spec fn spec_literal_lines(c: CanvasView, lines: Seq<Seq<char>>, style: Style, width: int) -> CanvasView
    decreases lines.len(),
{
    if lines.len() == 0 {
        c
    } else {
        spec_push_lines(spec_literal_lines(c, lines.drop_last(), style, width), spec_wrap_chars(seq![(lines.last(), style)], width))
    }
}

/// Raw HTML or front matter: shown dimmed and verbatim. HTML comments are
/// hidden, as they would be in a browser.
pub open spec fn spec_literal_block(s: RenderState, literal: Seq<char>, ctx: Ctx) -> RenderState {
    if is_hidden_literal(spec_trim(literal)) {
        s
    } else {
        let s1 = spec_separate(s, ctx);
        let w = spec_content_width(s1.canvas);
        with_canvas(s1, spec_literal_lines(s1.canvas, spec_lines(literal), html_over(ctx.base_style), w))
    }
}

/// A table's rows as rendered, before column widths are known: the first
/// row is the header, and is bold.
pub open spec fn spec_table_rows(rows: Seq<Node>, base: Style) -> Seq<RawRowV> {
    Seq::new(rows.len(), |i: int| (i == 0, rows[i].children@.map_values(|c: Node|
        spec_inlines(c.children@, if i == 0 { spec_patch(base, spec_add_modifier(spec_style_default(), Modifier { bits: 1 })) } else { base }))))
}

/// The cell alignment a node gives its column.
pub open spec fn cell_alignment(k: NodeKind) -> Alignment {
    match k {
        NodeKind::TableCell(a) => a,
        _ => Alignment::Unaligned,
    }
}

/// A table's column alignments, as its header cells carry them.
pub open spec fn spec_aligns(rows: Seq<Node>) -> Seq<Alignment> {
    if rows.len() == 0 {
        seq![]
    } else {
        rows[0].children@.map_values(|c: Node| cell_alignment(c.kind))
    }
}

/// A table's columns are drawn as its header cells say, one alignment per
/// header cell: the alignment the delimiter row gave that cell. A centered
/// column puts half a cell's slack, rounded down, before its content and the
/// rest after; a right-aligned one puts it all before; the others all after.
pub proof fn lemma_header_sets_alignment(rows: Seq<Node>, i: int, a: Alignment, content: Seq<SpanV>, width: int)
    requires
        rows.len() > 0,
        0 <= i < rows[0].children@.len(),
        rows[0].children@[i].kind == NodeKind::TableCell(a),
        crate::wrap::sat(crate::wrap::spans_width(content)) <= width,
    ensures
        spec_aligns(rows).len() == rows[0].children@.len(),
        spec_aligns(rows)[i] == a,
        ({
            let w = crate::wrap::sat(crate::wrap::spans_width(content));
            let before = match a {
                Alignment::Center => (width - w) / 2,
                Alignment::Right => width - w,
                _ => 0,
            };
            crate::render::table::spec_align_cell(content, width, spec_aligns(rows)[i])
                == crate::render::table::blank(before) + content + crate::render::table::blank(width - w - before)
        }),
{
}

/// A table, laid out in the content width. One with no columns leaves no
/// trace, not even a blank line.
pub open spec fn spec_table_block(s: RenderState, n: Node, ctx: Ctx) -> RenderState {
    let w = spec_content_width(s.canvas);
    let raw = spec_table_rows(n.children@, ctx.base_style);
    if column_count(raw) == 0 {
        s
    } else {
        let s1 = spec_separate(s, ctx);
        with_canvas(s1, spec_push_lines(s1.canvas, spec_table(raw, w, spec_aligns(n.children@))))
    }
}

/// The title an alert shows when it gives none.
pub open spec fn alert_title(kind: AlertKind) -> Seq<char> {
    match kind {
        AlertKind::Note => "Note"@,
        AlertKind::Tip => "Tip"@,
        AlertKind::Important => "Important"@,
        AlertKind::Warning => "Warning"@,
        AlertKind::Caution => "Caution"@,
    }
}

/// What a quote passes down: its text style over the inherited one, and
/// blocks separated again even inside a tight list.
pub open spec fn quote_ctx(ctx: Ctx, text: Style) -> Ctx {
    Ctx { tight: false, base_style: spec_patch(ctx.base_style, text), ..ctx }
}

/// Opening a quote: a bar down the left, and its title, if any, right under it.
pub open spec fn spec_quote_open(s: RenderState, bar: SpanV, title: Option<SpanV>, ctx: Ctx) -> RenderState {
    let s1 = spec_separate(s, ctx);
    let c2 = spec_open_container(s1.canvas, spec_every_line(seq![bar]));
    with_canvas(s1, match title {
        Some(t) => spec_push_title(c2, seq![t]),
        None => c2,
    })
}

/// Opening a footnote definition: the section's divider before the first
/// one, then the definition led by its label.
pub open spec fn spec_footnote_open(s: RenderState, name: Seq<char>, ctx: Ctx) -> RenderState {
    let s1 = if s.footnotes_started {
        s
    } else {
        let sa = spec_separate(RenderState { footnotes_started: true, ..s }, ctx);
        let w = spec_content_width(sa.canvas);
        with_canvas(sa, spec_push_rule(sa.canvas, '─', (if w < FOOTNOTE_RULE_WIDTH { w } else { FOOTNOTE_RULE_WIDTH as int }) as nat, theme::fg_style(Color::DarkGray)))
    };
    let s2 = spec_separate(s1, ctx);
    let label = seq![(seq!['['] + name + seq![']', ' '], theme::fg_style(Color::Cyan))];
    with_canvas(s2, spec_open_container(s2.canvas, spec_first_line(label)))
}

/// Leaving the innermost container.
pub open spec fn spec_close(s: RenderState) -> RenderState {
    with_canvas(s, spec_close_container(s.canvas))
}

/// What a list passes down to its items.
pub open spec fn list_ctx(ctx: Ctx, info: ListInfo) -> Ctx {
    Ctx { tight: info.tight, list_depth: sat(ctx.list_depth + 1) as usize, ..ctx }
}

// --- the blocks ----------------------------------------------------------------------

/// One block node rendered into state `s`.
pub open spec fn spec_block(env: RenderEnv, s: RenderState, n: Node, ctx: Ctx) -> RenderState
    decreases n,
{
    match n.kind {
        NodeKind::Heading(level) => spec_heading(s, n, level, ctx),
        NodeKind::Paragraph => match spec_sole_image(n) {
            Some(p) => spec_image(env.images, s, p.0, p.1, ctx),
            None => {
                let s1 = spec_separate(s, ctx);
                with_canvas(s1, spec_push_wrapped(s1.canvas, spec_inlines(n.children@, ctx.base_style)))
            },
        },
        NodeKind::List(info) => spec_items(
            env,
            spec_separate(s, ctx),
            n.children@,
            info,
            n.children@.len(),
            ctx.list_depth,
            list_ctx(ctx, info),
        ),
        NodeKind::CodeBlock { info, literal } => spec_code_block(s, info@, literal@, ctx),
        NodeKind::HtmlBlock(lit) => spec_literal_block(s, lit@, ctx),
        NodeKind::FrontMatter => spec_literal_block(s, env.front_matter, ctx),
        NodeKind::ThematicBreak => spec_thematic_break(s, ctx),
        NodeKind::BlockQuote => spec_close(spec_blocks(
            env,
            spec_quote_open(s, ("▎ "@, theme::fg_style(Color::DarkGray)), None, ctx),
            n.children@,
            quote_ctx(ctx, theme::fg_style(Color::Gray)),
        )),
        NodeKind::Alert { kind, title, .. } => {
            let style = theme::fg_style(theme::alert_color(kind));
            let t = match title {
                Some(t) => t@,
                None => alert_title(kind),
            };
            spec_close(spec_blocks(
                env,
                spec_quote_open(s, ("▎ "@, style), Some((t, spec_add_modifier(style, Modifier { bits: 1 }))), ctx),
                n.children@,
                quote_ctx(ctx, spec_style_default()),
            ))
        },
        NodeKind::Table => spec_table_block(s, n, ctx),
        NodeKind::FootnoteDefinition(name) => spec_close(spec_blocks(env, spec_footnote_open(s, name@, ctx), n.children@, ctx)),
        _ => spec_blocks(env, s, n.children@, ctx),
    }
}

/// Block nodes rendered one after another.
pub open spec fn spec_blocks(env: RenderEnv, s: RenderState, ns: Seq<Node>, ctx: Ctx) -> RenderState
    decreases ns,
{
    if ns.len() == 0 {
        s
    } else {
        spec_block(env, spec_blocks(env, s, ns.drop_last(), ctx), ns.last(), ctx)
    }
}

/// A list's items, each a container led by its marker.
pub open spec fn spec_items(
    env: RenderEnv,
    s: RenderState,
    items: Seq<Node>,
    info: ListInfo,
    count: nat,
    depth: usize,
    lctx: Ctx,
) -> RenderState
    decreases items,
{
    if items.len() == 0 {
        s
    } else {
        spec_item(
            env,
            spec_items(env, s, items.drop_last(), info, count, depth, lctx),
            items.last(),
            (items.len() - 1) as nat,
            info,
            count,
            depth,
            lctx,
        )
    }
}

/// Item `i` of a list: separated from the one before (unless the list is
/// tight), led by its marker, its text dimmed if it is a finished task.
pub open spec fn spec_item(
    env: RenderEnv,
    s: RenderState,
    item: Node,
    i: nat,
    info: ListInfo,
    count: nat,
    depth: usize,
    lctx: Ctx,
) -> RenderState
    decreases item,
{
    let s1 = if i > 0 { spec_separate(s, lctx) } else { s };
    let kind = spec_item_kind(item.kind);
    let ictx = if kind == ItemKind::Done {
        Ctx { base_style: spec_patch(lctx.base_style, theme::fg_style(Color::DarkGray)), ..lctx }
    } else {
        lctx
    };
    let s2 = with_canvas(s1, spec_open_container(s1.canvas, spec_first_line(spec_item_marker(info, count, depth, i, kind))));
    spec_close(spec_blocks(env, s2, item.children@, ictx))
}

/// The state a document starts from: an empty canvas `width` columns wide.
pub open spec fn initial_state(width: usize) -> RenderState {
    RenderState {
        canvas: CanvasView {
            width,
            elements: Seq::empty(),
            prefixes: Seq::empty(),
            drawn: 0,
            needs_separator: false,
        },
        footnotes_started: false,
        misses: Seq::empty(),
    }
}

/// A whole document rendered at `width`.
pub open spec fn spec_render(env: RenderEnv, doc: Node, width: usize) -> RenderState {
    spec_block(env, initial_state(width), doc, default_ctx())
}


// --- the renderer ------------------------------------------------------------------

/// A span's view, inside an `Option`.
pub open spec fn opt_span_view(o: Option<Span>) -> Option<SpanV> {
    match o {
        Some(s) => Some(s@),
        None => None,
    }
}

/// A paragraph that is nothing but one image, as its url and alt text.
pub fn sole_image(n: &Node) -> (r: Option<(String, Vec<char>)>)
    ensures
        match r {
            Some((u, a)) => spec_sole_image(*n) == Some((u@, a@)),
            None => spec_sole_image(*n) is None,
        },
{
    if n.children.len() != 1 {
        return None;
    }
    let child = &n.children[0];
    match &child.kind {
        NodeKind::Image { url, .. } => Some((url.clone(), alt_text(child))),
        _ => None,
    }
}

/// The title an alert shows when it gives none.
fn alert_title_text(kind: AlertKind) -> (r: String)
    ensures
        r@ == alert_title(kind),
{
    match kind {
        AlertKind::Note => "Note".to_string(),
        AlertKind::Tip => "Tip".to_string(),
        AlertKind::Important => "Important".to_string(),
        AlertKind::Warning => "Warning".to_string(),
        AlertKind::Caution => "Caution".to_string(),
    }
}

/// A table's rows as rendered, before column widths are known.
fn table_rows(n: &Node, base: Style) -> (raw: Vec<RawRow>)
    ensures
        raw_views(raw@) == spec_table_rows(n.children@, base),
{
    let header_style = base.patch(theme::table_header());
    let ghost target = spec_table_rows(n.children@, base);
    let mut out: Vec<RawRow> = Vec::new();
    let mut r: usize = 0;
    while r < n.children.len()
        invariant
            r <= n.children@.len(),
            target == spec_table_rows(n.children@, base),
            header_style == spec_patch(base, spec_add_modifier(spec_style_default(), Modifier { bits: 1 })),
            out@.len() == r,
            forall|k: int| 0 <= k < r ==> #[trigger] raw_views(out@)[k] == target[k],
        decreases n.children@.len() - r,
    {
        let row = &n.children[r];
        let style = if r == 0 { header_style } else { base };
        let mut cells: Vec<Vec<Span>> = Vec::new();
        let mut c: usize = 0;
        while c < row.children.len()
            invariant
                c <= row.children@.len(),
                cells@.len() == c,
                forall|k: int| 0 <= k < c ==> #[trigger] spans_view(cells@[k]@) == spec_inlines(row.children@[k].children@, style),
            decreases row.children@.len() - c,
        {
            let cell = inlines(&row.children[c], style);
            cells.push(cell);
            c = c + 1;
        }
        let ghost cv = cells@.map_values(|x: Vec<Span>| spans_view(x@));
        assert(cv =~= target[r as int].1);
        let ghost o0 = out@;
        out.push(RawRow { header: r == 0, cells });
        assert forall|k: int| 0 <= k < r + 1 implies #[trigger] raw_views(out@)[k] == target[k] by {
            if k < r {
                assert(out@[k] == o0[k]);
                assert(raw_views(o0)[k] == target[k]);
            }
        }
        r = r + 1;
    }
    assert(raw_views(out@) =~= target);
    out
}

/// A table's column alignments, as its header cells carry them.
fn header_aligns(n: &Node) -> (a: Vec<Alignment>)
    ensures
        a@ == spec_aligns(n.children@),
{
    let mut out: Vec<Alignment> = Vec::new();
    if n.children.len() == 0 {
        assert(out@ =~= spec_aligns(n.children@));
        return out;
    }
    let head = &n.children[0];
    let mut c: usize = 0;
    while c < head.children.len()
        invariant
            c <= head.children@.len(),
            out@ == head.children@.take(c as int).map_values(|x: Node| cell_alignment(x.kind)),
        decreases head.children@.len() - c,
    {
        let a = match &head.children[c].kind {
            NodeKind::TableCell(a) => *a,
            _ => Alignment::Unaligned,
        };
        out.push(a);
        c = c + 1;
        assert(out@ =~= head.children@.take(c as int).map_values(|x: Node| cell_alignment(x.kind)));
    }
    assert(head.children@.take(c as int) =~= head.children@);
    out
}

/// A code block's first row.
fn code_header_spans(lang: &String, width: usize) -> (r: Vec<Span>)
    ensures
        spans_view(r@) == code_header(lang@, width as int),
{
    let mut out: Vec<Span> = Vec::new();
    if lang.as_str().is_empty() {
        assert(spans_view(out@) =~= code_header(lang@, width as int));
        return out;
    }
    let mut cs = chars_of(lang.as_str());
    cs.push(' ');
    let label = string_of(cs.as_slice());
    assert(label@ =~= lang@ + seq![' ']);
    let lw = unicode_str_width(label.as_str());
    if lw <= width {
        out.push(Span::styled(repeat_char(' ', width - lw), theme::code_block()));
        out.push(Span::styled(label, theme::code_label()));
    }
    assert(spans_view(out@) =~= code_header(lang@, width as int));
    out
}

/// A code block's lines: highlighted for a known language, plain otherwise.
fn code_lines_of(lit: &String, lang: &String) -> (r: Vec<Vec<Span>>)
    ensures
        rows_view(r@) == code_lines(lit@, lang@),
{
    match highlight(lit.as_str(), lang.as_str()) {
        Some(lines) => {
            let ghost lv = rows_view(lines@);
            let mut out: Vec<Vec<Span>> = Vec::new();
            let mut i: usize = 0;
            while i < lines.len()
                invariant
                    i <= lines@.len(),
                    lv == rows_view(lines@),
                    rows_view(out@) == on_code_bg(lv.take(i as int)),
                decreases lines@.len() - i,
            {
                let line = &lines[i];
                let mut row: Vec<Span> = Vec::new();
                let mut k: usize = 0;
                while k < line.len()
                    invariant
                        k <= line@.len(),
                        spans_view(row@) == spans_view(line@).take(k as int).map_values(|s: SpanV| (s.0, spec_patch(s.1, code_bg_only()))),
                    decreases line@.len() - k,
                {
                    let sp = line[k].clone_span().patch_style(theme::code_bg());
                    let ghost r0 = spans_view(row@);
                    row.push(sp);
                    assert(spans_view(row@) =~= r0.push(sp@));
                    k = k + 1;
                    assert(spans_view(row@) =~= spans_view(line@).take(k as int).map_values(|s: SpanV| (s.0, spec_patch(s.1, code_bg_only()))));
                }
                assert(spans_view(line@).take(line@.len() as int) =~= spans_view(line@));
                let ghost o0 = rows_view(out@);
                out.push(row);
                assert(rows_view(out@) =~= o0.push(rows_view(out@).last()));
                assert(on_code_bg(lv.take(i + 1)) =~= on_code_bg(lv.take(i as int)).push(rows_view(out@).last()));
                i = i + 1;
            }
            assert(lv.take(lv.len() as int) =~= lv);
            out
        },
        None => {
            let cs = chars_of(lit.as_str());
            let ls = lines_of(&cs);
            let ghost lv = ls@.map_values(|l: Vec<char>| l@);
            let mut out: Vec<Vec<Span>> = Vec::new();
            let mut i: usize = 0;
            while i < ls.len()
                invariant
                    i <= ls@.len(),
                    lv == ls@.map_values(|l: Vec<char>| l@),
                    lv == spec_lines(lit@),
                    rows_view(out@) == lv.take(i as int).map_values(|l: Seq<char>| seq![(l, theme::code_style())]),
                decreases ls@.len() - i,
            {
                let mut row: Vec<Span> = Vec::new();
                assert(lv[i as int] == ls@[i as int]@);
                row.push(Span::styled(string_of(ls[i].as_slice()), theme::code_block()));
                assert(spans_view(row@) =~= seq![(lv[i as int], theme::code_style())]);
                let ghost o0 = rows_view(out@);
                out.push(row);
                assert(rows_view(out@) =~= o0.push(seq![(lv[i as int], theme::code_style())]));
                assert(lv.take(i + 1).map_values(|l: Seq<char>| seq![(l, theme::code_style())])
                    =~= lv.take(i as int).map_values(|l: Seq<char>| seq![(l, theme::code_style())]).push(seq![(lv[i as int], theme::code_style())]));
                i = i + 1;
            }
            assert(lv.take(lv.len() as int) =~= lv);
            out
        },
    }
}

/// The renderer: the canvas, and what is global to the whole document.
pub struct Renderer {
    pub canvas: Canvas,
    /// Footnote definitions share one divider, drawn before the first of them.
    pub footnotes_started: bool,
    /// Images the document could show that were neither loaded nor found
    /// unloadable; they show as their alt text for now.
    pub misses: Vec<ImageDescriptor>,
}

impl View for Renderer {
    type V = RenderState;

    open spec fn view(&self) -> RenderState {
        RenderState {
            canvas: self.canvas@,
            footnotes_started: self.footnotes_started,
            misses: self.misses@.map_values(|d: ImageDescriptor| desc_view(d)),
        }
    }
}

impl Renderer {
    pub fn new(width: usize) -> (r: Renderer)
        ensures
            r@ == initial_state(width),
            canvas_wf(r@.canvas),
    {
        let r = Renderer { canvas: Canvas::new(width), footnotes_started: false, misses: Vec::new() };
        assert(r@.misses =~= Seq::<DescV>::empty());
        r
    }

    /// Called at the start of each block: leaves one blank line between it
    /// and whatever came before, unless that would be wrong here.
    fn separate(&mut self, ctx: Ctx)
        requires
            canvas_wf(old(self)@.canvas),
        ensures
            final(self)@ == spec_separate(old(self)@, ctx),
            canvas_wf(final(self)@.canvas),
    {
        if !ctx.tight {
            self.canvas.push_separator();
        }
    }

    fn heading(&mut self, n: &Node, level: u8, ctx: Ctx)
        requires
            canvas_wf(old(self)@.canvas),
        ensures
            final(self)@ == spec_heading(old(self)@, *n, level, ctx),
            canvas_wf(final(self)@.canvas),
    {
        self.separate(ctx);
        let style = ctx.base_style.patch(theme::heading(level));
        let spans = inlines(n, style);
        self.canvas.push_wrapped(spans);
        if level == 1 || level == 2 {
            let w = self.canvas.content_width();
            let glyph = if level == 1 { '━' } else { '─' };
            self.canvas.push_rule(glyph, w, theme::heading_rule(level));
        }
    }

    fn thematic_break(&mut self, ctx: Ctx)
        requires
            canvas_wf(old(self)@.canvas),
        ensures
            final(self)@ == spec_thematic_break(old(self)@, ctx),
            canvas_wf(final(self)@.canvas),
    {
        self.separate(ctx);
        let w = self.canvas.content_width();
        self.canvas.push_rule('─', w, theme::rule());
    }

    /// An image on its own line: drawn if it was loaded, else its alt text.
    fn image(&mut self, images: Option<&ImageSet>, url: &str, alt: &Vec<char>, ctx: Ctx)
        requires
            canvas_wf(old(self)@.canvas),
        ensures
            final(self)@ == spec_image(env_view(images, Seq::empty()).images, old(self)@, url@, alt@, ctx),
            canvas_wf(final(self)@.canvas),
    {
        self.separate(ctx);
        let width = self.canvas.content_width();
        if let Some(set) = images {
            let alt_s = string_of(alt.as_slice());
            match set.resolver.locate(url, width, alt_s.as_str()) {
                Some(d) => match set.height_of(&d) {
                    Some(h) => {
                        self.canvas.push_image(Image { desc: d, height: h });
                        return;
                    },
                    None => {
                        if !set.has_failed(&d) {
                            let ghost m0 = self@.misses;
                            let ghost dv = desc_view(d);
                            self.misses.push(d);
                            assert(self@.misses =~= m0.push(dv));
                        }
                    },
                },
                None => {},
            }
        }
        let mut line: Vec<Span> = Vec::new();
        line.push(image_label(alt, ctx.base_style));
        assert(spans_view(line@) =~= seq![spec_image_label(alt@, ctx.base_style)]);
        self.canvas.push_line(line);
    }

    fn code_block(&mut self, info: &str, literal: &str, ctx: Ctx)
        requires
            canvas_wf(old(self)@.canvas),
        ensures
            final(self)@ == spec_code_block(old(self)@, info@, literal@, ctx),
            canvas_wf(final(self)@.canvas),
    {
        self.separate(ctx);
        let lang = fence_language(info);
        // syntect reads indentation itself, so tabs are expanded before it sees them.
        let lit = crate::wrap::expand_tabs(literal);
        let code = code_lines_of(&lit, &lang);
        let ghost cv = rows_view(code@);
        // Padding every row to the full width is what makes the background solid.
        let width = self.canvas.content_width();
        let header = code_header_spans(&lang, width);
        self.canvas.push_line(crate::wrap::pad(header, width, theme::code_block()));
        let ghost c1 = self@.canvas;
        let gutter = if width >= CODE_GUTTER { width - CODE_GUTTER } else { 0 };
        let mut i: usize = 0;
        assert(cv.take(0) =~= Seq::<Seq<SpanV>>::empty());
        while i < code.len()
            invariant
                i <= code@.len(),
                cv == rows_view(code@),
                canvas_wf(self@.canvas),
                self@.canvas == spec_code_rows(c1, cv.take(i as int), width as int),
                self@.footnotes_started == old(self)@.footnotes_started,
                self@.misses == old(self)@.misses,
                gutter == if width >= CODE_GUTTER { width - CODE_GUTTER } else { 0 },
            decreases code@.len() - i,
        {
            let chunks = crate::wrap::wrap_chars(code[i].as_slice(), gutter);
            let ghost chv = rows_view(chunks@);
            let ghost c2 = self@.canvas;
            let mut k: usize = 0;
            assert(chv.take(0) =~= Seq::<Seq<SpanV>>::empty());
            while k < chunks.len()
                invariant
                    k <= chunks@.len(),
                    chv == rows_view(chunks@),
                    canvas_wf(self@.canvas),
                    self@.canvas == spec_code_chunks(c2, chv.take(k as int), width as int),
                    self@.footnotes_started == old(self)@.footnotes_started,
                    self@.misses == old(self)@.misses,
                decreases chunks@.len() - k,
            {
                let mut row: Vec<Span> = Vec::new();
                row.push(Span::styled(repeat_char(' ', 1), theme::code_block()));
                assert(spec_repeat(' ', 1) =~= seq![' ']);
                crate::style::extend_spans(&mut row, chunks[k].as_slice());
                assert(spans_view(row@) =~= seq![(seq![' '], theme::code_style())] + chv[k as int]);
                assert(chv.take(k + 1).drop_last() =~= chv.take(k as int));
                self.canvas.push_line(crate::wrap::pad(row, width, theme::code_block()));
                k = k + 1;
            }
            assert(chv.take(chv.len() as int) =~= chv);
            assert(cv.take(i + 1).drop_last() =~= cv.take(i as int));
            i = i + 1;
        }
        assert(cv.take(cv.len() as int) =~= cv);
        let empty: Vec<Span> = Vec::new();
        assert(spans_view(empty@) =~= Seq::<SpanV>::empty());
        self.canvas.push_line(crate::wrap::pad(empty, width, theme::code_block()));
    }

    /// Raw HTML or front matter: shown dimmed and verbatim, unless it is an
    /// HTML comment.
    fn literal_block(&mut self, literal: &str, ctx: Ctx)
        requires
            canvas_wf(old(self)@.canvas),
        ensures
            final(self)@ == spec_literal_block(old(self)@, literal@, ctx),
            canvas_wf(final(self)@.canvas),
    {
        let cs = chars_of(literal);
        let trimmed = trim(&cs);
        let open = chars_of("<!--");
        let close = chars_of("-->");
        proof {
            reveal_strlit("<!--");
            reveal_strlit("-->");
        }
        if trimmed.len() == 0 || (crate::text::has_prefix(&trimmed, &open) && crate::text::has_suffix(&trimmed, &close)) {
            return;
        }
        self.separate(ctx);
        let width = self.canvas.content_width();
        let style = ctx.base_style.patch(theme::html());
        let ls = lines_of(&cs);
        let ghost lv = ls@.map_values(|l: Vec<char>| l@);
        let ghost c1 = self@.canvas;
        let mut i: usize = 0;
        assert(lv.take(0) =~= Seq::<Seq<char>>::empty());
        while i < ls.len()
            invariant
                i <= ls@.len(),
                lv == ls@.map_values(|l: Vec<char>| l@),
                canvas_wf(self@.canvas),
                self@.canvas == spec_literal_lines(c1, lv.take(i as int), style, width as int),
                self@.footnotes_started == old(self)@.footnotes_started,
                self@.misses == old(self)@.misses,
            decreases ls@.len() - i,
        {
            let mut one: Vec<Span> = Vec::new();
            one.push(Span::styled(string_of(ls[i].as_slice()), style));
            assert(spans_view(one@) =~= seq![(lv[i as int], style)]);
            let chunks = crate::wrap::wrap_chars(one.as_slice(), width);
            assert(lv.take(i + 1).drop_last() =~= lv.take(i as int));
            self.canvas.push_lines(chunks);
            i = i + 1;
        }
        assert(lv.take(lv.len() as int) =~= lv);
    }

    fn table(&mut self, n: &Node, ctx: Ctx)
        requires
            canvas_wf(old(self)@.canvas),
        ensures
            final(self)@ == spec_table_block(old(self)@, *n, ctx),
            canvas_wf(final(self)@.canvas),
    {
        // Laid out before separating, so an empty table leaves no stray blank line.
        let width = self.canvas.content_width();
        let raw = table_rows(n, ctx.base_style);
        let aligns = header_aligns(n);
        match crate::render::table::render(&raw, width, &aligns) {
            None => {},
            Some(rows) => {
                self.separate(ctx);
                self.canvas.push_lines(rows);
            },
        }
    }
}

impl Renderer {
    fn block(&mut self, images: Option<&ImageSet>, fm: &str, n: &Node, ctx: Ctx)
        requires
            canvas_wf(old(self)@.canvas),
        ensures
            final(self)@ == spec_block(env_view(images, fm@), old(self)@, *n, ctx),
            canvas_wf(final(self)@.canvas),
        decreases n, 3nat,
    {
        match &n.kind {
            NodeKind::Heading(level) => self.heading(n, *level, ctx),
            NodeKind::Paragraph => match sole_image(n) {
                Some((url, alt)) => self.image(images, url.as_str(), &alt, ctx),
                None => {
                    self.separate(ctx);
                    let spans = inlines(n, ctx.base_style);
                    self.canvas.push_wrapped(spans);
                },
            },
            NodeKind::List(info) => self.list(images, fm, n, *info, ctx),
            NodeKind::CodeBlock { info, literal } => self.code_block(info.as_str(), literal.as_str(), ctx),
            NodeKind::HtmlBlock(lit) => self.literal_block(lit.as_str(), ctx),
            NodeKind::FrontMatter => self.literal_block(fm, ctx),
            NodeKind::ThematicBreak => self.thematic_break(ctx),
            NodeKind::BlockQuote => {
                let bar = Span::styled("▎ ".to_string(), theme::quote_bar());
                self.quote(images, fm, n, bar, theme::quote_text(), None, ctx);
            },
            NodeKind::Alert { kind, title, .. } => {
                let style = theme::alert(*kind);
                let t = match title {
                    Some(t) => t.clone(),
                    None => alert_title_text(*kind),
                };
                let title = Span::styled(t, style.add_modifier(Modifier::bold()));
                let bar = Span::styled("▎ ".to_string(), style);
                self.quote(images, fm, n, bar, Style::new(), Some(title), ctx);
            },
            NodeKind::Table => self.table(n, ctx),
            NodeKind::FootnoteDefinition(name) => self.footnote_definition(images, fm, n, name.as_str(), ctx),
            _ => self.blocks(images, fm, n, ctx),
        }
    }

    /// Renders `n`'s children, one block after another.
    fn blocks(&mut self, images: Option<&ImageSet>, fm: &str, n: &Node, ctx: Ctx)
        requires
            canvas_wf(old(self)@.canvas),
        ensures
            final(self)@ == spec_blocks(env_view(images, fm@), old(self)@, n.children@, ctx),
            canvas_wf(final(self)@.canvas),
        decreases n, 1nat,
    {
        let ghost s0 = self@;
        let mut i: usize = 0;
        assert(n.children@.take(0) =~= Seq::<Node>::empty());
        while i < n.children.len()
            invariant
                i <= n.children@.len(),
                canvas_wf(self@.canvas),
                self@ == spec_blocks(env_view(images, fm@), s0, n.children@.take(i as int), ctx),
            decreases n.children@.len() - i,
        {
            assert(n.children@.take(i + 1).drop_last() =~= n.children@.take(i as int));
            self.block(images, fm, &n.children[i], ctx);
            i = i + 1;
        }
        assert(n.children@.take(n.children@.len() as int) =~= n.children@);
    }

    /// Each item is a container led by its marker. `list` never draws the
    /// marker itself: the first line the item's content pushes picks it up,
    /// which is how `- - x` gets both bullets on one line.
    fn list(&mut self, images: Option<&ImageSet>, fm: &str, n: &Node, info: ListInfo, ctx: Ctx)
        requires
            canvas_wf(old(self)@.canvas),
        ensures
            final(self)@ == spec_items(
                env_view(images, fm@),
                spec_separate(old(self)@, ctx),
                n.children@,
                info,
                n.children@.len(),
                ctx.list_depth,
                list_ctx(ctx, info),
            ),
            canvas_wf(final(self)@.canvas),
        decreases n, 2nat,
    {
        self.separate(ctx);
        let ghost s1 = self@;
        let count = n.children.len();
        let marker = ListMarker::new(info, count, ctx.list_depth);
        let lctx = Ctx { tight: info.tight, list_depth: ctx.list_depth.saturating_add(1), ..ctx };
        assert(lctx == list_ctx(ctx, info));
        let mut i: usize = 0;
        assert(n.children@.take(0) =~= Seq::<Node>::empty());
        while i < count
            invariant
                i <= count == n.children@.len(),
                canvas_wf(self@.canvas),
                marker_of(marker, info, count as nat, ctx.list_depth),
                lctx == list_ctx(ctx, info),
                self@ == spec_items(env_view(images, fm@), s1, n.children@.take(i as int), info, count as nat, ctx.list_depth, lctx),
            decreases count - i,
        {
            assert(n.children@.take(i + 1).drop_last() =~= n.children@.take(i as int));
            self.item(images, fm, &n.children[i], i, &marker, info, count, ctx.list_depth, lctx);
            i = i + 1;
        }
        assert(n.children@.take(count as int) =~= n.children@);
    }

    fn item(
        &mut self,
        images: Option<&ImageSet>,
        fm: &str,
        item: &Node,
        i: usize,
        marker: &ListMarker,
        info: ListInfo,
        count: usize,
        depth: usize,
        lctx: Ctx,
    )
        requires
            canvas_wf(old(self)@.canvas),
            marker_of(*marker, info, count as nat, depth),
        ensures
            final(self)@ == spec_item(env_view(images, fm@), old(self)@, *item, i as nat, info, count as nat, depth, lctx),
            canvas_wf(final(self)@.canvas),
        decreases item, 2nat,
    {
        if i > 0 {
            self.separate(lctx);
        }
        let kind = ItemKind::of(&item.kind);
        let ictx = if kind == ItemKind::Done {
            Ctx { base_style: lctx.base_style.patch(theme::task_done_text()), ..lctx }
        } else {
            lctx
        };
        let spans = marker.for_item(i, kind);
        self.canvas.open_container(Prefix::first_line(spans));
        self.blocks(images, fm, item, ictx);
        self.canvas.close_container();
    }

    /// A blockquote or alert: a colored bar down the left, an optional title.
    fn quote(
        &mut self,
        images: Option<&ImageSet>,
        fm: &str,
        n: &Node,
        bar: Span,
        text: Style,
        title: Option<Span>,
        ctx: Ctx,
    )
        requires
            canvas_wf(old(self)@.canvas),
        ensures
            final(self)@ == spec_close(spec_blocks(
                env_view(images, fm@),
                spec_quote_open(old(self)@, bar@, opt_span_view(title), ctx),
                n.children@,
                quote_ctx(ctx, text),
            )),
            canvas_wf(final(self)@.canvas),
        decreases n, 2nat,
    {
        self.separate(ctx);
        let qctx = Ctx { tight: false, base_style: ctx.base_style.patch(text), ..ctx };
        let ghost bv = bar@;
        let mut bars: Vec<Span> = Vec::new();
        bars.push(bar);
        assert(spans_view(bars@) =~= seq![bv]);
        self.canvas.open_container(Prefix::every_line(bars));
        match title {
            Some(t) => {
                let ghost tv = t@;
                let mut v: Vec<Span> = Vec::new();
                v.push(t);
                assert(spans_view(v@) =~= seq![tv]);
                self.canvas.push_title(v);
            },
            None => {},
        }
        self.blocks(images, fm, n, qctx);
        self.canvas.close_container();
    }

    fn footnote_definition(&mut self, images: Option<&ImageSet>, fm: &str, n: &Node, name: &str, ctx: Ctx)
        requires
            canvas_wf(old(self)@.canvas),
        ensures
            final(self)@ == spec_close(spec_blocks(env_view(images, fm@), spec_footnote_open(old(self)@, name@, ctx), n.children@, ctx)),
            canvas_wf(final(self)@.canvas),
        decreases n, 2nat,
    {
        if !self.footnotes_started {
            self.footnotes_started = true;
            self.separate(ctx);
            let w = self.canvas.content_width();
            let rw = if w < FOOTNOTE_RULE_WIDTH { w } else { FOOTNOTE_RULE_WIDTH };
            self.canvas.push_rule('─', rw, theme::rule());
        }
        self.separate(ctx);
        let mut cs: Vec<char> = Vec::new();
        cs.push('[');
        let nm = chars_of(name);
        let mut k: usize = 0;
        while k < nm.len()
            invariant
                k <= nm@.len(),
                cs@ == seq!['['] + nm@.take(k as int),
            decreases nm@.len() - k,
        {
            cs.push(nm[k]);
            k = k + 1;
            assert(cs@ =~= seq!['['] + nm@.take(k as int));
        }
        assert(nm@.take(nm@.len() as int) =~= nm@);
        cs.push(']');
        cs.push(' ');
        assert(cs@ =~= seq!['['] + name@ + seq![']', ' ']);
        let mut label: Vec<Span> = Vec::new();
        label.push(Span::styled(string_of(cs.as_slice()), theme::footnote()));
        assert(spans_view(label@) =~= seq![(seq!['['] + name@ + seq![']', ' '], theme::fg_style(Color::Cyan))]);
        self.canvas.open_container(Prefix::first_line(label));
        self.blocks(images, fm, n, ctx);
        self.canvas.close_container();
    }
}

/// Renders the document tree `doc` to elements (text rows and images) that
/// fit in `width` columns, with the text of its front matter. Without an
/// image set, images show as their alt text. Also gives the images the
/// document could show that `images` neither holds nor marks unloadable.
pub fn render_document(doc: &Node, front_matter: &str, width: usize, images: Option<&ImageSet>) -> (r: (
    Vec<RenderElement>,
    Vec<ImageDescriptor>,
))
    ensures
        elements_view(r.0@) == spec_render(env_view(images, front_matter@), *doc, width).canvas.elements,
        r.1@.map_values(|d: ImageDescriptor| desc_view(d)) == spec_render(env_view(images, front_matter@), *doc, width).misses,
{
    let mut renderer = Renderer::new(width);
    renderer.block(images, front_matter, doc, Ctx::new());
    (renderer.canvas.elements, renderer.misses)
}

/// The front matter text a parse gives: its text, or nothing.
pub open spec fn front_matter_text(md: Seq<char>) -> Seq<char> {
    match crate::doc::comrak_front_matter(md) {
        Some(f) => f,
        None => Seq::<char>::empty(),
    }
}

/// Whether `r` is what rendering some tree comrak parsed `md` into gives, at
/// `width` with `images`: its elements and the images it missed.
pub open spec fn renders_as(md: Seq<char>, width: usize, images: Option<SetV>, elements: Seq<crate::render::canvas::ElementView>, misses: Seq<DescV>) -> bool {
    exists|n: Node| #![trigger crate::doc::xml_document(n)]
        crate::doc::xml_document(n) == crate::doc::comrak_xml(md)
        && crate::doc::printable(n)
        && spec_render(RenderEnv { images, front_matter: front_matter_text(md) }, n, width).canvas.elements == elements
        && spec_render(RenderEnv { images, front_matter: front_matter_text(md) }, n, width).misses == misses
}

/// Parses `md` and renders it to elements and missed images, as
/// `render_document` does, at `width`. Nothing at all if comrak's XML is
/// not the printing of a tree that reads back.
pub fn render_markdown(md: &str, width: usize, images: Option<&ImageSet>) -> (r: (Vec<RenderElement>, Vec<ImageDescriptor>))
    ensures
        if crate::doc::readable_xml(crate::doc::comrak_xml(md@)) {
            renders_as(md@, width, opt_set_view(images), elements_view(r.0@), r.1@.map_values(|d: ImageDescriptor| desc_view(d)))
        } else {
            r.0@.len() == 0 && r.1@.len() == 0
        },
{
    match crate::doc::parse_markdown(md) {
        Some((n, fm)) => {
            let r = render_document(&n, fm.as_str(), width, images);
            assert(crate::doc::xml_document(n) == crate::doc::comrak_xml(md@));
            r
        },
        None => (Vec::new(), Vec::new()),
    }
}

/// Parses `md` and renders it to elements (text lines and images) that fit in
/// `width` columns. Without an image set, images show as their alt text.
pub fn render_ast(md: &str, width: usize, images: Option<&ImageSet>) -> (r: Vec<RenderElement>)
    ensures
        if crate::doc::readable_xml(crate::doc::comrak_xml(md@)) {
            exists|misses: Seq<DescV>| renders_as(md@, width, opt_set_view(images), elements_view(r@), misses)
        } else {
            r@.len() == 0
        },
{
    let (elements, misses) = render_markdown(md, width, images);
    elements
}

} // verus!
