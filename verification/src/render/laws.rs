//! What every block keeps: it closes each container it opens, it never
//! changes the width, the footnote divider is drawn once, and without an
//! image set nothing but text comes out.

use vstd::prelude::*;

use crate::doc::{ListInfo, Node, NodeKind};
use crate::render::canvas::{
    CanvasView, ElementView, PrefixV, canvas_wf, spec_open_container, spec_push_blank, spec_push_line,
    spec_push_lines, spec_push_row, spec_push_rule, spec_push_separator, spec_push_wrapped,
};
use crate::render::inline::SpanV;
use crate::render::{
    Ctx, RenderEnv, RenderState, spec_block, spec_blocks, spec_close, spec_code_block, spec_code_chunks, spec_code_rows,
    spec_heading, spec_image, spec_item, spec_items, spec_literal_block, spec_literal_lines,
    spec_quote_open, spec_render, spec_separate, spec_table_block, spec_thematic_break, initial_state, with_canvas,
};

verus! {

/// Whether every element is text: no image among them.
pub open spec fn text_only(es: Seq<ElementView>) -> bool {
    forall|i: int| 0 <= i < es.len() ==> (#[trigger] es[i]) is Lines
}

/// What a canvas step keeps: the containers, the width, and a canvas of
/// text staying text.
pub open spec fn canvas_keeps(c: CanvasView, d: CanvasView) -> bool {
    &&& d.prefixes == c.prefixes
    &&& d.width == c.width
    &&& canvas_wf(c) ==> canvas_wf(d)
    &&& text_only(c.elements) ==> text_only(d.elements)
}

/// What a block keeps: the containers around it, the width, the footnote
/// divider once drawn, and, without an image set, a text-only document
/// with no images missed.
pub open spec fn keeps(env: RenderEnv, s: RenderState, r: RenderState) -> bool {
    &&& r.canvas.prefixes == s.canvas.prefixes
    &&& r.canvas.width == s.canvas.width
    &&& canvas_wf(s.canvas) ==> canvas_wf(r.canvas)
    &&& s.footnotes_started ==> r.footnotes_started
    &&& (env.images is None && text_only(s.canvas.elements) && s.misses.len() == 0)
        ==> (text_only(r.canvas.elements) && r.misses.len() == 0)
}

pub proof fn lemma_push_row_text(es: Seq<ElementView>, row: Seq<SpanV>)
    requires
        text_only(es),
    ensures
        text_only(spec_push_row(es, row)),
{
    let r = spec_push_row(es, row);
    assert forall|i: int| 0 <= i < r.len() implies (#[trigger] r[i]) is Lines by {
        if i < es.len() - 1 {
            assert(r[i] == es[i]);
        }
    }
}

pub proof fn lemma_push_line_keeps(c: CanvasView, content: Seq<SpanV>)
    ensures
        canvas_keeps(c, spec_push_line(c, content)),
{
    if text_only(c.elements) {
        lemma_push_row_text(c.elements, crate::render::canvas::lead(c.prefixes, c.drawn) + content);
    }
}

pub proof fn lemma_push_blank_keeps(c: CanvasView)
    ensures
        canvas_keeps(c, spec_push_blank(c)),
        canvas_keeps(c, spec_push_separator(c)),
{
    if text_only(c.elements) {
        lemma_push_row_text(c.elements, crate::render::canvas::blank_lead(c.prefixes));
    }
}

pub proof fn lemma_push_lines_keeps(c: CanvasView, rows: Seq<Seq<SpanV>>)
    ensures
        canvas_keeps(c, spec_push_lines(c, rows)),
    decreases rows.len(),
{
    if rows.len() > 0 {
        lemma_push_lines_keeps(c, rows.drop_last());
        lemma_push_line_keeps(spec_push_lines(c, rows.drop_last()), rows.last());
    }
}

pub proof fn lemma_code_chunks_keeps(c: CanvasView, chunks: Seq<Seq<SpanV>>, width: int)
    ensures
        canvas_keeps(c, spec_code_chunks(c, chunks, width)),
    decreases chunks.len(),
{
    if chunks.len() > 0 {
        lemma_code_chunks_keeps(c, chunks.drop_last(), width);
        let c1 = spec_code_chunks(c, chunks.drop_last(), width);
        lemma_push_line_keeps(
            c1,
            crate::wrap::spec_pad(seq![(seq![' '], crate::theme::code_style())] + chunks.last(), width, crate::theme::code_style()),
        );
    }
}

pub proof fn lemma_code_rows_keeps(c: CanvasView, code: Seq<Seq<SpanV>>, width: int)
    ensures
        canvas_keeps(c, spec_code_rows(c, code, width)),
    decreases code.len(),
{
    if code.len() > 0 {
        lemma_code_rows_keeps(c, code.drop_last(), width);
        let c1 = spec_code_rows(c, code.drop_last(), width);
        lemma_code_chunks_keeps(
            c1,
            crate::wrap::spec_wrap_chars(code.last(), if width >= 2 { width - 2 } else { 0 }),
            width,
        );
    }
}

pub proof fn lemma_literal_lines_keeps(c: CanvasView, lines: Seq<Seq<char>>, style: crate::style::Style, width: int)
    ensures
        canvas_keeps(c, spec_literal_lines(c, lines, style, width)),
    decreases lines.len(),
{
    if lines.len() > 0 {
        lemma_literal_lines_keeps(c, lines.drop_last(), style, width);
        let c1 = spec_literal_lines(c, lines.drop_last(), style, width);
        lemma_push_lines_keeps(c1, crate::wrap::spec_wrap_chars(seq![(lines.last(), style)], width));
    }
}

pub proof fn lemma_keeps_trans(env: RenderEnv, a: RenderState, b: RenderState, c: RenderState)
    requires
        keeps(env, a, b),
        keeps(env, b, c),
    ensures
        keeps(env, a, c),
{
}

pub proof fn lemma_separate_keeps(env: RenderEnv, s: RenderState, ctx: Ctx)
    ensures
        keeps(env, s, spec_separate(s, ctx)),
{
    lemma_push_blank_keeps(s.canvas);
}

/// Opening a container and closing it again leaves the containers as they were.
pub proof fn lemma_open_close(env: RenderEnv, s: RenderState, p: PrefixV, r: RenderState)
    requires
        canvas_wf(s.canvas) ==> canvas_wf(with_canvas(s, spec_open_container(s.canvas, p)).canvas),
        keeps(env, with_canvas(s, spec_open_container(s.canvas, p)), r),
    ensures
        keeps(env, s, spec_close(r)),
{
    let c = r.canvas;
    let c1 = if c.prefixes.len() > 0 && c.drawn >= c.prefixes.len() { c } else { spec_push_line(c, seq![]) };
    lemma_push_line_keeps(c, seq![]);
    assert(c.prefixes == s.canvas.prefixes.push(p));
    assert(c1.prefixes.drop_last() =~= s.canvas.prefixes);
}

proof fn lemma_heading_keeps(env: RenderEnv, s: RenderState, n: Node, level: u8, ctx: Ctx)
    ensures
        keeps(env, s, spec_heading(s, n, level, ctx)),
{
    lemma_separate_keeps(env, s, ctx);
    let s1 = spec_separate(s, ctx);
    let style = crate::style::spec_patch(ctx.base_style, crate::theme::bold_fg(crate::theme::heading_color(level)));
    let spans = crate::render::inline::spec_inlines(n.children@, style);
    let w0 = crate::render::canvas::spec_content_width(s1.canvas);
    lemma_push_lines_keeps(s1.canvas, crate::wrap::spec_wrap(spans, w0));
    let c2 = spec_push_wrapped(s1.canvas, spans);
    let w = crate::render::canvas::spec_content_width(c2) as nat;
    lemma_push_line_keeps(c2, seq![(crate::text::spec_repeat('━', w), crate::render::heading_rule_style(level))]);
    lemma_push_line_keeps(c2, seq![(crate::text::spec_repeat('─', w), crate::render::heading_rule_style(level))]);
}

proof fn lemma_thematic_break_keeps(env: RenderEnv, s: RenderState, ctx: Ctx)
    ensures
        keeps(env, s, spec_thematic_break(s, ctx)),
{
    lemma_separate_keeps(env, s, ctx);
    let s1 = spec_separate(s, ctx);
    lemma_push_line_keeps(s1.canvas, seq![(
        crate::text::spec_repeat('─', crate::render::canvas::spec_content_width(s1.canvas) as nat),
        crate::theme::fg_style(crate::style::Color::DarkGray),
    )]);
}

proof fn lemma_table_keeps(env: RenderEnv, s: RenderState, n: Node, ctx: Ctx)
    ensures
        keeps(env, s, spec_table_block(s, n, ctx)),
{
    lemma_separate_keeps(env, s, ctx);
    let s1 = spec_separate(s, ctx);
    let raw = crate::render::spec_table_rows(n.children@, ctx.base_style);
    let tw = crate::render::canvas::spec_content_width(s.canvas);
    lemma_push_lines_keeps(s1.canvas, crate::render::table::spec_table(raw, tw, crate::render::spec_aligns(n.children@)));
}

proof fn lemma_code_block_keeps(env: RenderEnv, s: RenderState, info: Seq<char>, literal: Seq<char>, ctx: Ctx)
    ensures
        keeps(env, s, spec_code_block(s, info, literal, ctx)),
{
    lemma_separate_keeps(env, s, ctx);
    let s1 = spec_separate(s, ctx);
    let lang = crate::render::spec_fence_language(info);
    let lit = crate::wrap::expand_from(literal, 0);
    let w = crate::render::canvas::spec_content_width(s1.canvas);
    let header = crate::wrap::spec_pad(crate::render::code_header(lang, w), w, crate::theme::code_style());
    lemma_push_line_keeps(s1.canvas, header);
    let c1 = spec_push_line(s1.canvas, header);
    lemma_code_rows_keeps(c1, crate::render::code_lines(lit, lang), w);
    let c2 = spec_code_rows(c1, crate::render::code_lines(lit, lang), w);
    lemma_push_line_keeps(c2, crate::wrap::spec_pad(seq![], w, crate::theme::code_style()));
}

proof fn lemma_literal_block_keeps(env: RenderEnv, s: RenderState, literal: Seq<char>, ctx: Ctx)
    ensures
        keeps(env, s, spec_literal_block(s, literal, ctx)),
{
    lemma_separate_keeps(env, s, ctx);
    let s1 = spec_separate(s, ctx);
    let w = crate::render::canvas::spec_content_width(s1.canvas);
    lemma_literal_lines_keeps(
        s1.canvas,
        crate::text::spec_lines(literal),
        crate::render::inline::html_over(ctx.base_style),
        w,
    );
}

proof fn lemma_image_keeps(env: RenderEnv, s: RenderState, url: Seq<char>, alt: Seq<char>, ctx: Ctx)
    ensures
        keeps(env, s, spec_image(env.images, s, url, alt, ctx)),
{
    lemma_separate_keeps(env, s, ctx);
    let s1 = spec_separate(s, ctx);
    lemma_push_line_keeps(s1.canvas, seq![crate::render::inline::spec_image_label(alt, ctx.base_style)]);
}

/// Every block keeps what `keeps` says.
pub proof fn lemma_block_keeps(env: RenderEnv, s: RenderState, n: Node, ctx: Ctx)
    ensures
        keeps(env, s, spec_block(env, s, n, ctx)),
    decreases n, 1nat,
{
    lemma_separate_keeps(env, s, ctx);
    match n.kind {
        NodeKind::Heading(level) => lemma_heading_keeps(env, s, n, level, ctx),
        NodeKind::Paragraph => {
            match crate::render::spec_sole_image(n) {
                Some(p) => lemma_image_keeps(env, s, p.0, p.1, ctx),
                None => {
                    let s1 = spec_separate(s, ctx);
                    let spans = crate::render::inline::spec_inlines(n.children@, ctx.base_style);
                    lemma_push_lines_keeps(
                        s1.canvas,
                        crate::wrap::spec_wrap(spans, crate::render::canvas::spec_content_width(s1.canvas)),
                    );
                },
            }
        },
        NodeKind::List(info) => {
            let s1 = spec_separate(s, ctx);
            lemma_items_keeps(env, s1, n.children@, info, n.children@.len(), ctx.list_depth, crate::render::list_ctx(ctx, info));
        },
        NodeKind::CodeBlock { info, literal } => lemma_code_block_keeps(env, s, info@, literal@, ctx),
        NodeKind::HtmlBlock(lit) => lemma_literal_block_keeps(env, s, lit@, ctx),
        NodeKind::FrontMatter => lemma_literal_block_keeps(env, s, env.front_matter, ctx),
        NodeKind::BlockQuote => {
            let bar = ("▎ "@, crate::theme::fg_style(crate::style::Color::DarkGray));
            lemma_quote_keeps(env, s, n, bar, None, crate::render::quote_ctx(ctx, crate::theme::fg_style(crate::style::Color::Gray)), ctx);
        },
        NodeKind::Alert { kind, title, .. } => {
            let style = crate::theme::fg_style(crate::theme::alert_color(kind));
            let t = match title {
                Some(t) => t@,
                None => crate::render::alert_title(kind),
            };
            lemma_quote_keeps(
                env,
                s,
                n,
                ("▎ "@, style),
                Some((t, crate::style::spec_add_modifier(style, crate::style::Modifier { bits: 1 }))),
                crate::render::quote_ctx(ctx, crate::style::spec_style_default()),
                ctx,
            );
        },
        NodeKind::FootnoteDefinition(name) => {
            let s1 = if s.footnotes_started {
                s
            } else {
                let sa = spec_separate(RenderState { footnotes_started: true, ..s }, ctx);
                lemma_separate_keeps(env, RenderState { footnotes_started: true, ..s }, ctx);
                let w = crate::render::canvas::spec_content_width(sa.canvas);
                let rw = (if w < 20 { w } else { 20 }) as nat;
                lemma_push_line_keeps(sa.canvas, seq![(crate::text::spec_repeat('─', rw), crate::theme::fg_style(crate::style::Color::DarkGray))]);
                with_canvas(sa, spec_push_rule(sa.canvas, '─', rw, crate::theme::fg_style(crate::style::Color::DarkGray)))
            };
            lemma_separate_keeps(env, s1, ctx);
            let s2 = spec_separate(s1, ctx);
            let label = seq![(seq!['['] + name@ + seq![']', ' '], crate::theme::fg_style(crate::style::Color::Cyan))];
            let p = crate::render::canvas::spec_first_line(label);
            let so = with_canvas(s2, spec_open_container(s2.canvas, p));
            lemma_blocks_keeps(env, so, n.children@, ctx);
            lemma_open_close(env, s2, p, spec_blocks(env, so, n.children@, ctx));
            lemma_keeps_trans(env, s, s2, spec_close(spec_blocks(env, so, n.children@, ctx)));
        },
        NodeKind::Table => lemma_table_keeps(env, s, n, ctx),
        NodeKind::ThematicBreak => lemma_thematic_break_keeps(env, s, ctx),
        _ => {
            lemma_blocks_keeps(env, s, n.children@, ctx);
        },
    }
}

proof fn lemma_quote_keeps(env: RenderEnv, s: RenderState, n: Node, bar: SpanV, title: Option<SpanV>, qctx: Ctx, ctx: Ctx)
    ensures
        keeps(env, s, spec_close(spec_blocks(env, spec_quote_open(s, bar, title, ctx), n.children@, qctx))),
    decreases n, 0nat,
{
    lemma_separate_keeps(env, s, ctx);
    let s1 = spec_separate(s, ctx);
    let p = crate::render::canvas::spec_every_line(seq![bar]);
    let c2 = spec_open_container(s1.canvas, p);
    let so = spec_quote_open(s, bar, title, ctx);
    match title {
        Some(t) => {
            lemma_push_line_keeps(c2, seq![t]);
        },
        None => {},
    }
    assert(keeps(env, with_canvas(s1, c2), so));
    lemma_blocks_keeps(env, so, n.children@, qctx);
    lemma_keeps_trans(env, with_canvas(s1, c2), so, spec_blocks(env, so, n.children@, qctx));
    lemma_open_close(env, s1, p, spec_blocks(env, so, n.children@, qctx));
    lemma_keeps_trans(env, s, s1, spec_close(spec_blocks(env, so, n.children@, qctx)));
}

pub proof fn lemma_blocks_keeps(env: RenderEnv, s: RenderState, ns: Seq<Node>, ctx: Ctx)
    ensures
        keeps(env, s, spec_blocks(env, s, ns, ctx)),
    decreases ns, 0nat,
{
    if ns.len() > 0 {
        lemma_blocks_keeps(env, s, ns.drop_last(), ctx);
        let s1 = spec_blocks(env, s, ns.drop_last(), ctx);
        lemma_block_keeps(env, s1, ns.last(), ctx);
        lemma_keeps_trans(env, s, s1, spec_block(env, s1, ns.last(), ctx));
    }
}

pub proof fn lemma_items_keeps(
    env: RenderEnv,
    s: RenderState,
    items: Seq<Node>,
    info: ListInfo,
    count: nat,
    depth: usize,
    lctx: Ctx,
)
    ensures
        keeps(env, s, spec_items(env, s, items, info, count, depth, lctx)),
    decreases items, 0nat,
{
    if items.len() > 0 {
        lemma_items_keeps(env, s, items.drop_last(), info, count, depth, lctx);
        let s1 = spec_items(env, s, items.drop_last(), info, count, depth, lctx);
        lemma_item_keeps(env, s1, items.last(), (items.len() - 1) as nat, info, count, depth, lctx);
        lemma_keeps_trans(env, s, s1, spec_item(env, s1, items.last(), (items.len() - 1) as nat, info, count, depth, lctx));
    }
}

pub proof fn lemma_item_keeps(
    env: RenderEnv,
    s: RenderState,
    item: Node,
    i: nat,
    info: ListInfo,
    count: nat,
    depth: usize,
    lctx: Ctx,
)
    ensures
        keeps(env, s, spec_item(env, s, item, i, info, count, depth, lctx)),
    decreases item, 0nat,
{
    lemma_separate_keeps(env, s, lctx);
    let s1 = if i > 0 { spec_separate(s, lctx) } else { s };
    let kind = crate::render::spec_item_kind(item.kind);
    let ictx = if kind == crate::render::ItemKind::Done {
        Ctx { base_style: crate::style::spec_patch(lctx.base_style, crate::theme::fg_style(crate::style::Color::DarkGray)), ..lctx }
    } else {
        lctx
    };
    let p = crate::render::canvas::spec_first_line(crate::render::spec_item_marker(info, count, depth, i, kind));
    let s2 = with_canvas(s1, spec_open_container(s1.canvas, p));
    lemma_blocks_keeps(env, s2, item.children@, ictx);
    lemma_open_close(env, s1, p, spec_blocks(env, s2, item.children@, ictx));
    lemma_keeps_trans(env, s, s1, spec_close(spec_blocks(env, s2, item.children@, ictx)));
}

/// Without an image set, a whole document renders to text alone, and no
/// image is asked for.
pub proof fn lemma_no_images_without_a_set(front_matter: Seq<char>, doc: Node, width: usize)
    ensures
        text_only(spec_render(RenderEnv { images: None, front_matter }, doc, width).canvas.elements),
        spec_render(RenderEnv { images: None, front_matter }, doc, width).misses.len() == 0,
{
    let env = RenderEnv { images: None, front_matter };
    lemma_block_keeps(env, initial_state(width), doc, crate::render::default_ctx());
}

/// Every block leaves the containers around it as it found them, and the
/// document's width unchanged.
pub proof fn lemma_blocks_close_what_they_open(env: RenderEnv, s: RenderState, n: Node, ctx: Ctx)
    ensures
        spec_block(env, s, n, ctx).canvas.prefixes == s.canvas.prefixes,
        spec_block(env, s, n, ctx).canvas.width == s.canvas.width,
        canvas_wf(s.canvas) ==> canvas_wf(spec_block(env, s, n, ctx).canvas),
{
    lemma_block_keeps(env, s, n, ctx);
}

/// Once the footnote divider is drawn it is never drawn again: every block
/// keeps the mark.
pub proof fn lemma_footnote_divider_once(env: RenderEnv, s: RenderState, n: Node, ctx: Ctx)
    requires
        s.footnotes_started,
    ensures
        spec_block(env, s, n, ctx).footnotes_started,
{
    lemma_block_keeps(env, s, n, ctx);
}

} // verus!
