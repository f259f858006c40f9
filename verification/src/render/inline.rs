//! Flattening a block's inline children into styled spans.
//!
//! Nothing here reads renderer state: a run of inlines depends only on the
//! node and the style it inherits, so these are plain functions.

use vstd::prelude::*;

use crate::doc::{Node, NodeKind};
use crate::style::{Modifier, Span, Style, spans_view, spec_add_modifier, spec_patch, spec_style_default};
use crate::text::{
    ascii_lower, chars_of, has_prefix, spec_trim, starts_with, string_of, to_ascii_lowercase, trim,
};
use crate::theme;

verus! {

/// A span's view: its text and style.
pub type SpanV = (Seq<char>, Style);

/// The style inline code takes over `style`.
pub open spec fn code_over(style: Style) -> Style {
    spec_patch(style, theme::code_style())
}

/// The style a link's text takes over `style`.
pub open spec fn link_over(style: Style) -> Style {
    spec_patch(style, spec_add_modifier(theme::fg_style(crate::style::Color::LightBlue), Modifier { bits: 8 }))
}

/// The style raw HTML takes over `style`.
pub open spec fn html_over(style: Style) -> Style {
    spec_patch(style, spec_add_modifier(theme::fg_style(crate::style::Color::DarkGray), Modifier { bits: 4 }))
}

/// The style an image label takes over `style`.
pub open spec fn image_over(style: Style) -> Style {
    spec_patch(style, spec_add_modifier(theme::fg_style(crate::style::Color::Magenta), Modifier { bits: 4 }))
}

/// The style a footnote reference takes over `style`.
pub open spec fn footnote_over(style: Style) -> Style {
    spec_patch(style, theme::fg_style(crate::style::Color::Cyan))
}

/// What an image shows when it can't be drawn: its alt text, marked as an image.
pub open spec fn spec_image_label(alt: Seq<char>, style: Style) -> SpanV {
    (if alt.len() == 0 { "[image]"@ } else { "[image: "@ + alt + "]"@ }, image_over(style))
}

/// Whether raw inline HTML is a line break tag.
pub open spec fn is_br(html: Seq<char>) -> bool {
    let tag = spec_trim(html).map_values(|c: char| ascii_lower(c));
    tag == "<br>"@ || tag == "<br/>"@ || tag == "<br />"@
}

/// Whether raw inline HTML is a comment, which a browser would hide.
pub open spec fn is_comment(html: Seq<char>) -> bool {
    starts_with(spec_trim(html).map_values(|c: char| ascii_lower(c)), "<!--"@)
}

/// The text of a run of spans, with the styles dropped.
pub open spec fn plain_text(spans: Seq<SpanV>) -> Seq<char>
    decreases spans.len(),
{
    if spans.len() == 0 {
        seq![]
    } else {
        plain_text(spans.drop_last()) + spans.last().0
    }
}

/// One inline node as spans, starting from `style`. Styles nest by patching:
/// `**[a link](x)**` renders the link's text with the link style over bold.
pub open spec fn spec_inline(n: Node, style: Style) -> Seq<SpanV>
    decreases n,
{
    match n.kind {
        NodeKind::Text(t) => seq![(t@, style)],
        NodeKind::SoftBreak => seq![(seq![' '], style)],
        NodeKind::LineBreak => seq![(seq!['\n'], style)],
        NodeKind::Strong => spec_inlines(n.children@, spec_add_modifier(style, Modifier { bits: 1 })),
        NodeKind::Emph => spec_inlines(n.children@, spec_add_modifier(style, Modifier { bits: 4 })),
        NodeKind::Strikethrough => spec_inlines(n.children@, spec_add_modifier(style, Modifier { bits: 256 })),
        NodeKind::Code(c) => seq![(c@, code_over(style))],
        NodeKind::Link { .. } => spec_inlines(n.children@, link_over(style)),
        NodeKind::Image { .. } => seq![
            spec_image_label(plain_text(spec_inlines(n.children@, spec_style_default())), style),
        ],
        NodeKind::HtmlInline(h) => if is_br(h@) {
            seq![(seq!['\n'], style)]
        } else if !is_comment(h@) {
            seq![(h@, html_over(style))]
        } else {
            seq![]
        },
        NodeKind::FootnoteReference(name) => seq![(seq!['['] + name@ + seq![']'], footnote_over(style))],
        _ => spec_inlines(n.children@, style),
    }
}

/// A run of inline nodes as spans, one after another.
pub open spec fn spec_inlines(ns: Seq<Node>, style: Style) -> Seq<SpanV>
    decreases ns,
{
    if ns.len() == 0 {
        seq![]
    } else {
        spec_inlines(ns.drop_last(), style) + spec_inline(ns.last(), style)
    }
}

/// Renders all of `n`'s inline children, starting from `style`.
pub fn inlines(n: &Node, style: Style) -> (r: Vec<Span>)
    ensures
        spans_view(r@) == spec_inlines(n.children@, style),
    decreases n, 2nat,
{
    let mut out: Vec<Span> = Vec::new();
    assert(spans_view(out@) =~= Seq::<SpanV>::empty());
    inlines_into(n, style, &mut out);
    assert(spans_view(out@) =~= Seq::<SpanV>::empty() + spec_inlines(n.children@, style));
    out
}

/// An image's alt text: the plain text of its children.
pub fn alt_text(n: &Node) -> (r: Vec<char>)
    ensures
        r@ == plain_text(spec_inlines(n.children@, spec_style_default())),
    decreases n, 3nat,
{
    let spans = inlines(n, Style::new());
    let mut out: Vec<char> = Vec::new();
    let mut i: usize = 0;
    assert(spans_view(spans@).take(0) =~= Seq::<SpanV>::empty());
    while i < spans.len()
        invariant
            i <= spans@.len(),
            out@ == plain_text(spans_view(spans@).take(i as int)),
        decreases spans@.len() - i,
    {
        let cs = chars_of(spans[i].content.as_str());
        let mut k: usize = 0;
        let ghost o0 = out@;
        while k < cs.len()
            invariant
                k <= cs@.len(),
                out@ == o0 + cs@.take(k as int),
            decreases cs@.len() - k,
        {
            out.push(cs[k]);
            k = k + 1;
            assert(out@ =~= o0 + cs@.take(k as int));
        }
        assert(cs@.take(cs@.len() as int) =~= cs@);
        assert(spans_view(spans@).take(i + 1).drop_last() =~= spans_view(spans@).take(i as int));
        i = i + 1;
    }
    assert(spans_view(spans@).take(spans@.len() as int) =~= spans_view(spans@));
    out
}

/// What an image shows when it can't be drawn: its alt text, marked as an image.
pub fn image_label(alt: &Vec<char>, style: Style) -> (r: Span)
    ensures
        r@ == spec_image_label(alt@, style),
{
    let label = if alt.len() == 0 {
        let l = chars_of("[image]");
        l
    } else {
        let mut l = chars_of("[image: ");
        let ghost l0 = l@;
        let mut i: usize = 0;
        while i < alt.len()
            invariant
                i <= alt@.len(),
                l@ == l0 + alt@.take(i as int),
            decreases alt@.len() - i,
        {
            l.push(alt[i]);
            i = i + 1;
            assert(l@ =~= l0 + alt@.take(i as int));
        }
        let ghost l1 = l@;
        l.push(']');
        proof { reveal_strlit("]"); }
        assert(alt@.take(alt@.len() as int) =~= alt@);
        assert(l@ =~= "[image: "@ + alt@ + "]"@);
        l
    };
    Span::styled(string_of(label.as_slice()), style.patch(theme::image()))
}

fn push_span(out: &mut Vec<Span>, text: String, style: Style)
    ensures
        spans_view(final(out)@) == spans_view(old(out)@).push((text@, style)),
{
    let ghost o0 = spans_view(out@);
    out.push(Span::styled(text, style));
    assert(spans_view(out@) =~= o0.push((text@, style)));
}

fn inlines_into(n: &Node, style: Style, out: &mut Vec<Span>)
    ensures
        spans_view(final(out)@) == spans_view(old(out)@) + spec_inlines(n.children@, style),
    decreases n, 1nat,
{
    let ghost o0 = spans_view(out@);
    let mut i: usize = 0;
    assert(n.children@.take(0) =~= Seq::<Node>::empty());
    assert(spans_view(out@) =~= o0 + spec_inlines(n.children@.take(0), style));
    while i < n.children.len()
        invariant
            i <= n.children@.len(),
            spans_view(out@) == o0 + spec_inlines(n.children@.take(i as int), style),
        decreases n.children@.len() - i,
    {
        let child = &n.children[i];
        inline(child, style, out);
        assert(n.children@.take(i + 1).drop_last() =~= n.children@.take(i as int));
        assert(spans_view(out@) =~= o0 + spec_inlines(n.children@.take(i + 1), style));
        i = i + 1;
    }
    assert(n.children@.take(n.children@.len() as int) =~= n.children@);
}

fn inline(n: &Node, style: Style, out: &mut Vec<Span>)
    ensures
        spans_view(final(out)@) == spans_view(old(out)@) + spec_inline(*n, style),
    decreases n, 4nat,
{
    let ghost o0 = spans_view(out@);
    match &n.kind {
        NodeKind::Text(t) => {
            push_span(out, t.clone(), style);
            assert(spans_view(out@) =~= o0 + spec_inline(*n, style));
        },
        NodeKind::SoftBreak => {
            push_span(out, crate::text::repeat_char(' ', 1), style);
            assert(crate::text::spec_repeat(' ', 1) =~= seq![' ']);
            assert(spans_view(out@) =~= o0 + spec_inline(*n, style));
        },
        NodeKind::LineBreak => {
            push_span(out, crate::text::repeat_char('\n', 1), style);
            assert(crate::text::spec_repeat('\n', 1) =~= seq!['\n']);
            assert(spans_view(out@) =~= o0 + spec_inline(*n, style));
        },
        NodeKind::Strong => inlines_into(n, style.add_modifier(Modifier::bold()), out),
        NodeKind::Emph => inlines_into(n, style.add_modifier(Modifier::italic()), out),
        NodeKind::Strikethrough => inlines_into(n, style.add_modifier(Modifier::crossed_out()), out),
        NodeKind::Code(c) => {
            push_span(out, c.clone(), style.patch(theme::inline_code()));
            assert(spans_view(out@) =~= o0 + spec_inline(*n, style));
        },
        NodeKind::Link { .. } => inlines_into(n, style.patch(theme::link()), out),
        NodeKind::Image { .. } => {
            let alt = alt_text(n);
            let label = image_label(&alt, style);
            let ghost lv = label@;
            out.push(label);
            assert(spans_view(out@) =~= o0 + spec_inline(*n, style));
        },
        NodeKind::HtmlInline(h) => {
            let hs = chars_of(h.as_str());
            let tag = to_ascii_lowercase(&trim(&hs));
            let br1 = chars_of("<br>");
            let br2 = chars_of("<br/>");
            let br3 = chars_of("<br />");
            let open = chars_of("<!--");
            let is_br = (tag.len() == br1.len() && has_prefix(&tag, &br1))
                || (tag.len() == br2.len() && has_prefix(&tag, &br2))
                || (tag.len() == br3.len() && has_prefix(&tag, &br3));
            proof {
                if tag@.len() == br1@.len() {
                    assert(tag@.take(br1@.len() as int) =~= tag@);
                }
                if tag@.len() == br2@.len() {
                    assert(tag@.take(br2@.len() as int) =~= tag@);
                }
                if tag@.len() == br3@.len() {
                    assert(tag@.take(br3@.len() as int) =~= tag@);
                }
            }
            assert(is_br == crate::render::inline::is_br(h@));
            assert(crate::text::spec_repeat('\n', 1) =~= seq!['\n']);
            if is_br {
                push_span(out, crate::text::repeat_char('\n', 1), style);
            } else if !has_prefix(&tag, &open) {
                push_span(out, h.clone(), style.patch(theme::html()));
            }
            assert(spans_view(out@) =~= o0 + spec_inline(*n, style));
        },
        NodeKind::FootnoteReference(name) => {
            let mut cs: Vec<char> = Vec::new();
            cs.push('[');
            let nm = chars_of(name.as_str());
            let mut i: usize = 0;
            while i < nm.len()
                invariant
                    i <= nm@.len(),
                    cs@ == seq!['['] + nm@.take(i as int),
                decreases nm@.len() - i,
            {
                cs.push(nm[i]);
                i = i + 1;
                assert(cs@ =~= seq!['['] + nm@.take(i as int));
            }
            cs.push(']');
            assert(nm@.take(nm@.len() as int) =~= nm@);
            assert(cs@ =~= seq!['['] + name@ + seq![']']);
            push_span(out, string_of(cs.as_slice()), style.patch(theme::footnote()));
            assert(spans_view(out@) =~= o0 + spec_inline(*n, style));
        },
        _ => {
            inlines_into(n, style, out);
        },
    }
}

/// A soft line break is a single space in the text's own style: it never
/// breaks the line. So a paragraph of text written over several source lines
/// is one line of text, which wraps only where the width says so.
pub proof fn lemma_soft_break_is_a_space(ns: Seq<Node>, style: Style)
    requires
        forall|i: int| 0 <= i < ns.len() ==> (#[trigger] ns[i]).kind is SoftBreak
            || (ns[i].kind matches NodeKind::Text(t) && forall|k: int| 0 <= k < t@.len() ==> t@[k] != '\n'),
    ensures
        forall|i: int| 0 <= i < ns.len() && (#[trigger] ns[i]).kind is SoftBreak
            ==> spec_inline(ns[i], style) == seq![(seq![' '], style)],
        crate::wrap::spec_hard_lines(crate::wrap::styled_chars(spec_inlines(ns, style))).len() == 1,
{
    lemma_inlines_no_newline(ns, style);
    crate::wrap::lemma_styled_chars_no_newline(spec_inlines(ns, style));
    crate::wrap::lemma_one_hard_line(crate::wrap::styled_chars(spec_inlines(ns, style)));
}

proof fn lemma_inlines_no_newline(ns: Seq<Node>, style: Style)
    requires
        forall|i: int| 0 <= i < ns.len() ==> (#[trigger] ns[i]).kind is SoftBreak
            || (ns[i].kind matches NodeKind::Text(t) && forall|k: int| 0 <= k < t@.len() ==> t@[k] != '\n'),
    ensures
        forall|i: int, k: int| 0 <= i < spec_inlines(ns, style).len() && 0 <= k < spec_inlines(ns, style)[i].0.len()
            ==> (#[trigger] spec_inlines(ns, style)[i].0[k]) != '\n',
    decreases ns.len(),
{
    if ns.len() > 0 {
        let init = ns.drop_last();
        assert forall|i: int| 0 <= i < init.len() implies (#[trigger] init[i]).kind is SoftBreak
            || (init[i].kind matches NodeKind::Text(t) && forall|k: int| 0 <= k < t@.len() ==> t@[k] != '\n') by {
            assert(init[i] == ns[i]);
        }
        lemma_inlines_no_newline(init, style);
        let a = spec_inlines(init, style);
        let last = ns[ns.len() - 1];
        let b = spec_inline(last, style);
        assert forall|i: int, k: int| 0 <= i < spec_inlines(ns, style).len() && 0 <= k < spec_inlines(ns, style)[i].0.len()
            implies (#[trigger] spec_inlines(ns, style)[i].0[k]) != '\n' by {
            if i >= a.len() {
                assert(spec_inlines(ns, style)[i] == b[i - a.len()]);
            } else {
                assert(spec_inlines(ns, style)[i] == a[i]);
            }
        }
    }
}

} // verus!
