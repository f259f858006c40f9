//! Styled text: colors, modifiers, styles, spans and lines.
//!
//! These are the plain-value forms of what a terminal draws: a `Span` is a run
//! of text in one `Style`, a `Line` is a row of spans. A style layers over
//! another by `patch`, which is how nested markup (a link inside bold text)
//! combines.

use vstd::prelude::*;

verus! {

/// A terminal color: one of the sixteen named ANSI colors, a 24-bit color, or
/// an index into the terminal's 256-color palette.
#[derive(Clone, Copy, Debug, PartialEq, Eq, Structural)]
pub enum Color {
    Reset,
    Black,
    Red,
    Green,
    Yellow,
    Blue,
    Magenta,
    Cyan,
    Gray,
    DarkGray,
    LightRed,
    LightGreen,
    LightYellow,
    LightBlue,
    LightMagenta,
    LightCyan,
    White,
    Rgb(u8, u8, u8),
    Indexed(u8),
}

/// A set of text modifiers, one bit each.
#[derive(Clone, Copy, Debug, PartialEq, Eq, Structural)]
pub struct Modifier {
    pub bits: u16,
}

impl Modifier {
    /// Bold text.
    pub fn bold() -> (r: Modifier)
        ensures
            r.bits == 1,
    {
        Modifier { bits: 1 }
    }

    /// Faint text.
    pub fn dim() -> (r: Modifier)
        ensures
            r.bits == 2,
    {
        Modifier { bits: 2 }
    }

    /// Italic text.
    pub fn italic() -> (r: Modifier)
        ensures
            r.bits == 4,
    {
        Modifier { bits: 4 }
    }

    /// Underlined text.
    pub fn underlined() -> (r: Modifier)
        ensures
            r.bits == 8,
    {
        Modifier { bits: 8 }
    }

    /// Struck-through text.
    pub fn crossed_out() -> (r: Modifier)
        ensures
            r.bits == 256,
    {
        Modifier { bits: 256 }
    }

    /// Whether every modifier of `other` is in this set.
    pub fn contains(&self, other: Modifier) -> (r: bool)
        ensures
            r == (self.bits & other.bits == other.bits),
    {
        self.bits & other.bits == other.bits
    }

    /// The modifiers of both sets.
    pub fn union(self, other: Modifier) -> (r: Modifier)
        ensures
            r.bits == self.bits | other.bits,
    {
        Modifier { bits: self.bits | other.bits }
    }
}

/// How a run of text is drawn. `None` colors and unset modifiers inherit from
/// whatever the style is layered over; `sub_modifier` removes modifiers that
/// an outer style added.
#[derive(Clone, Copy, Debug, PartialEq, Eq, Structural)]
pub struct Style {
    pub fg: Option<Color>,
    pub bg: Option<Color>,
    pub add_modifier: Modifier,
    pub sub_modifier: Modifier,
}

/// `a.or(b)` for colors.
pub open spec fn color_or(a: Option<Color>, b: Option<Color>) -> Option<Color> {
    if a is Some { a } else { b }
}

/// `base` with `other` layered over it: `other`'s colors win where it has
/// them, and its added and removed modifiers override `base`'s.
pub open spec fn spec_patch(base: Style, other: Style) -> Style {
    Style {
        fg: color_or(other.fg, base.fg),
        bg: color_or(other.bg, base.bg),
        add_modifier: Modifier {
            bits: (base.add_modifier.bits & !other.sub_modifier.bits) | other.add_modifier.bits,
        },
        sub_modifier: Modifier {
            bits: (base.sub_modifier.bits & !other.add_modifier.bits) | other.sub_modifier.bits,
        },
    }
}

/// The style that sets nothing.
pub open spec fn spec_style_default() -> Style {
    Style {
        fg: None,
        bg: None,
        add_modifier: Modifier { bits: 0 },
        sub_modifier: Modifier { bits: 0 },
    }
}

/// `style` with `m` added (and no longer removed).
pub open spec fn spec_add_modifier(style: Style, m: Modifier) -> Style {
    Style {
        add_modifier: Modifier { bits: style.add_modifier.bits | m.bits },
        sub_modifier: Modifier { bits: style.sub_modifier.bits & !m.bits },
        ..style
    }
}

/// `style` with `m` removed (and no longer added).
pub open spec fn spec_remove_modifier(style: Style, m: Modifier) -> Style {
    Style {
        add_modifier: Modifier { bits: style.add_modifier.bits & !m.bits },
        sub_modifier: Modifier { bits: style.sub_modifier.bits | m.bits },
        ..style
    }
}

impl Style {
    /// The style that sets nothing.
    pub fn new() -> (r: Style)
        ensures
            r == spec_style_default(),
    {
        Style { fg: None, bg: None, add_modifier: Modifier { bits: 0 }, sub_modifier: Modifier { bits: 0 } }
    }

    /// This style with foreground `c`.
    pub fn fg(self, c: Color) -> (r: Style)
        ensures
            r == (Style { fg: Some(c), ..self }),
    {
        Style { fg: Some(c), ..self }
    }

    /// This style with background `c`.
    pub fn bg(self, c: Color) -> (r: Style)
        ensures
            r == (Style { bg: Some(c), ..self }),
    {
        Style { bg: Some(c), ..self }
    }

    /// This style with `m` added.
    pub fn add_modifier(self, m: Modifier) -> (r: Style)
        ensures
            r == spec_add_modifier(self, m),
    {
        Style {
            add_modifier: Modifier { bits: self.add_modifier.bits | m.bits },
            sub_modifier: Modifier { bits: self.sub_modifier.bits & !m.bits },
            ..self
        }
    }

    /// This style with `m` removed.
    pub fn remove_modifier(self, m: Modifier) -> (r: Style)
        ensures
            r == spec_remove_modifier(self, m),
    {
        Style {
            add_modifier: Modifier { bits: self.add_modifier.bits & !m.bits },
            sub_modifier: Modifier { bits: self.sub_modifier.bits | m.bits },
            ..self
        }
    }

    /// `other` layered over this style.
    pub fn patch(self, other: Style) -> (r: Style)
        ensures
            r == spec_patch(self, other),
    {
        let fg = match other.fg {
            Some(c) => Some(c),
            None => self.fg,
        };
        let bg = match other.bg {
            Some(c) => Some(c),
            None => self.bg,
        };
        Style {
            fg,
            bg,
            add_modifier: Modifier {
                bits: (self.add_modifier.bits & !other.sub_modifier.bits) | other.add_modifier.bits,
            },
            sub_modifier: Modifier {
                bits: (self.sub_modifier.bits & !other.add_modifier.bits) | other.sub_modifier.bits,
            },
        }
    }
}

/// A run of text drawn in one style.
#[derive(Clone, Debug, PartialEq, Eq)]
pub struct Span {
    pub content: String,
    pub style: Style,
}

impl View for Span {
    type V = (Seq<char>, Style);

    open spec fn view(&self) -> (Seq<char>, Style) {
        (self.content@, self.style)
    }
}

/// The views of a run of spans.
pub open spec fn spans_view(spans: Seq<Span>) -> Seq<(Seq<char>, Style)> {
    spans.map_values(|s: Span| s@)
}

/// The views of a list of rows of spans.
pub open spec fn rows_view(rows: Seq<Vec<Span>>) -> Seq<Seq<(Seq<char>, Style)>> {
    rows.map_values(|r: Vec<Span>| spans_view(r@))
}

impl Span {
    /// A span of `content` in `style`.
    pub fn styled(content: String, style: Style) -> (r: Span)
        ensures
            r.content == content,
            r.style == style,
    {
        Span { content, style }
    }

    /// A copy of this span.
    pub fn clone_span(&self) -> (r: Span)
        ensures
            r@ == self@,
    {
        Span { content: self.content.clone(), style: self.style }
    }

    /// A span of `content` with no style of its own.
    pub fn raw(content: String) -> (r: Span)
        ensures
            r.content == content,
            r.style == spec_style_default(),
    {
        Span { content, style: Style::new() }
    }

    /// This span with `style` patched over its own.
    pub fn patch_style(self, style: Style) -> (r: Span)
        ensures
            r@ == (self@.0, spec_patch(self@.1, style)),
    {
        Span { content: self.content, style: self.style.patch(style) }
    }
}

/// Appends copies of `src` to `out`.
pub fn extend_spans(out: &mut Vec<Span>, src: &[Span])
    ensures
        spans_view(final(out)@) == spans_view(old(out)@) + spans_view(src@),
{
    let ghost o0 = spans_view(out@);
    let mut i: usize = 0;
    while i < src.len()
        invariant
            i <= src@.len(),
            spans_view(out@) == o0 + spans_view(src@).take(i as int),
        decreases src@.len() - i,
    {
        let c = src[i].clone_span();
        assert(spans_view(src@)[i as int] == c@);
        let ghost before = spans_view(out@);
        out.push(c);
        assert(spans_view(out@) =~= before.push(c@));
        assert(spans_view(src@).take(i + 1) =~= spans_view(src@).take(i as int).push(c@));
        i = i + 1;
    }
    assert(spans_view(src@).take(src@.len() as int) =~= spans_view(src@));
}

/// A copy of a run of spans.
pub fn clone_spans(src: &[Span]) -> (r: Vec<Span>)
    ensures
        spans_view(r@) == spans_view(src@),
{
    let mut out: Vec<Span> = Vec::new();
    extend_spans(&mut out, src);
    assert(spans_view(out@) =~= Seq::<(Seq<char>, Style)>::empty() + spans_view(src@));
    out
}

/// One terminal row: its spans, left to right.
#[derive(Clone, Debug, PartialEq, Eq)]
pub struct Line {
    pub spans: Vec<Span>,
}

impl Line {
    /// A row made of `spans`.
    pub fn from_spans(spans: Vec<Span>) -> (r: Line)
        ensures
            r.spans == spans,
    {
        Line { spans }
    }
}

} // verus!
