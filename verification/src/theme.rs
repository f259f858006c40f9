//! The color scheme, in one place.
//!
//! Prose uses the terminal's named ANSI colors, so it follows whatever palette
//! the user's theme defines. Code is the exception: syntax highlighting
//! produces exact RGB, so code blocks (and inline code, to match) sit on the
//! highlighter theme's own background.

use vstd::prelude::*;

use crate::style::{Color, Modifier, Style, spec_add_modifier, spec_remove_modifier, spec_style_default};

verus! {

/// Heading text colors, indexed by level - 1.
pub const HEADINGS: [Color; 6] = [
    Color::LightMagenta,
    Color::LightBlue,
    Color::LightCyan,
    Color::LightGreen,
    Color::LightYellow,
    Color::Gray,
];

/// syntect theme used for fenced code blocks.
pub const SYNTAX_THEME: &'static str = "base16-ocean.dark";

/// A style with just a foreground color.
pub open spec fn fg_style(c: Color) -> Style {
    Style { fg: Some(c), ..spec_style_default() }
}

/// Bold, in a foreground color.
pub open spec fn bold_fg(c: Color) -> Style {
    spec_add_modifier(fg_style(c), Modifier { bits: 1 })
}

/// The color of a heading of `level`, with levels outside 1..=6 clamped.
pub open spec fn heading_color(level: u8) -> Color {
    let i = if level < 1 { 0 } else if level > 6 { 5 } else { level - 1 };
    if i == 0 {
        Color::LightMagenta
    } else if i == 1 {
        Color::LightBlue
    } else if i == 2 {
        Color::LightCyan
    } else if i == 3 {
        Color::LightGreen
    } else if i == 4 {
        Color::LightYellow
    } else {
        Color::Gray
    }
}

/// Background shared by code blocks and inline code (base16-ocean.dark).
pub fn code_bg_color() -> (c: Color)
    ensures
        c == Color::Rgb(0x2b, 0x30, 0x3b),
{
    Color::Rgb(0x2b, 0x30, 0x3b)
}

/// Foreground for inline code and for code blocks with no known language.
pub fn code_fg_color() -> (c: Color)
    ensures
        c == Color::Rgb(0xeb, 0xcb, 0x8b),
{
    Color::Rgb(0xeb, 0xcb, 0x8b)
}

/// Heading text: the level's color, bold.
pub fn heading(level: u8) -> (s: Style)
    ensures
        s == bold_fg(heading_color(level)),
{
    let i: usize = if level < 1 { 0 } else if level > 6 { 5 } else { (level - 1) as usize };
    Style::new().fg(HEADINGS[i]).add_modifier(Modifier::bold())
}

/// The rule drawn under level 1 and 2 headings: the heading's color, dimmed.
pub fn heading_rule(level: u8) -> (s: Style)
    ensures
        s == spec_add_modifier(spec_remove_modifier(bold_fg(heading_color(level)), Modifier { bits: 1 }), Modifier { bits: 2 }),
{
    heading(level).remove_modifier(Modifier::bold()).add_modifier(Modifier::dim())
}

/// The bullet glyph of a list at nesting `depth`, cycling through three.
pub open spec fn bullet_glyph(depth: usize) -> &'static str {
    if depth % 3 == 0 { "•" } else if depth % 3 == 1 { "◦" } else { "▪" }
}

/// The bullet color of a list at nesting `depth`, cycling through three.
pub open spec fn bullet_color(depth: usize) -> Color {
    if depth % 3 == 0 { Color::Cyan } else if depth % 3 == 1 { Color::LightBlue } else { Color::Magenta }
}

/// Bullet glyph and style, cycled by list nesting depth.
pub fn bullet(depth: usize) -> (r: (&'static str, Style))
    ensures
        r.0 == bullet_glyph(depth),
        r.1 == fg_style(bullet_color(depth)),
{
    let k = depth % 3;
    if k == 0 {
        ("•", Style::new().fg(Color::Cyan))
    } else if k == 1 {
        ("◦", Style::new().fg(Color::LightBlue))
    } else {
        ("▪", Style::new().fg(Color::Magenta))
    }
}

pub fn ordered_marker() -> (s: Style)
    ensures
        s == fg_style(Color::Cyan),
{
    Style::new().fg(Color::Cyan)
}

pub fn task_done() -> (s: Style)
    ensures
        s == fg_style(Color::Green),
{
    Style::new().fg(Color::Green)
}

pub fn task_todo() -> (s: Style)
    ensures
        s == fg_style(Color::Yellow),
{
    Style::new().fg(Color::Yellow)
}

/// Applied to the text of a checked task item.
pub fn task_done_text() -> (s: Style)
    ensures
        s == fg_style(Color::DarkGray),
{
    Style::new().fg(Color::DarkGray)
}

/// Code colors: the code foreground on the code background.
pub open spec fn code_style() -> Style {
    Style { fg: Some(Color::Rgb(0xeb, 0xcb, 0x8b)), bg: Some(Color::Rgb(0x2b, 0x30, 0x3b)), ..spec_style_default() }
}

pub fn inline_code() -> (s: Style)
    ensures
        s == code_style(),
{
    Style::new().fg(code_fg_color()).bg(code_bg_color())
}

pub fn code_block() -> (s: Style)
    ensures
        s == code_style(),
{
    Style::new().fg(code_fg_color()).bg(code_bg_color())
}

/// Just the background, for layering over syntax-highlighted spans: they
/// bring their own foreground.
pub fn code_bg() -> (s: Style)
    ensures
        s == (Style { bg: Some(Color::Rgb(0x2b, 0x30, 0x3b)), ..spec_style_default() }),
{
    Style::new().bg(code_bg_color())
}

pub fn code_label() -> (s: Style)
    ensures
        s == spec_add_modifier(
            Style { fg: Some(Color::Rgb(0x65, 0x73, 0x7e)), bg: Some(Color::Rgb(0x2b, 0x30, 0x3b)), ..spec_style_default() },
            Modifier { bits: 4 },
        ),
{
    Style::new().fg(Color::Rgb(0x65, 0x73, 0x7e)).bg(code_bg_color()).add_modifier(Modifier::italic())
}

pub fn link() -> (s: Style)
    ensures
        s == spec_add_modifier(fg_style(Color::LightBlue), Modifier { bits: 8 }),
{
    Style::new().fg(Color::LightBlue).add_modifier(Modifier::underlined())
}

pub fn image() -> (s: Style)
    ensures
        s == spec_add_modifier(fg_style(Color::Magenta), Modifier { bits: 4 }),
{
    Style::new().fg(Color::Magenta).add_modifier(Modifier::italic())
}

pub fn quote_bar() -> (s: Style)
    ensures
        s == fg_style(Color::DarkGray),
{
    Style::new().fg(Color::DarkGray)
}

pub fn quote_text() -> (s: Style)
    ensures
        s == fg_style(Color::Gray),
{
    Style::new().fg(Color::Gray)
}

pub fn rule() -> (s: Style)
    ensures
        s == fg_style(Color::DarkGray),
{
    Style::new().fg(Color::DarkGray)
}

pub fn table_border() -> (s: Style)
    ensures
        s == fg_style(Color::DarkGray),
{
    Style::new().fg(Color::DarkGray)
}

pub fn table_header() -> (s: Style)
    ensures
        s == spec_add_modifier(spec_style_default(), Modifier { bits: 1 }),
{
    Style::new().add_modifier(Modifier::bold())
}

pub fn html() -> (s: Style)
    ensures
        s == spec_add_modifier(fg_style(Color::DarkGray), Modifier { bits: 4 }),
{
    Style::new().fg(Color::DarkGray).add_modifier(Modifier::italic())
}

pub fn footnote() -> (s: Style)
    ensures
        s == fg_style(Color::Cyan),
{
    Style::new().fg(Color::Cyan)
}

/// The kinds of GitHub alert.
#[derive(Clone, Copy, Debug, PartialEq, Eq, Structural)]
pub enum AlertKind {
    Note,
    Tip,
    Important,
    Warning,
    Caution,
}

/// The color of an alert of `kind`.
pub open spec fn alert_color(kind: AlertKind) -> Color {
    match kind {
        AlertKind::Note => Color::LightBlue,
        AlertKind::Tip => Color::LightGreen,
        AlertKind::Important => Color::LightMagenta,
        AlertKind::Warning => Color::LightYellow,
        AlertKind::Caution => Color::LightRed,
    }
}

pub fn alert(kind: AlertKind) -> (s: Style)
    ensures
        s == fg_style(alert_color(kind)),
{
    let color = match kind {
        AlertKind::Note => Color::LightBlue,
        AlertKind::Tip => Color::LightGreen,
        AlertKind::Important => Color::LightMagenta,
        AlertKind::Warning => Color::LightYellow,
        AlertKind::Caution => Color::LightRed,
    };
    Style::new().fg(color)
}

// --- TUI chrome ---

pub fn border() -> (s: Style)
    ensures
        s == fg_style(Color::DarkGray),
{
    Style::new().fg(Color::DarkGray)
}

pub fn title() -> (s: Style)
    ensures
        s == bold_fg(Color::LightMagenta),
{
    Style::new().fg(Color::LightMagenta).add_modifier(Modifier::bold())
}

pub fn status() -> (s: Style)
    ensures
        s == fg_style(Color::Gray),
{
    Style::new().fg(Color::Gray)
}

pub fn status_key() -> (s: Style)
    ensures
        s == bold_fg(Color::Cyan),
{
    Style::new().fg(Color::Cyan).add_modifier(Modifier::bold())
}

pub fn status_ok() -> (s: Style)
    ensures
        s == fg_style(Color::Green),
{
    Style::new().fg(Color::Green)
}

pub fn status_err() -> (s: Style)
    ensures
        s == fg_style(Color::LightRed),
{
    Style::new().fg(Color::LightRed)
}

} // verus!
