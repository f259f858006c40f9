//! What the title and status lines say.

use vstd::prelude::*;

use crate::app::{App, Message, spec_max_scroll};
use crate::render::inline::SpanV;
use crate::style::{Color, Modifier, Span, Style, spans_view, spec_add_modifier, spec_style_default};
use crate::text::{chars_of, dec, decimal, str_width, string_of, unicode_str_width};
use crate::theme;
use crate::wrap::{sat, spans_width};

verus! {

/// How many key hints there are.
pub const HINT_COUNT: usize = 5;

/// The key of hint `i`.
pub open spec fn hint_key(i: int) -> Seq<char> {
    if i == 0 { "q"@ } else if i == 1 { "j/k"@ } else if i == 2 { "d/u"@ } else if i == 3 { "g/G"@ } else { "r"@ }
}

/// What hint `i`'s key does.
pub open spec fn hint_action(i: int) -> Seq<char> {
    if i == 0 { "quit"@ } else if i == 1 { "scroll"@ } else if i == 2 { "half page"@ } else if i == 3 { "top/bottom"@ } else { "reload"@ }
}

/// Key hint `i`, as text.
fn hint(i: usize) -> (r: (&'static str, &'static str))
    requires
        i < HINT_COUNT,
    ensures
        r.0@ == hint_key(i as int),
        r.1@ == hint_action(i as int),
{
    if i == 0 {
        ("q", "quit")
    } else if i == 1 {
        ("j/k", "scroll")
    } else if i == 2 {
        ("d/u", "half page")
    } else if i == 3 {
        ("g/G", "top/bottom")
    } else {
        ("r", "reload")
    }
}

/// The first `k` hints as they fit in `room` columns: as many whole hints as
/// fit, rather than one cut off mid-word; the gap after the last may be
/// clipped, the hint may not. The flag says whether one did not fit.
pub open spec fn spec_hints(room: int, k: nat) -> (Seq<SpanV>, bool)
    decreases k,
{
    if k == 0 {
        (seq![(seq![' '], spec_style_default())], false)
    } else {
        let (line, stopped) = spec_hints(room, (k - 1) as nat);
        let key = hint_key(k - 1);
        let action = seq![' '] + hint_action(k - 1) + seq![' ', ' '];
        let needed = str_width(key) + str_width(seq![' '] + hint_action(k - 1));
        if stopped || sat(spans_width(line)) + needed > room {
            (line, true)
        } else {
            (line + seq![(key, theme::bold_fg(Color::Cyan)), (action, theme::fg_style(Color::Gray))], false)
        }
    }
}

/// The key hints that fit in `room` columns, after a leading space.
pub fn hints(room: usize) -> (r: Vec<Span>)
    ensures
        spans_view(r@) == spec_hints(room as int, HINT_COUNT as nat).0,
{
    let mut line: Vec<Span> = Vec::new();
    line.push(Span::raw(crate::text::repeat_char(' ', 1)));
    assert(crate::text::spec_repeat(' ', 1) =~= seq![' ']);
    assert(spans_view(line@) =~= spec_hints(room as int, 0).0);
    let mut i: usize = 0;
    let mut stopped = false;
    while i < HINT_COUNT
        invariant
            i <= HINT_COUNT,
            (spans_view(line@), stopped) == spec_hints(room as int, i as nat),
        decreases HINT_COUNT - i,
    {
        if !stopped {
            let (k, a) = hint(i);
            let mut acs: Vec<char> = Vec::new();
            acs.push(' ');
            let ac = chars_of(a);
            let mut j: usize = 0;
            while j < ac.len()
                invariant
                    j <= ac@.len(),
                    acs@ == seq![' '] + ac@.take(j as int),
                decreases ac@.len() - j,
            {
                acs.push(ac[j]);
                j = j + 1;
                assert(acs@ =~= seq![' '] + ac@.take(j as int));
            }
            assert(ac@.take(ac@.len() as int) =~= ac@);
            let trimmed = string_of(acs.as_slice());
            acs.push(' ');
            acs.push(' ');
            let action = string_of(acs.as_slice());
            assert(action@ =~= seq![' '] + hint_action(i as int) + seq![' ', ' ']);
            let kw = unicode_str_width(k);
            let tw = unicode_str_width(trimmed.as_str());
            let lw = crate::wrap::width(line.as_slice());
            let needed = kw as u128 + tw as u128;
            if lw as u128 + needed > room as u128 {
                stopped = true;
            } else {
                let ghost l0 = spans_view(line@);
                line.push(Span::styled(k.to_string(), theme::status_key()));
                line.push(Span::styled(action, theme::status()));
                assert(spans_view(line@) =~= l0 + seq![
                    (hint_key(i as int), theme::bold_fg(Color::Cyan)),
                    (seq![' '] + hint_action(i as int) + seq![' ', ' '], theme::fg_style(Color::Gray)),
                ]);
            }
        }
        i = i + 1;
    }
    line
}

/// How many rows the view shows, at least one even when it is too short to
/// show anything.
pub open spec fn shown_last(scroll: int, height: int, total: int) -> int {
    let h = if height > 1 { height } else { 1 };
    if scroll + h < total { scroll + h } else { total }
}

/// Where the view is, `less`-style: `All`, `Top`, `Bot` or a percentage.
pub open spec fn where_in(scroll: nat, max: nat) -> Seq<char> {
    if max == 0 {
        "All"@
    } else if scroll == 0 {
        "Top"@
    } else if scroll >= max {
        "Bot"@
    } else {
        dec(scroll * 100 / max) + "%"@
    }
}

/// Where the view is in the document: the rows shown, out of how many, then
/// where that is; or `empty`.
pub open spec fn spec_position(total: nat, scroll: nat, height: nat) -> Seq<char> {
    if total == 0 {
        "empty"@
    } else {
        dec(scroll + 1) + "-"@ + dec(shown_last(scroll as int, height as int, total as int) as nat) + "/"@ + dec(total)
            + "  "@ + where_in(scroll, spec_max_scroll(total as int, height as int) as nat)
    }
}

fn push_all(out: &mut Vec<char>, cs: &Vec<char>)
    ensures
        final(out)@ == old(out)@ + cs@,
{
    let ghost o0 = out@;
    let mut i: usize = 0;
    while i < cs.len()
        invariant
            i <= cs@.len(),
            out@ == o0 + cs@.take(i as int),
        decreases cs@.len() - i,
    {
        out.push(cs[i]);
        i = i + 1;
        assert(out@ =~= o0 + cs@.take(i as int));
    }
    assert(cs@.take(cs@.len() as int) =~= cs@);
}

/// Where the view is in the document. The arithmetic must fit: the last row
/// shown, and the percentage's intermediate product.
pub fn position(app: &App) -> (r: String)
    requires
        app.scroll + (if app.viewport_height > 1 { app.viewport_height as int } else { 1 }) <= usize::MAX,
        0 < app.scroll < app.spec_max() ==> app.scroll * 100 <= usize::MAX,
    ensures
        r@ == spec_position(app.lines@.len(), app.scroll as nat, app.viewport_height as nat),
{
    let total = app.lines.len();
    if total == 0 {
        return "empty".to_string();
    }
    let first = app.scroll + 1;
    let h = if app.viewport_height > 1 { app.viewport_height } else { 1 };
    let last = if app.scroll + h < total { app.scroll + h } else { total };
    let max = app.max_scroll();
    let mut out: Vec<char> = Vec::new();
    push_all(&mut out, &decimal(first));
    out.push('-');
    push_all(&mut out, &decimal(last));
    out.push('/');
    push_all(&mut out, &decimal(total));
    out.push(' ');
    out.push(' ');
    let where_ = if max == 0 {
        chars_of("All")
    } else if app.scroll == 0 {
        chars_of("Top")
    } else if app.scroll >= max {
        chars_of("Bot")
    } else {
        let mut p = decimal(app.scroll * 100 / max);
        p.push('%');
        p
    };
    proof {
        reveal_strlit("-");
        reveal_strlit("/");
        reveal_strlit("  ");
        reveal_strlit("%");
    }
    assert(where_@ =~= where_in(app.scroll as nat, max as nat));
    push_all(&mut out, &where_);
    assert(out@ =~= spec_position(app.lines@.len(), app.scroll as nat, app.viewport_height as nat));
    string_of(out.as_slice())
}

/// The status message as a line: green, or red for an error.
pub open spec fn spec_message_line(m: Message) -> Seq<SpanV> {
    seq![(seq![' '] + m.text@, if m.is_error { theme::fg_style(Color::LightRed) } else { theme::fg_style(Color::Green) })]
}

/// The right of the status line: where the view is, with room around it.
pub open spec fn spec_right_text(app: App) -> Seq<char> {
    "  "@ + spec_position(app.lines@.len(), app.scroll as nat, app.viewport_height as nat) + " "@
}

/// The status line: on the left the message, or else the key hints that
/// fit; on the right where the view is. `width` is the status line's width.
pub fn status_line(app: &App, width: usize) -> (r: (Vec<Span>, Vec<Span>))
    requires
        app.scroll + (if app.viewport_height > 1 { app.viewport_height as int } else { 1 }) <= usize::MAX,
        0 < app.scroll < app.spec_max() ==> app.scroll * 100 <= usize::MAX,
    ensures
        spans_view(r.1@) == seq![(spec_right_text(*app), theme::fg_style(Color::Gray))],
        spans_view(r.0@) == match app.message {
            Some(m) => spec_message_line(m),
            None => spec_hints(
                if width >= str_width(spec_right_text(*app)) { width - str_width(spec_right_text(*app)) } else { 0 },
                HINT_COUNT as nat,
            ).0,
        },
{
    let pos = position(app);
    let mut rc: Vec<char> = Vec::new();
    rc.push(' ');
    rc.push(' ');
    push_all(&mut rc, &chars_of(pos.as_str()));
    rc.push(' ');
    let right_text = string_of(rc.as_slice());
    proof {
        reveal_strlit("  ");
        reveal_strlit(" ");
    }
    assert(right_text@ =~= spec_right_text(*app));
    let rw = unicode_str_width(right_text.as_str());
    let mut right: Vec<Span> = Vec::new();
    right.push(Span::styled(right_text, theme::status()));
    let room = width.saturating_sub(rw);
    let left = match &app.message {
        Some(m) => {
            let style = if m.is_error { theme::status_err() } else { theme::status_ok() };
            let mut mc: Vec<char> = Vec::new();
            mc.push(' ');
            push_all(&mut mc, &chars_of(m.text.as_str()));
            assert(mc@ =~= seq![' '] + m.text@);
            let mut l: Vec<Span> = Vec::new();
            l.push(Span::styled(string_of(mc.as_slice()), style));
            assert(spans_view(l@) =~= spec_message_line(*m));
            l
        },
        None => hints(room),
    };
    (left, right)
}

/// The title bar's text: the program's name, a divider and the file's name.
pub fn title_spans(file_name: &str) -> (r: Vec<Span>)
    ensures
        spans_view(r@) == seq![
            (" lazymd "@, theme::bold_fg(Color::LightMagenta)),
            ("│ "@, theme::fg_style(Color::DarkGray)),
            (file_name@ + seq![' '], spec_add_modifier(spec_style_default(), Modifier { bits: 1 })),
        ],
{
    let mut name = chars_of(file_name);
    name.push(' ');
    assert(name@ =~= file_name@ + seq![' ']);
    let mut out: Vec<Span> = Vec::new();
    out.push(Span::styled(" lazymd ".to_string(), theme::title()));
    out.push(Span::styled("│ ".to_string(), theme::border()));
    out.push(Span::styled(string_of(name.as_slice()), Style::new().add_modifier(Modifier::bold())));
    assert(spans_view(out@) =~= seq![
        (" lazymd "@, theme::bold_fg(Color::LightMagenta)),
        ("│ "@, theme::fg_style(Color::DarkGray)),
        (file_name@ + seq![' '], spec_add_modifier(spec_style_default(), Modifier { bits: 1 })),
    ]);
    out
}

} // verus!
