//! What each key and mouse event does to the view.
//!
//! The program reads the terminal's events and hands them over as `Key` and
//! `MouseKind`; the decision and its effect on the `App` are here. Reloading
//! reads the file, so it is only asked for: the program does the reading.

use vstd::prelude::*;

use crate::app::{App, half_page_step, page_step, same_document, spec_scroll_down, spec_scroll_up};

verus! {

/// Rows moved per mouse-wheel notch.
pub const WHEEL_STEP: usize = 3;

/// A key, as far as the view cares.
#[derive(Clone, Copy, Debug, PartialEq, Eq, Structural)]
pub enum Key {
    Char(char),
    Esc,
    Up,
    Down,
    PageUp,
    PageDown,
    Home,
    End,
    Other,
}

/// A mouse event, as far as the view cares.
#[derive(Clone, Copy, Debug, PartialEq, Eq, Structural)]
pub enum MouseKind {
    ScrollDown,
    ScrollUp,
    Other,
}

/// What an event asks of the view.
#[derive(Clone, Copy, Debug, PartialEq, Eq, Structural)]
pub enum Action {
    Quit,
    ScrollDown(usize),
    ScrollUp(usize),
    HalfPageDown,
    HalfPageUp,
    PageDown,
    PageUp,
    Top,
    Bottom,
    Reload,
    Nothing,
}

/// What `key` asks for, with Ctrl held or not. Raw mode swallows SIGINT, so
/// Ctrl-C is a key like any other.
pub open spec fn spec_key_action(key: Key, ctrl: bool) -> Action {
    match key {
        Key::Char(c) => if ctrl && c == 'c' {
            Action::Quit
        } else if ctrl && c == 'd' {
            Action::HalfPageDown
        } else if ctrl && c == 'u' {
            Action::HalfPageUp
        } else if c == 'q' {
            Action::Quit
        } else if c == 'j' {
            Action::ScrollDown(1)
        } else if c == 'k' {
            Action::ScrollUp(1)
        } else if c == 'd' {
            Action::HalfPageDown
        } else if c == 'u' {
            Action::HalfPageUp
        } else if c == ' ' || c == 'f' {
            Action::PageDown
        } else if c == 'b' {
            Action::PageUp
        } else if c == 'g' {
            Action::Top
        } else if c == 'G' {
            Action::Bottom
        } else if c == 'r' {
            Action::Reload
        } else {
            Action::Nothing
        },
        Key::Esc => Action::Quit,
        Key::Down => Action::ScrollDown(1),
        Key::Up => Action::ScrollUp(1),
        Key::PageDown => Action::PageDown,
        Key::PageUp => Action::PageUp,
        Key::Home => Action::Top,
        Key::End => Action::Bottom,
        Key::Other => Action::Nothing,
    }
}

/// What a mouse event asks for: the wheel scrolls.
pub open spec fn spec_mouse_action(kind: MouseKind) -> Action {
    match kind {
        MouseKind::ScrollDown => Action::ScrollDown(WHEEL_STEP),
        MouseKind::ScrollUp => Action::ScrollUp(WHEEL_STEP),
        MouseKind::Other => Action::Nothing,
    }
}

/// Where an action leaves the view's scroll.
pub open spec fn spec_action_scroll(scroll: int, act: Action, max: int, height: int) -> int {
    match act {
        Action::ScrollDown(n) => spec_scroll_down(scroll, n as int, max),
        Action::ScrollUp(n) => spec_scroll_up(scroll, n as int),
        Action::HalfPageDown => spec_scroll_down(scroll, half_page_step(height), max),
        Action::HalfPageUp => spec_scroll_up(scroll, half_page_step(height)),
        Action::PageDown => spec_scroll_down(scroll, page_step(height), max),
        Action::PageUp => spec_scroll_up(scroll, page_step(height)),
        Action::Top => 0,
        Action::Bottom => max,
        _ => scroll,
    }
}

pub fn key_action(key: Key, ctrl: bool) -> (a: Action)
    ensures
        a == spec_key_action(key, ctrl),
{
    match key {
        Key::Char(c) => if ctrl && c == 'c' {
            Action::Quit
        } else if ctrl && c == 'd' {
            Action::HalfPageDown
        } else if ctrl && c == 'u' {
            Action::HalfPageUp
        } else if c == 'q' {
            Action::Quit
        } else if c == 'j' {
            Action::ScrollDown(1)
        } else if c == 'k' {
            Action::ScrollUp(1)
        } else if c == 'd' {
            Action::HalfPageDown
        } else if c == 'u' {
            Action::HalfPageUp
        } else if c == ' ' || c == 'f' {
            Action::PageDown
        } else if c == 'b' {
            Action::PageUp
        } else if c == 'g' {
            Action::Top
        } else if c == 'G' {
            Action::Bottom
        } else if c == 'r' {
            Action::Reload
        } else {
            Action::Nothing
        },
        Key::Esc => Action::Quit,
        Key::Down => Action::ScrollDown(1),
        Key::Up => Action::ScrollUp(1),
        Key::PageDown => Action::PageDown,
        Key::PageUp => Action::PageUp,
        Key::Home => Action::Top,
        Key::End => Action::Bottom,
        Key::Other => Action::Nothing,
    }
}

/// Carries out `act` on the view. Returns whether the file should be read
/// again, which is the program's to do.
pub fn apply(app: &mut App, act: Action) -> (reload: bool)
    ensures
        reload == (act == Action::Reload),
        final(app).should_quit == (old(app).should_quit || act == Action::Quit),
        final(app).scroll == spec_action_scroll(old(app).scroll as int, act, old(app).spec_max(), old(app).viewport_height as int),
        final(app).message == old(app).message,
        same_document(*old(app), *final(app)),
        act == Action::Nothing || act == Action::Reload ==> *final(app) == *old(app),
{
    match act {
        Action::Quit => app.quit(),
        Action::ScrollDown(n) => app.scroll_down(n),
        Action::ScrollUp(n) => app.scroll_up(n),
        Action::HalfPageDown => app.half_page_down(),
        Action::HalfPageUp => app.half_page_up(),
        Action::PageDown => app.page_down(),
        Action::PageUp => app.page_up(),
        Action::Top => app.top(),
        Action::Bottom => app.bottom(),
        Action::Reload => return true,
        Action::Nothing => {},
    }
    false
}

/// Handles a key press; `true` asks the program to reload the file.
pub fn handle_key_event(key: Key, ctrl: bool, app: &mut App) -> (reload: bool)
    ensures
        reload == (spec_key_action(key, ctrl) == Action::Reload),
        final(app).should_quit == (old(app).should_quit || spec_key_action(key, ctrl) == Action::Quit),
        final(app).scroll == spec_action_scroll(
            old(app).scroll as int,
            spec_key_action(key, ctrl),
            old(app).spec_max(),
            old(app).viewport_height as int,
        ),
        final(app).message == old(app).message,
        same_document(*old(app), *final(app)),
        spec_key_action(key, ctrl) == Action::Nothing ==> *final(app) == *old(app),
{
    apply(app, key_action(key, ctrl))
}

/// Handles a mouse event: the wheel scrolls.
pub fn handle_mouse_event(kind: MouseKind, app: &mut App)
    ensures
        final(app).should_quit == old(app).should_quit,
        final(app).scroll == spec_action_scroll(
            old(app).scroll as int,
            spec_mouse_action(kind),
            old(app).spec_max(),
            old(app).viewport_height as int,
        ),
        final(app).message == old(app).message,
        same_document(*old(app), *final(app)),
        spec_mouse_action(kind) == Action::Nothing ==> *final(app) == *old(app),
{
    let act = match kind {
        MouseKind::ScrollDown => Action::ScrollDown(WHEEL_STEP),
        MouseKind::ScrollUp => Action::ScrollUp(WHEEL_STEP),
        MouseKind::Other => Action::Nothing,
    };
    let _ = apply(app, act);
}

/// Each key that moves the view down has a key that moves it back up by as
/// much, with or without Ctrl: `j`/`k` and the arrows by a row, `d`/`u` and
/// Ctrl-d/Ctrl-u by half a page, `f`/`b` and the page keys by a page. Away
/// from the ends of the document, the second undoes the first; and a half
/// page moves half the view's height (or one row, for a view under four rows).
pub proof fn lemma_keys_undo_each_other(ctrl: bool, scroll: int, max: int, height: int)
    requires
        0 <= scroll,
        max <= usize::MAX,
        0 <= height,
    ensures
        spec_key_action(Key::Char('u'), ctrl) == spec_key_action(Key::Char('u'), !ctrl),
        spec_key_action(Key::Char('d'), ctrl) == spec_key_action(Key::Char('d'), !ctrl),
        forall|down: Key, up: Key|
            #![trigger spec_key_action(down, ctrl), spec_key_action(up, ctrl)]
            (down == Key::Char('j') && up == Key::Char('k') || down == Key::Down && up == Key::Up
                || down == Key::Char('d') && up == Key::Char('u') || down == Key::Char('f') && up == Key::Char('b')
                || down == Key::PageDown && up == Key::PageUp)
            && scroll + height + 1 <= max
            ==> spec_action_scroll(
                spec_action_scroll(scroll, spec_key_action(down, ctrl), max, height),
                spec_key_action(up, ctrl),
                max,
                height,
            ) == scroll,
        spec_action_scroll(scroll, spec_key_action(Key::Char('u'), ctrl), max, height)
            == if scroll > (if height >= 4 { height / 2 } else { 1 }) { scroll - (if height >= 4 { height / 2 } else { 1 }) } else { 0 },
        scroll + height + 1 <= max ==> spec_action_scroll(scroll, spec_key_action(Key::Char('d'), ctrl), max, height)
            == scroll + (if height >= 4 { height / 2 } else { 1 }),
{
    assert(height >= 4 ==> height / 2 >= 2);
    assert(height < 4 ==> height / 2 <= 1);
    assert(height / 2 <= height);
    assert forall|down: Key, up: Key|
        #![trigger spec_key_action(down, ctrl), spec_key_action(up, ctrl)]
        (down == Key::Char('j') && up == Key::Char('k') || down == Key::Down && up == Key::Up
            || down == Key::Char('d') && up == Key::Char('u') || down == Key::Char('f') && up == Key::Char('b')
            || down == Key::PageDown && up == Key::PageUp)
        && scroll + height + 1 <= max
        implies spec_action_scroll(
            spec_action_scroll(scroll, spec_key_action(down, ctrl), max, height),
            spec_key_action(up, ctrl),
            max,
            height,
        ) == scroll by {
        assert(page_step(height) <= height + 1);
        assert(half_page_step(height) <= height + 1);
    }
}

} // verus!
