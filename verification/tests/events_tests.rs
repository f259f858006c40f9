use lazymd::events::{Event, KeyKind, TermEvent, forward, poll_timeout, wake_step};
use lazymd::input::{Key, MouseKind};

#[test]
fn the_poll_waits_out_the_rest_of_the_tick() {
    assert_eq!(poll_timeout(250, 0), 250);
    assert_eq!(poll_timeout(250, 100), 150);
    assert_eq!(poll_timeout(250, 250), 0);
    // Overdue: wait a whole tick.
    assert_eq!(poll_timeout(250, 400), 250);
}

#[test]
fn only_key_presses_mouse_and_resizes_are_forwarded() {
    let press = TermEvent::Key { key: Key::Char('j'), ctrl: false, kind: KeyKind::Press };
    assert_eq!(forward(press), Some(Event::Key { key: Key::Char('j'), ctrl: false }));
    let release = TermEvent::Key { key: Key::Char('j'), ctrl: false, kind: KeyKind::Release };
    assert_eq!(forward(release), None);
    let repeat = TermEvent::Key { key: Key::Down, ctrl: false, kind: KeyKind::Repeat };
    assert_eq!(forward(repeat), None);
    assert_eq!(forward(TermEvent::Mouse(MouseKind::ScrollUp)), Some(Event::Mouse(MouseKind::ScrollUp)));
    assert_eq!(forward(TermEvent::Resize(80, 24)), Some(Event::Resize(80, 24)));
    assert_eq!(forward(TermEvent::Other), None);
}

#[test]
fn a_burst_of_changes_is_one_rerender_per_tick() {
    // Two wakes before the tick bring three signals; they are held.
    assert_eq!(wake_step(100, 250, 0, 2), (false, false, 2));
    assert_eq!(wake_step(200, 250, 2, 1), (false, false, 3));
    // The tick takes them all: one re-render, nothing held.
    assert_eq!(wake_step(260, 250, 3, 0), (true, true, 0));
    // The next tick has nothing to re-render.
    assert_eq!(wake_step(250, 250, 0, 0), (true, false, 0));
    assert_eq!(wake_step(300, 250, 0, 1), (true, true, 0));
}
