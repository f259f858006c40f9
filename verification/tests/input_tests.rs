use lazymd::app::App;
use lazymd::input::{Action, Key, MouseKind, handle_key_event, handle_mouse_event, key_action};

fn long_app() -> App {
    let source = (0..50).map(|i| format!("line {i}\n\n")).collect::<String>();
    let mut app = App::new("notes.md".into(), source, false);
    app.set_viewport(40, 10);
    app
}

#[test]
fn keys_map_to_the_documented_actions() {
    assert_eq!(key_action(Key::Char('q'), false), Action::Quit);
    assert_eq!(key_action(Key::Esc, false), Action::Quit);
    assert_eq!(key_action(Key::Char('c'), true), Action::Quit);
    assert_eq!(key_action(Key::Char('c'), false), Action::Nothing);
    assert_eq!(key_action(Key::Char('j'), false), Action::ScrollDown(1));
    assert_eq!(key_action(Key::Down, false), Action::ScrollDown(1));
    assert_eq!(key_action(Key::Char('k'), false), Action::ScrollUp(1));
    assert_eq!(key_action(Key::Up, false), Action::ScrollUp(1));
    assert_eq!(key_action(Key::Char('d'), false), Action::HalfPageDown);
    assert_eq!(key_action(Key::Char('d'), true), Action::HalfPageDown);
    assert_eq!(key_action(Key::Char('u'), true), Action::HalfPageUp);
    assert_eq!(key_action(Key::Char(' '), false), Action::PageDown);
    assert_eq!(key_action(Key::Char('f'), false), Action::PageDown);
    assert_eq!(key_action(Key::PageDown, false), Action::PageDown);
    assert_eq!(key_action(Key::Char('b'), false), Action::PageUp);
    assert_eq!(key_action(Key::PageUp, false), Action::PageUp);
    assert_eq!(key_action(Key::Char('g'), false), Action::Top);
    assert_eq!(key_action(Key::Home, false), Action::Top);
    assert_eq!(key_action(Key::Char('G'), false), Action::Bottom);
    assert_eq!(key_action(Key::End, false), Action::Bottom);
    assert_eq!(key_action(Key::Char('r'), false), Action::Reload);
    assert_eq!(key_action(Key::Char('x'), false), Action::Nothing);
    assert_eq!(key_action(Key::Other, false), Action::Nothing);
}

#[test]
fn keys_move_the_view_and_quit() {
    let mut app = long_app();
    assert!(!handle_key_event(Key::Char('j'), false, &mut app));
    assert_eq!(app.scroll, 1);
    handle_key_event(Key::End, false, &mut app);
    assert_eq!(app.scroll, app.max_scroll());
    handle_key_event(Key::Char('g'), false, &mut app);
    assert_eq!(app.scroll, 0);
    assert!(handle_key_event(Key::Char('r'), false, &mut app));
    assert!(!app.should_quit);
    handle_key_event(Key::Char('c'), true, &mut app);
    assert!(app.should_quit);
}

#[test]
fn the_wheel_scrolls_three_rows() {
    let mut app = long_app();
    handle_mouse_event(MouseKind::ScrollDown, &mut app);
    assert_eq!(app.scroll, 3);
    handle_mouse_event(MouseKind::ScrollUp, &mut app);
    handle_mouse_event(MouseKind::ScrollUp, &mut app);
    assert_eq!(app.scroll, 0);
    handle_mouse_event(MouseKind::Other, &mut app);
    assert_eq!(app.scroll, 0);
}
