use lazymd::app::App;
use lazymd::status::{hints, position, status_line, title_spans};

fn text(spans: &[lazymd::style::Span]) -> String {
    spans.iter().map(|s| s.content.as_str()).collect()
}

fn sized_app(paragraphs: usize, height: usize) -> App {
    let source = (0..paragraphs).map(|i| format!("line {i}\n\n")).collect::<String>();
    let mut app = App::new("dir/notes.md".into(), source, false);
    app.set_viewport(40, height);
    app
}

#[test]
fn position_reads_like_less() {
    let mut app = sized_app(100, 10);
    assert_eq!(position(&app), "1-10/199  Top");
    app.scroll_down(20);
    assert_eq!(position(&app), "21-30/199  10%");
    app.bottom();
    assert_eq!(position(&app), "190-199/199  Bot");
    let short = sized_app(2, 10);
    assert_eq!(position(&short), "1-3/3  All");
    let empty = sized_app(0, 10);
    assert_eq!(position(&empty), "empty");
}

#[test]
fn hints_show_only_whole_hints_that_fit() {
    assert_eq!(text(&hints(200)), " q quit  j/k scroll  d/u half page  g/G top/bottom  r reload  ");
    assert_eq!(text(&hints(19)), " q quit  j/k scroll  ");
    assert_eq!(text(&hints(18)), " q quit  ");
    assert_eq!(text(&hints(3)), " ");
}

#[test]
fn status_line_shows_the_message_over_the_hints() {
    let mut app = sized_app(100, 10);
    let (left, right) = status_line(&app, 80);
    assert_eq!(text(&right), "  1-10/199  Top ");
    assert!(text(&left).starts_with(" q quit"));
    app.notify("couldn't reload".to_string(), true, 0);
    let (left, _) = status_line(&app, 80);
    assert_eq!(text(&left), " couldn't reload");
}

#[test]
fn title_names_the_file() {
    assert_eq!(text(&title_spans("notes.md")), " lazymd │ notes.md ");
}
