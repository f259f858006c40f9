use lazymd::app::App;
use lazymd::render::image::{ImageDescriptor, ImageKey};

/// An app with 100 one-line paragraphs, shown 10 lines at a time.
fn app() -> App {
    let source = (0..100).map(|i| format!("line {i}\n\n")).collect::<String>();
    let mut app = App::new("dir/notes.md".into(), source, false);
    app.set_viewport(40, 10);
    app
}

/// An app whose document is one line, an image `rows` terminal rows tall, and
/// 30 more lines. The image counts as loaded, as the program would record it.
fn app_with_image(rows: u16) -> App {
    let tail: String = (0..30).map(|i| format!("\n\nline {i}")).collect();
    let source = format!("top\n\n![pic](pic.png){tail}");
    let mut app = App::new("dir/doc.md".into(), source, true);
    let pic = ImageDescriptor { key: ImageKey::Path("dir/pic.png".into()), width: 40, alt: "pic".into() };
    app.image_loaded(pic, rows);
    app.set_viewport(40, 10);
    app
}

#[test]
fn renders_on_first_layout() {
    let app = app();
    // 100 paragraphs separated by blank lines
    assert_eq!(app.lines.len(), 199);
    assert_eq!(app.visible_lines().len(), 10);
}

#[test]
fn scrolling_stops_at_the_last_screenful() {
    let mut app = app();
    app.scroll_down(1000);
    assert_eq!(app.scroll, 189);
    assert_eq!(app.visible_lines().len(), 10);
    app.scroll_up(1000);
    assert_eq!(app.scroll, 0);
}

#[test]
fn paging_keeps_one_line_of_context() {
    let mut app = app();
    app.page_down();
    assert_eq!(app.scroll, 9);
    app.half_page_down();
    assert_eq!(app.scroll, 14);
    app.bottom();
    assert_eq!(app.scroll, app.max_scroll());
    app.top();
    assert_eq!(app.scroll, 0);
}

#[test]
fn reload_that_shrinks_the_document_clamps_scroll() {
    let mut app = app();
    app.bottom();
    app.reload("short".into(), 0);
    assert_eq!(app.scroll, 0);
    assert_eq!(app.lines.len(), 1);
}

#[test]
fn growing_the_viewport_clamps_scroll() {
    let mut app = app();
    app.bottom();
    app.set_viewport(40, 500);
    assert_eq!(app.scroll, 0);
}

#[test]
fn file_name_strips_directories() {
    assert_eq!(app().file_name(), "notes.md");
}

#[test]
fn plain_text_has_no_images() {
    assert!(app().images.is_empty());
}

/// An image takes blank placeholder rows, so scrolling counts it like text.
#[test]
fn image_reserves_its_rows() {
    let app = app_with_image(4);
    assert_eq!(app.images.len(), 1);
    // "top", a blank separator, then the image.
    assert_eq!(app.images[0].row, 2);
    assert_eq!(app.images[0].image.height, 4);
    assert!(app.lines[2..6].iter().all(|l| lazymd::wrap::width(&l.spans) == 0));
    // Then 30 lines, each after a blank separator.
    assert_eq!(app.lines.len(), 6 + 60);
}

#[test]
fn visible_images_track_the_scroll() {
    let mut app = app_with_image(4);
    let offsets = |app: &App| app.visible_images().iter().map(|(_, y)| *y).collect::<Vec<_>>();
    assert_eq!(offsets(&app), [2]);
    app.scroll_down(3);
    // Top row scrolled off: the image starts above the viewport.
    assert_eq!(offsets(&app), [-1]);
    app.scroll_down(3);
    assert!(offsets(&app).is_empty());
}

/// An image the program has not loaded yet shows as its alt text, and the
/// render asks for it; once it is known to be unloadable it is not asked for again.
#[test]
fn unloaded_images_are_asked_for_once() {
    let source = "![pic](pic.png)".to_string();
    let mut app = App::new("dir/doc.md".into(), source, true);
    app.set_viewport(40, 10);
    assert!(app.images.is_empty());
    let wanted = app.take_wanted();
    assert_eq!(wanted.len(), 1);
    assert_eq!(wanted[0].key, ImageKey::Path("dir/pic.png".into()));
    assert_eq!(wanted[0].width, 40);
    assert_eq!(wanted[0].alt, "pic");
    for d in wanted {
        app.image_failed(d);
    }
    app.rebuild();
    assert!(app.wanted.is_empty());
    assert_eq!(app.lines.len(), 1);
}

#[test]
fn remote_images_are_never_asked_for() {
    let mut app = App::new("doc.md".into(), "![x](https://example.com/x.png)".into(), true);
    app.set_viewport(40, 10);
    assert!(app.wanted.is_empty());
    assert!(app.images.is_empty());
}

#[test]
fn scrolling_down_and_back_up_returns() {
    let mut app = app();
    app.scroll_down(7);
    app.scroll_up(7);
    assert_eq!(app.scroll, 0);
    app.scroll_down(50);
    app.scroll_down(5);
    app.scroll_up(5);
    assert_eq!(app.scroll, 50);
}

#[test]
fn messages_expire_after_three_seconds() {
    let mut app = app();
    app.notify("hello".to_string(), false, 1_000);
    app.tick(3_999);
    assert!(app.message.is_some());
    app.tick(4_000);
    assert!(app.message.is_none());
}

#[test]
fn reload_says_so() {
    let mut app = app();
    app.reload("# New".into(), 5);
    let m = app.message.as_ref().unwrap();
    assert_eq!(m.text, "reloaded");
    assert!(!m.is_error);
    assert_eq!(m.shown_at, 5);
}

#[test]
fn resizing_reflows() {
    let mut app = App::new("a.md".into(), "aaa bbb ccc ddd".into(), false);
    app.set_viewport(40, 10);
    assert_eq!(app.lines.len(), 1);
    app.set_viewport(10, 10);
    assert_eq!(app.lines.len(), 2);
}

#[test]
fn a_located_image_is_picked_only_where_a_file_is() {
    let resolver = lazymd::render::image::ImageResolver::new("dir/notes.md");
    let d = resolver.locate("pic.png", 10, "alt").unwrap();
    assert!(lazymd::render::image::pick(d, true).is_some());
    let d = resolver.locate("pic.png", 10, "alt").unwrap();
    assert!(lazymd::render::image::pick(d, false).is_none());
    assert!(resolver.locate("https://x.org/a.png", 10, "alt").is_none());
}
