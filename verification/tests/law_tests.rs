use lazymd::doc::parse_markdown;
use lazymd::render::canvas::RenderElement;
use lazymd::render::render_document;
use lazymd::style::Line;

fn rows_of(elements: &[RenderElement]) -> Vec<String> {
    elements
        .iter()
        .flat_map(|e| match e {
            RenderElement::Lines(lines) => lines.clone(),
            RenderElement::Image(_) => Vec::new(),
        })
        .map(|l: Line| l.spans.iter().map(|s| s.content.as_str()).collect::<String>().trim_end().to_string())
        .collect()
}

#[test]
fn the_footnote_divider_is_drawn_once() {
    let (doc, fm) = parse_markdown("a[^1] b[^2]\n\n[^1]: one\n\n[^2]: two\n").unwrap();
    let (elements, misses) = render_document(&doc, &fm, 40, None);
    let rows = rows_of(&elements);
    let dividers = rows.iter().filter(|r| r.as_str() == "─".repeat(20)).count();
    assert_eq!(dividers, 1, "{rows:?}");
    assert!(rows.iter().any(|r| r == "[1] one"));
    assert!(rows.iter().any(|r| r == "[2] two"));
    assert!(misses.is_empty());
}

#[test]
fn without_an_image_set_only_text_comes_out() {
    let (doc, fm) = parse_markdown("![a](a.png)\n\n> ![b](b.png)\n").unwrap();
    let (elements, misses) = render_document(&doc, &fm, 40, None);
    assert!(elements.iter().all(|e| matches!(e, RenderElement::Lines(_))));
    assert!(misses.is_empty());
    assert_eq!(rows_of(&elements), ["[image: a]", "", "▎ [image: b]"]);
}

#[test]
fn containers_close_behind_their_blocks() {
    let (doc, fm) = parse_markdown("> - a\n>   > b\n\nafter\n").unwrap();
    let (elements, _) = render_document(&doc, &fm, 40, None);
    let rows = rows_of(&elements);
    assert_eq!(rows.last().unwrap(), "after");
}

#[test]
fn an_empty_nested_item_shows_both_markers() {
    let (doc, fm) = parse_markdown("- -\n").unwrap();
    let (elements, _) = render_document(&doc, &fm, 40, None);
    assert_eq!(rows_of(&elements), ["• ◦"]);
}

#[test]
fn a_continued_line_is_indented_as_wide_as_its_marker() {
    let (doc, fm) = parse_markdown("10. aaa bbb ccc\n").unwrap();
    let (elements, _) = render_document(&doc, &fm, 12, None);
    assert_eq!(rows_of(&elements), ["10. aaa bbb", "    ccc"]);
}
