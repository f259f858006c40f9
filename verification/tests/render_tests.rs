use lazymd::render::canvas::RenderElement;
use lazymd::render::image::{ImageResolver, ImageSet};
use lazymd::render::{fence_language, render_ast};
use lazymd::style::{Color, Line, Modifier, Span};
use lazymd::theme;

/// Every text row, in order; images are skipped.
fn text_lines(elements: Vec<RenderElement>) -> Vec<Line> {
    elements
        .into_iter()
        .flat_map(|e| match e {
            RenderElement::Lines(lines) => lines,
            RenderElement::Image(_) => Vec::new(),
        })
        .collect()
}

/// The text rows of `md` rendered at `width`, with no image set.
fn render_lines(md: &str, width: usize) -> Vec<Line> {
    text_lines(render_ast(md, width, None))
}

fn plain(lines: &[Line]) -> Vec<String> {
    lines
        .iter()
        .map(|l| l.spans.iter().map(|s| s.content.as_str()).collect::<String>().trim_end().to_string())
        .collect()
}

fn render(md: &str) -> Vec<String> {
    plain(&render_lines(md, 40))
}

/// The first span whose text contains `needle`.
fn span_with<'a>(lines: &'a [Line], needle: &str) -> &'a Span {
    lines
        .iter()
        .flat_map(|l| &l.spans)
        .find(|s| s.content.contains(needle))
        .unwrap_or_else(|| panic!("no span containing {needle:?}"))
}

/// A row's display width, in terminal columns.
fn line_width(line: &Line) -> usize {
    lazymd::wrap::width(&line.spans)
}

#[test]
fn render_heading_drops_hashes_and_is_bold() {
    let lines = render_lines("## Title", 40);
    assert_eq!(plain(&lines)[0], "Title");
    let span = span_with(&lines, "Title");
    assert!(span.style.add_modifier.contains(Modifier::bold()));
    assert_eq!(span.style.fg, Some(theme::HEADINGS[1]));
}

#[test]
fn mod_heading_drops_hashes_and_is_bold() {
    let lines = render_lines("## Title", 40);
    assert_eq!(plain(&lines)[0], "Title");
    let span = span_with(&lines, "Title");
    assert!(span.style.add_modifier.contains(Modifier::bold()));
    assert_eq!(span.style.fg, Some(theme::HEADINGS[1]));
}

#[test]
fn render_h1_and_h2_are_underlined_with_a_rule() {
    let out = render("# A\n\n### B");
    assert_eq!(out[1], "━".repeat(40));
    assert_eq!(out[3], "B");
}

#[test]
fn mod_h1_and_h2_are_underlined_with_a_rule() {
    let out = render("# A\n\n### B");
    assert_eq!(out[1], "━".repeat(40));
    assert_eq!(out[3], "B");
}

#[test]
fn render_emphasis_uses_modifiers_not_syntax() {
    let lines = render_lines("**bold** *it* ~~gone~~", 40);
    assert_eq!(plain(&lines), ["bold it gone"]);
    assert!(span_with(&lines, "bold").style.add_modifier.contains(Modifier::bold()));
    assert!(span_with(&lines, "it").style.add_modifier.contains(Modifier::italic()));
    assert!(span_with(&lines, "gone").style.add_modifier.contains(Modifier::crossed_out()));
}

#[test]
fn mod_emphasis_uses_modifiers_not_syntax() {
    let lines = render_lines("**bold** *it* ~~gone~~", 40);
    assert_eq!(plain(&lines), ["bold it gone"]);
    assert!(span_with(&lines, "bold").style.add_modifier.contains(Modifier::bold()));
    assert!(span_with(&lines, "it").style.add_modifier.contains(Modifier::italic()));
    assert!(span_with(&lines, "gone").style.add_modifier.contains(Modifier::crossed_out()));
}

#[test]
fn render_nested_emphasis_combines() {
    let lines = render_lines("***both***", 40);
    let m = span_with(&lines, "both").style.add_modifier;
    assert!(m.contains(Modifier::bold().union(Modifier::italic())));
}

#[test]
fn mod_nested_emphasis_combines() {
    let lines = render_lines("***both***", 40);
    let m = span_with(&lines, "both").style.add_modifier;
    assert!(m.contains(Modifier::bold().union(Modifier::italic())));
}

#[test]
fn render_inline_code_has_background() {
    let lines = render_lines("run `ls` now", 40);
    assert_eq!(plain(&lines), ["run ls now"]);
    assert_eq!(span_with(&lines, "ls").style.bg, Some(theme::code_bg_color()));
}

#[test]
fn mod_inline_code_has_background() {
    let lines = render_lines("run `ls` now", 40);
    assert_eq!(plain(&lines), ["run ls now"]);
    assert_eq!(span_with(&lines, "ls").style.bg, Some(theme::code_bg_color()));
}

#[test]
fn render_link_shows_text_underlined() {
    let lines = render_lines("[docs](https://example.com)", 40);
    assert_eq!(plain(&lines), ["docs"]);
    let style = span_with(&lines, "docs").style;
    assert!(style.add_modifier.contains(Modifier::underlined()));
    assert_eq!(style.fg, Some(Color::LightBlue));
}

#[test]
fn mod_link_shows_text_underlined() {
    let lines = render_lines("[docs](https://example.com)", 40);
    assert_eq!(plain(&lines), ["docs"]);
    let style = span_with(&lines, "docs").style;
    assert!(style.add_modifier.contains(Modifier::underlined()));
    assert_eq!(style.fg, Some(Color::LightBlue));
}

#[test]
fn render_paragraphs_are_separated_by_one_blank_line() {
    assert_eq!(render("one\n\ntwo"), ["one", "", "two"]);
}

#[test]
fn mod_paragraphs_are_separated_by_one_blank_line() {
    assert_eq!(render("one\n\ntwo"), ["one", "", "two"]);
}

#[test]
fn render_long_paragraph_wraps() {
    let out = plain(&render_lines("aaa bbb ccc ddd", 10));
    assert_eq!(out, ["aaa bbb", "ccc ddd"]);
}

#[test]
fn mod_long_paragraph_wraps() {
    let out = plain(&render_lines("aaa bbb ccc ddd", 10));
    assert_eq!(out, ["aaa bbb", "ccc ddd"]);
}

#[test]
fn render_hard_break_starts_a_new_line() {
    assert_eq!(render("one  \ntwo"), ["one", "two"]);
}

#[test]
fn mod_hard_break_starts_a_new_line() {
    assert_eq!(render("one  \ntwo"), ["one", "two"]);
}

#[test]
fn render_tight_list_has_bullets_and_no_gaps() {
    assert_eq!(render("- a\n- b\n\nafter"), ["• a", "• b", "", "after"]);
}

#[test]
fn mod_tight_list_has_bullets_and_no_gaps() {
    assert_eq!(render("- a\n- b\n\nafter"), ["• a", "• b", "", "after"]);
}

#[test]
fn render_loose_list_items_are_spaced() {
    assert_eq!(render("- a\n\n- b"), ["• a", "", "• b"]);
}

#[test]
fn mod_loose_list_items_are_spaced() {
    assert_eq!(render("- a\n\n- b"), ["• a", "", "• b"]);
}

#[test]
fn render_nested_list_indents_under_parent_text_with_a_new_glyph() {
    assert_eq!(render("- a\n  - b\n    - c"), ["• a", "  ◦ b", "    ▪ c"]);
}

#[test]
fn mod_nested_list_indents_under_parent_text_with_a_new_glyph() {
    assert_eq!(render("- a\n  - b\n    - c"), ["• a", "  ◦ b", "    ▪ c"]);
}

#[test]
fn render_ordered_list_right_aligns_numbers() {
    let md: String = (1..=10).map(|i| format!("{i}. x\n")).collect();
    let out = render(&md);
    assert_eq!(out[0], " 1. x");
    assert_eq!(out[9], "10. x");
}

#[test]
fn mod_ordered_list_right_aligns_numbers() {
    let md: String = (1..=10).map(|i| format!("{i}. x\n")).collect();
    let out = render(&md);
    assert_eq!(out[0], " 1. x");
    assert_eq!(out[9], "10. x");
}

#[test]
fn ordered_list_keeps_its_start_and_delimiter() {
    let out = render("7) a\n8) b\n9) c\n10) d");
    assert_eq!(out, [" 7) a", " 8) b", " 9) c", "10) d"]);
}

#[test]
fn bullet_glyphs_cycle_with_depth() {
    let out = render("- a\n  - b\n    - c\n      - d");
    assert_eq!(out, ["• a", "  ◦ b", "    ▪ c", "      • d"]);
}

#[test]
fn empty_list_item_still_shows_its_marker() {
    assert_eq!(render("- a\n-\n- c"), ["• a", "•", "• c"]);
}

#[test]
fn render_wrapped_list_item_keeps_its_indent() {
    let out = plain(&render_lines("- aaa bbb ccc", 11));
    assert_eq!(out, ["• aaa bbb", "  ccc"]);
}

#[test]
fn mod_wrapped_list_item_keeps_its_indent() {
    let out = plain(&render_lines("- aaa bbb ccc", 11));
    assert_eq!(out, ["• aaa bbb", "  ccc"]);
}

#[test]
fn render_task_items_use_checkboxes_and_dim_when_done() {
    let lines = render_lines("- [x] done\n- [ ] todo", 40);
    assert_eq!(plain(&lines), ["✔ done", "☐ todo"]);
    assert_eq!(span_with(&lines, "done").style.fg, Some(Color::DarkGray));
    assert_eq!(span_with(&lines, "todo").style.fg, None);
}

#[test]
fn mod_task_items_use_checkboxes_and_dim_when_done() {
    let lines = render_lines("- [x] done\n- [ ] todo", 40);
    assert_eq!(plain(&lines), ["✔ done", "☐ todo"]);
    assert_eq!(span_with(&lines, "done").style.fg, Some(Color::DarkGray));
    assert_eq!(span_with(&lines, "todo").style.fg, None);
}

#[test]
fn ordered_task_items_keep_their_number() {
    assert_eq!(render("1. [x] done\n2. [ ] todo"), ["1. ✔ done", "2. ☐ todo"]);
}

#[test]
fn render_task_dimming_does_not_leak_to_the_next_item() {
    let lines = render_lines("- [x] done\n- plain", 40);
    assert_eq!(span_with(&lines, "plain").style.fg, None);
}

#[test]
fn mod_task_dimming_does_not_leak_to_the_next_item() {
    let lines = render_lines("- [x] done\n- plain", 40);
    assert_eq!(span_with(&lines, "plain").style.fg, None);
}

#[test]
fn render_quote_styling_does_not_leak_to_the_next_block() {
    let lines = render_lines("- > quoted\n- plain", 40);
    assert_eq!(span_with(&lines, "plain").style.fg, None);
    assert_eq!(plain(&lines), ["• ▎ quoted", "• plain"]);
}

#[test]
fn mod_quote_styling_does_not_leak_to_the_next_block() {
    let lines = render_lines("- > quoted\n- plain", 40);
    assert_eq!(span_with(&lines, "plain").style.fg, None);
    assert_eq!(plain(&lines), ["• ▎ quoted", "• plain"]);
}

#[test]
fn render_blockquote_bar_continues_across_paragraphs_and_wraps() {
    let out = plain(&render_lines("> aaa bbb ccc\n>\n> ddd", 11));
    assert_eq!(out, ["▎ aaa bbb", "▎ ccc", "▎", "▎ ddd"]);
}

#[test]
fn mod_blockquote_bar_continues_across_paragraphs_and_wraps() {
    let out = plain(&render_lines("> aaa bbb ccc\n>\n> ddd", 11));
    assert_eq!(out, ["▎ aaa bbb", "▎ ccc", "▎", "▎ ddd"]);
}

#[test]
fn render_blockquote_inside_list_item() {
    let out = render("- item\n\n  > quoted");
    assert_eq!(out, ["• item", "", "  ▎ quoted"]);
}

#[test]
fn mod_blockquote_inside_list_item() {
    let out = render("- item\n\n  > quoted");
    assert_eq!(out, ["• item", "", "  ▎ quoted"]);
}

#[test]
fn render_code_block_inside_list_item_is_indented() {
    let out = render("- item\n\n  ```\n  code\n  ```");
    assert_eq!(out[0], "• item");
    assert!(out.iter().any(|l| l == "   code"), "{out:?}");
}

#[test]
fn mod_code_block_inside_list_item_is_indented() {
    let out = render("- item\n\n  ```\n  code\n  ```");
    assert_eq!(out[0], "• item");
    assert!(out.iter().any(|l| l == "   code"), "{out:?}");
}

#[test]
fn render_list_item_starting_with_a_nested_list_shares_the_line() {
    assert_eq!(render("- - inner"), ["• ◦ inner"]);
}

#[test]
fn mod_list_item_starting_with_a_nested_list_shares_the_line() {
    assert_eq!(render("- - inner"), ["• ◦ inner"]);
}

#[test]
fn render_code_block_is_a_padded_block_with_a_label() {
    let lines = render_lines("```rust\nfn main() {}\n```", 30);
    let out = plain(&lines);
    assert_eq!(out[0].trim(), "rust");
    assert_eq!(out[1], " fn main() {}");
    // every row fills the width, so the background reads as a solid block
    for line in &lines {
        assert_eq!(line_width(line), 30);
    }
    assert!(lines[1].spans.iter().all(|s| s.style.bg == Some(theme::code_bg_color())));
}

#[test]
fn mod_code_block_is_a_padded_block_with_a_label() {
    let lines = render_lines("```rust\nfn main() {}\n```", 30);
    let out = plain(&lines);
    assert_eq!(out[0].trim(), "rust");
    assert_eq!(out[1], " fn main() {}");
    // every row fills the width, so the background reads as a solid block
    for line in &lines {
        assert_eq!(line_width(line), 30);
    }
    assert!(lines[1].spans.iter().all(|s| s.style.bg == Some(theme::code_bg_color())));
}

#[test]
fn render_code_block_without_language_is_plain() {
    let out = render("```\nplain text\n```");
    assert_eq!(out, ["", " plain text", ""]);
}

#[test]
fn mod_code_block_without_language_is_plain() {
    let out = render("```\nplain text\n```");
    assert_eq!(out, ["", " plain text", ""]);
}

#[test]
fn render_code_block_label_never_widens_the_block() {
    let lines = render_lines("```averyveryverylonglanguagename\nx\n```", 12);
    for line in &lines {
        assert_eq!(line_width(line), 12, "{:?}", plain(&lines));
    }
    let out = plain(&lines);
    assert_eq!(out[0], "");
}

#[test]
fn mod_code_block_label_never_widens_the_block() {
    let lines = render_lines("```averyveryverylonglanguagename\nx\n```", 12);
    for line in &lines {
        assert_eq!(line_width(line), 12, "{:?}", plain(&lines));
    }
    let out = plain(&lines);
    assert_eq!(out[0], "");
}

#[test]
fn render_fence_info_string_yields_just_the_language() {
    assert_eq!(fence_language("rust"), "rust");
    assert_eq!(fence_language("python title=\"x\""), "python");
    assert_eq!(fence_language("js,twoslash"), "js");
    assert_eq!(fence_language(""), "");
}

#[test]
fn mod_fence_info_string_yields_just_the_language() {
    assert_eq!(fence_language("rust"), "rust");
    assert_eq!(fence_language("python title=\"x\""), "python");
    assert_eq!(fence_language("js,twoslash"), "js");
    assert_eq!(fence_language(""), "");
}

#[test]
fn render_thematic_break_spans_the_width() {
    assert_eq!(render("a\n\n---\n\nb"), ["a", "", &"─".repeat(40), "", "b"]);
}

#[test]
fn mod_thematic_break_spans_the_width() {
    assert_eq!(render("a\n\n---\n\nb"), ["a", "", &"─".repeat(40), "", "b"]);
}

#[test]
fn render_table_draws_a_grid_sized_to_its_content() {
    let out = render("| a | bb |\n|---|---:|\n| ccc | d |");
    assert_eq!(
        out,
        [
            "┌─────┬────┐",
            "│ a   │ bb │",
            "├─────┼────┤",
            "│ ccc │  d │",
            "└─────┴────┘",
        ]
    );
}

#[test]
fn mod_table_draws_a_grid_sized_to_its_content() {
    let out = render("| a | bb |\n|---|---:|\n| ccc | d |");
    assert_eq!(
        out,
        [
            "┌─────┬────┐",
            "│ a   │ bb │",
            "├─────┼────┤",
            "│ ccc │  d │",
            "└─────┴────┘",
        ]
    );
}

#[test]
fn render_table_header_is_bold() {
    let lines = render_lines("| head |\n|---|\n| body |", 40);
    let bold = |t| span_with(&lines, t).style.add_modifier.contains(Modifier::bold());
    assert!(bold("head"));
    assert!(!bold("body"));
}

#[test]
fn mod_table_header_is_bold() {
    let lines = render_lines("| head |\n|---|\n| body |", 40);
    let bold = |t| span_with(&lines, t).style.add_modifier.contains(Modifier::bold());
    assert!(bold("head"));
    assert!(!bold("body"));
}

#[test]
fn render_wide_table_shrinks_and_wraps_cells() {
    let md = "| a | b |\n|---|---|\n| one two three four | x |";
    let lines = render_lines(md, 16);
    for line in &lines {
        assert!(line_width(line) <= 16, "{:?}", plain(&lines));
    }
    let out = plain(&lines);
    assert!(out.len() > 5, "the long cell should wrap: {out:?}");
}

#[test]
fn mod_wide_table_shrinks_and_wraps_cells() {
    let md = "| a | b |\n|---|---|\n| one two three four | x |";
    let lines = render_lines(md, 16);
    for line in &lines {
        assert!(line_width(line) <= 16, "{:?}", plain(&lines));
    }
    let out = plain(&lines);
    assert!(out.len() > 5, "the long cell should wrap: {out:?}");
}

#[test]
fn render_table_rows_all_have_the_same_width() {
    let heart = "\u{2764}\u{fe0f}";
    let md = format!("| a | b |\n|---|---|\n| {heart}{heart}{heart} | y |\n| zzzz | w |");
    let lines = render_lines(&md, 40);
    let first = line_width(&lines[0]);
    for line in &lines {
        assert_eq!(line_width(line), first, "{:?}", plain(&lines));
    }
}

#[test]
fn mod_table_rows_all_have_the_same_width() {
    let heart = "\u{2764}\u{fe0f}";
    let md = format!("| a | b |\n|---|---|\n| {heart}{heart}{heart} | y |\n| zzzz | w |");
    let lines = render_lines(&md, 40);
    let first = line_width(&lines[0]);
    for line in &lines {
        assert_eq!(line_width(line), first, "{:?}", plain(&lines));
    }
}

#[test]
fn render_html_is_shown_dimmed_but_comments_are_hidden() {
    let lines = render_lines("<div>hi</div>\n\n<!-- secret -->\n\nafter", 40);
    assert_eq!(plain(&lines), ["<div>hi</div>", "", "after"]);
    assert_eq!(span_with(&lines, "<div>").style.fg, Some(Color::DarkGray));
}

#[test]
fn mod_html_is_shown_dimmed_but_comments_are_hidden() {
    let lines = render_lines("<div>hi</div>\n\n<!-- secret -->\n\nafter", 40);
    assert_eq!(plain(&lines), ["<div>hi</div>", "", "after"]);
    assert_eq!(span_with(&lines, "<div>").style.fg, Some(Color::DarkGray));
}

#[test]
fn render_inline_br_is_a_line_break() {
    assert_eq!(render("one<br>two"), ["one", "two"]);
}

#[test]
fn mod_inline_br_is_a_line_break() {
    assert_eq!(render("one<br>two"), ["one", "two"]);
}

#[test]
fn render_alert_has_a_title_and_colored_bar() {
    let out = render("> [!WARNING]\n> Careful.");
    assert_eq!(out, ["▎ Warning", "▎ Careful."]);
}

#[test]
fn mod_alert_has_a_title_and_colored_bar() {
    let out = render("> [!WARNING]\n> Careful.");
    assert_eq!(out, ["▎ Warning", "▎ Careful."]);
}

#[test]
fn render_footnotes_render_reference_and_definition() {
    let out = render("Text[^1].\n\n[^1]: The note.");
    assert_eq!(out[0], "Text[1].");
    assert!(out.iter().any(|l| l == "[1] The note."), "{out:?}");
}

#[test]
fn mod_footnotes_render_reference_and_definition() {
    let out = render("Text[^1].\n\n[^1]: The note.");
    assert_eq!(out[0], "Text[1].");
    assert!(out.iter().any(|l| l == "[1] The note."), "{out:?}");
}

#[test]
fn render_image_shows_alt_text() {
    assert_eq!(render("![a cat](cat.png)"), ["[image: a cat]"]);
}

#[test]
fn mod_image_shows_alt_text() {
    assert_eq!(render("![a cat](cat.png)"), ["[image: a cat]"]);
}

#[test]
fn missing_image_falls_back_to_alt_text() {
    let set = ImageSet::new(ImageResolver::new("no/such/dir/doc.md"));
    let out = text_lines(render_ast("![a cat](cat.png)", 40, Some(&set)));
    assert_eq!(plain(&out), ["[image: a cat]"]);
}

#[test]
fn image_inside_text_stays_inline() {
    assert_eq!(render("see ![a cat](cat.png) here"), ["see [image: a cat] here"]);
}

#[test]
fn render_front_matter_is_dimmed_not_parsed_as_markdown() {
    let out = render("---\ntitle: x\n---\n\n# Hi");
    assert_eq!(out[..3], ["---", "title: x", "---"]);
    assert!(out.contains(&"Hi".to_string()));
}

#[test]
fn mod_front_matter_is_dimmed_not_parsed_as_markdown() {
    let out = render("---\ntitle: x\n---\n\n# Hi");
    assert_eq!(out[..3], ["---", "title: x", "---"]);
    assert!(out.contains(&"Hi".to_string()));
}

#[test]
fn render_empty_document_renders_nothing() {
    assert!(render_lines("", 40).is_empty());
}

#[test]
fn mod_empty_document_renders_nothing() {
    assert!(render_lines("", 40).is_empty());
}

#[test]
fn fence_language_skips_opening_braces() {
    assert_eq!(fence_language("{r}"), "r");
    assert_eq!(fence_language("{r, echo=FALSE}"), "r");
    assert_eq!(fence_language("{{python}}"), "python");
}

#[test]
fn a_fence_with_a_quoted_title_still_renders() {
    let out = render("```python title=\"x\"\nprint(1)\n```\n\nafter");
    assert!(out.iter().any(|l| l.contains("print(1)")), "{out:?}");
    assert!(out.contains(&"after".to_string()));
}

#[test]
fn literal_blocks_keep_their_trailing_blank_lines() {
    // The front matter holds the blank line after its closing delimiter; a
    // separator follows it.
    let out = render("---\ntitle: x\n---\n\n# Hi");
    assert_eq!(out[..6], ["---", "title: x", "---", "", "", "Hi"]);
}
