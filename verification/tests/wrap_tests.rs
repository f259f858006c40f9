use lazymd::style::{Modifier, Span, Style};
use lazymd::wrap::{expand_tabs, max_line_width, pad, width, wrap, wrap_chars};

fn text(lines: &[Vec<Span>]) -> Vec<String> {
    lines.iter().map(|l| l.iter().map(|s| s.content.as_str()).collect()).collect()
}

#[test]
fn short_text_is_one_line() {
    let out = wrap(&[Span::raw("hello world".to_string())], 20);
    assert_eq!(text(&out), ["hello world"]);
}

#[test]
fn wraps_at_word_boundaries_and_drops_the_gap() {
    let out = wrap(&[Span::raw("the quick brown fox".to_string())], 10);
    assert_eq!(text(&out), ["the quick", "brown fox"]);
}

#[test]
fn splits_words_longer_than_the_line() {
    let out = wrap(&[Span::raw("abcdefghij".to_string())], 4);
    assert_eq!(text(&out), ["abcd", "efgh", "ij"]);
}

#[test]
fn newline_forces_a_break() {
    let out = wrap(&[Span::raw("one\ntwo".to_string())], 80);
    assert_eq!(text(&out), ["one", "two"]);
}

#[test]
fn keeps_styles_across_a_word_that_spans_several_spans() {
    let bold = Style::new().add_modifier(Modifier::bold());
    let out = wrap(
        &[Span::raw("aaaa ".to_string()), Span::styled("bb".to_string(), bold), Span::raw("cc".to_string())],
        5,
    );
    assert_eq!(text(&out), ["aaaa", "bbcc"]);
    assert_eq!(out[1][0].style, bold);
    assert_eq!(out[1][1].style, Style::new());
}

#[test]
fn wrap_chars_ignores_word_boundaries() {
    let out = wrap_chars(&[Span::raw("ab cd ef".to_string())], 3);
    assert_eq!(text(&out), ["ab ", "cd ", "ef"]);
}

#[test]
fn pad_fills_to_width() {
    let out = pad(vec![Span::raw("ab".to_string())], 5, Style::new());
    assert_eq!(width(&out), 5);
}

#[test]
fn wide_chars_count_as_two_columns() {
    let out = wrap(&[Span::raw("日本 語".to_string())], 4);
    assert_eq!(text(&out), ["日本", "語"]);
}

#[test]
fn every_wrapped_row_fits_or_is_one_character() {
    let out = wrap(&[Span::raw("a bb ccc dddd eeeee ffffff".to_string())], 4);
    for row in &out {
        let chars: usize = row.iter().map(|s| s.content.chars().count()).sum();
        assert!(width(row) <= 4 || chars == 1);
    }
    assert_eq!(text(&out), ["a bb", "ccc", "dddd", "eeee", "e", "ffff", "ff"]);
}

#[test]
fn wrap_chars_keeps_every_character() {
    let out = wrap_chars(&[Span::raw("ab\tcd\nef".to_string())], 2);
    assert_eq!(text(&out).concat(), "ab cdef");
    assert_eq!(text(&out), ["ab", " c", "d", "ef"]);
}

#[test]
fn zero_width_wraps_like_one() {
    let out = wrap(&[Span::raw("ab".to_string())], 0);
    assert_eq!(text(&out), ["a", "b"]);
}

#[test]
fn max_line_width_measures_the_widest_hard_line() {
    assert_eq!(max_line_width(&[Span::raw("ab\nabcd\nx".to_string())]), 4);
    assert_eq!(max_line_width(&[]), 0);
}

#[test]
fn tabs_expand_to_four_column_stops() {
    assert_eq!(expand_tabs("a\tb"), "a   b");
    assert_eq!(expand_tabs("\tx\n\ty"), "    x\n    y");
}

#[test]
fn wrapping_at_the_widest_line_breaks_nothing() {
    let spans = [Span::raw("one two three\nfour\n  five six".to_string())];
    let w = max_line_width(&spans);
    assert_eq!(wrap(&spans, w).len(), 3);
}
