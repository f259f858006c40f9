use lazymd::render::table::{Alignment, MIN_COLUMN_WIDTH, align_cell, fit_columns};
use lazymd::style::Span;

#[test]
fn fit_columns_shrinks_the_widest_first() {
    let mut w = vec![10, 4, 4];
    fit_columns(&mut w, 16);
    assert_eq!(w, [8, 4, 4]);
}

#[test]
fn fit_columns_levels_columns_it_has_to_shrink() {
    let mut w = vec![20, 20, 4];
    fit_columns(&mut w, 24);
    assert_eq!(w.iter().sum::<usize>(), 24);
    assert_eq!(w[0].abs_diff(w[1]), 0, "the two wide columns end up even: {w:?}");
}

/// A table too wide even at the minimum overflows rather than becoming
/// unreadable, so the loop has to give up instead of spinning.
#[test]
fn fit_columns_stops_at_the_minimum() {
    let mut w = vec![9, 9];
    fit_columns(&mut w, 1);
    assert_eq!(w, [MIN_COLUMN_WIDTH, MIN_COLUMN_WIDTH]);
}

#[test]
fn fit_columns_leaves_a_table_that_already_fits() {
    let mut w = vec![3, 5];
    fit_columns(&mut w, 40);
    assert_eq!(w, [3, 5]);
}

fn aligned(text: &str, width: usize, align: Alignment) -> String {
    align_cell(vec![Span::raw(text.to_string())], width, align)
        .iter()
        .map(|s| s.content.as_str())
        .collect()
}

#[test]
fn align_cell_pads_left_right_and_center() {
    assert_eq!(aligned("ab", 6, Alignment::Left), "ab    ");
    assert_eq!(aligned("ab", 6, Alignment::Unaligned), "ab    ");
    assert_eq!(aligned("ab", 6, Alignment::Right), "    ab");
    assert_eq!(aligned("ab", 6, Alignment::Center), "  ab  ");
}

/// Odd slack splits `slack / 2` left and the remainder right, so the cell
/// still comes out exactly `width` columns wide.
#[test]
fn align_cell_centers_odd_slack_without_losing_a_column() {
    assert_eq!(aligned("ab", 7, Alignment::Center), "  ab   ");
}

#[test]
fn align_cell_never_truncates() {
    assert_eq!(aligned("abcdefgh", 3, Alignment::Right), "abcdefgh");
}

/// Shrinking never widens a column, never goes below the minimum, and
/// leaves a table that fits within budget.
#[test]
fn fit_columns_on_concrete_widths_keeps_its_law() {
    let before = vec![12, 2, 30, 7];
    let mut w = before.clone();
    fit_columns(&mut w, 20);
    for (a, b) in w.iter().zip(&before) {
        assert!(a <= b);
        assert!(*a >= MIN_COLUMN_WIDTH || a == b);
    }
    assert!(w.iter().sum::<usize>() <= 20 || w.iter().all(|x| *x <= MIN_COLUMN_WIDTH));
}

#[test]
fn every_shrunk_column_ends_within_one_of_the_widest() {
    let before = vec![15, 11, 6, 3];
    let mut w = before.clone();
    fit_columns(&mut w, 24);
    let widest = *w.iter().max().unwrap();
    for (a, b) in w.iter().zip(&before) {
        if a < b {
            assert!(a + 1 >= widest, "{w:?}");
        }
    }
}
