use lazymd::highlight::highlight;

#[test]
fn known_language_is_highlighted_in_several_colors() {
    let lines = highlight("fn main() {}\n", "rust").unwrap();
    assert_eq!(lines.len(), 1);
    let text: String = lines[0].iter().map(|s| s.content.as_str()).collect();
    assert_eq!(text, "fn main() {}");
    let mut colors = Vec::new();
    for s in &lines[0] {
        if !colors.contains(&s.style.fg) {
            colors.push(s.style.fg);
        }
    }
    assert!(colors.len() > 1, "expected more than one color");
}

#[test]
fn unknown_language_falls_back() {
    assert!(highlight("x", "definitely-not-a-language").is_none());
    assert!(highlight("x", "").is_none());
}

#[test]
fn highlighting_leaves_the_background_alone() {
    let lines = highlight("let x = 1;\nlet y = \"two\";\n", "rs").unwrap();
    assert_eq!(lines.len(), 2);
    assert!(lines.iter().flatten().all(|s| s.style.bg.is_none()));
    assert!(lines.iter().flatten().all(|s| !s.content.contains('\n')));
}
