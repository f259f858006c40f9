use lazymd::doc::{NodeKind, parse_markdown, parse_xml_document};

const PROLOG: &str = "<?xml version=\"1.0\" encoding=\"UTF-8\"?>\n<!DOCTYPE document SYSTEM \"CommonMark.dtd\">\n";

fn read(body: &str) -> Option<lazymd::doc::Node> {
    let xml: Vec<char> = format!("{PROLOG}{body}").chars().collect();
    parse_xml_document(&xml)
}


#[test]
fn markdown_is_read_into_a_tree() {
    let (doc, front_matter) = parse_markdown("# Hi\n\nSome *text*.\n").unwrap();
    assert!(matches!(doc.kind, NodeKind::Document));
    assert_eq!(doc.children.len(), 2);
    assert!(matches!(doc.children[0].kind, NodeKind::Heading(1)));
    assert!(matches!(doc.children[1].kind, NodeKind::Paragraph));
    assert_eq!(front_matter, "");
}

#[test]
fn front_matter_is_kept_with_its_delimiters() {
    let (doc, front_matter) = parse_markdown("---\ntitle: x\n---\n\n# Hi").unwrap();
    assert!(matches!(doc.children[0].kind, NodeKind::FrontMatter));
    assert!(front_matter.starts_with("---\ntitle: x\n---"));
}

#[test]
fn text_with_markup_characters_survives_the_trip() {
    let (doc, _) = parse_markdown("a < b & \"c\" > d\n").unwrap();
    let para = &doc.children[0];
    let text: String = para
        .children
        .iter()
        .map(|n| match &n.kind {
            NodeKind::Text(t) => t.clone(),
            _ => String::new(),
        })
        .collect();
    assert_eq!(text, "a < b & \"c\" > d");
}

#[test]
fn lists_tables_and_alerts_keep_their_attributes() {
    let (doc, _) = parse_markdown("3) x\n4) y\n\n| a |\n|:-:|\n| b |\n\n> [!TIP]\n> t\n").unwrap();
    match &doc.children[0].kind {
        NodeKind::List(info) => {
            assert!(info.ordered);
            assert_eq!(info.start, 3);
            assert!(info.paren);
            assert!(info.tight);
        }
        _ => panic!("expected a list"),
    }
    assert!(matches!(doc.children[1].kind, NodeKind::Table));
    assert!(matches!(doc.children[2].kind, NodeKind::Alert { .. }));
}

#[test]
fn an_unknown_element_reads_back_by_name() {
    let doc = read("<document xmlns=\"http://commonmark.org/xml/1.0\">\n  <custom_thing />\n</document>\n").unwrap();
    match &doc.children[0].kind {
        NodeKind::Element(name) => assert_eq!(name, "custom_thing"),
        _ => panic!("expected an element"),
    }
}

#[test]
fn nested_blocks_read_back_at_their_depths() {
    let doc = read(&[
        "<document xmlns=\"http://commonmark.org/xml/1.0\">\n",
        "  <list type=\"bullet\" tasklist=\"true\" tight=\"true\">\n",
        "    <taskitem completed=\"false\">\n",
        "      <paragraph>\n",
        "        <text xml:space=\"preserve\">a &amp; b</text>\n",
        "      </paragraph>\n",
        "    </taskitem>\n",
        "  </list>\n",
        "  <code_block info=\"math\" math_style=\"display\" xml:space=\"preserve\">x &lt; 1\n</code_block>\n",
        "</document>\n",
    ]
    .concat())
    .unwrap();
    match &doc.children[0].kind {
        NodeKind::List(info) => assert!(!info.ordered && info.tasklist && info.tight),
        _ => panic!("expected a list"),
    }
    let item = &doc.children[0].children[0];
    assert!(matches!(item.kind, NodeKind::TaskItem(false)));
    match &item.children[0].children[0].kind {
        NodeKind::Text(t) => assert_eq!(t, "a & b"),
        _ => panic!("expected text"),
    }
    match &doc.children[1].kind {
        NodeKind::CodeBlock { info, literal } => {
            assert_eq!(info, "math");
            assert_eq!(literal, "x < 1\n");
        }
        _ => panic!("expected a code block"),
    }
}

#[test]
fn what_no_tree_prints_is_refused() {
    // An entity the printer never writes.
    assert!(read("<document xmlns=\"http://commonmark.org/xml/1.0\">\n  <paragraph>\n    <text xml:space=\"preserve\">&nbsp;</text>\n  </paragraph>\n</document>\n").is_none());
    // A heading level that does not fit.
    assert!(read("<document xmlns=\"http://commonmark.org/xml/1.0\">\n  <heading level=\"300\" />\n</document>\n").is_none());
    // The wrong indentation.
    assert!(read("<document xmlns=\"http://commonmark.org/xml/1.0\">\n <paragraph />\n</document>\n").is_none());
    // Something after the end.
    assert!(read("<document xmlns=\"http://commonmark.org/xml/1.0\" />\nmore").is_none());
}

#[test]
fn a_quoted_fence_title_reads_back() {
    let (doc, _) = parse_markdown("```python title=\"x\"\nprint(1)\n```\n").unwrap();
    match &doc.children[0].kind {
        NodeKind::CodeBlock { info, literal } => {
            assert_eq!(info, "python title=\"x\"");
            assert_eq!(literal, "print(1)\n");
        }
        _ => panic!("expected a code block"),
    }
}

#[test]
fn a_fence_info_holding_the_attribute_end_reads_back() {
    let md = "```a\" xml:space=\"preserve\">b\nx\n```\n";
    let (doc, _) = parse_markdown(md).unwrap();
    match &doc.children[0].kind {
        NodeKind::CodeBlock { info, literal } => {
            assert_eq!(info, "a\" xml:space=\"preserve\">b");
            assert_eq!(literal, "x\n");
        }
        _ => panic!("expected a code block"),
    }
}
