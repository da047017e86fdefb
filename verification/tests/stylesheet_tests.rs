use webby::css::{Combinator, CssDiagnostic, MediaType, Orientation, PseudoClass, Selector};
use webby::stylesheet::{
    MediaFeatureText, RawDeclaration, ScanItem, media_query_parts, media_text_is_readable,
    scan_declarations, scan_stylesheet,
};

/// The selectors of the rules that keep at least one declaration, in order.
fn rules_of(items: &[ScanItem]) -> Vec<Selector> {
    let mut rules = Vec::new();
    for item in items {
        if let ScanItem::Rule {
            selectors,
            declarations,
            ..
        } = item
        {
            if !declarations.is_empty() {
                rules.extend(selectors.iter().cloned());
            }
        }
    }
    rules
}

/// Every diagnostic the scan reports, in order.
fn diagnostics_of(items: &[ScanItem]) -> Vec<CssDiagnostic> {
    let mut diagnostics = Vec::new();
    for item in items {
        match item {
            ScanItem::Diagnostic(diagnostic) => diagnostics.push(diagnostic.clone()),
            ScanItem::Rule {
                missing_colon: Some(offset),
                ..
            } => diagnostics.push(CssDiagnostic {
                offset: *offset,
                message: "skipped declaration without ':'".to_string(),
            }),
            _ => {}
        }
    }
    diagnostics
}

fn diagnostic(offset: usize, message: &str) -> ScanItem {
    ScanItem::Diagnostic(CssDiagnostic {
        offset,
        message: message.to_string(),
    })
}

fn raw(property: &str, value: &str, offset: usize) -> RawDeclaration {
    RawDeclaration {
        property: property.to_string(),
        value: value.to_string(),
        offset,
    }
}

#[test]
fn empty_stylesheet_is_valid() {
    let items = scan_stylesheet("", 0);

    assert!(rules_of(&items).is_empty());
    assert!(diagnostics_of(&items).is_empty());
}

#[test]
fn parses_supported_selectors() {
    let items = scan_stylesheet(
        "p{color:red}.card{color:blue}#main{color:black}a.nav{color:white}h1#hero{color:#123}",
        0,
    );

    let selectors = rules_of(&items);
    assert_eq!(selectors.len(), 5);
    assert_eq!(selectors[0].parts[0].tag_name.as_deref(), Some("p"));
    assert_eq!(selectors[1].parts[0].classes, vec!["card"]);
    assert_eq!(selectors[2].parts[0].id.as_deref(), Some("main"));
    assert_eq!(selectors[3].parts[0].tag_name.as_deref(), Some("a"));
    assert_eq!(selectors[3].parts[0].classes, vec!["nav"]);
    assert_eq!(selectors[4].parts[0].tag_name.as_deref(), Some("h1"));
    assert_eq!(selectors[4].parts[0].id.as_deref(), Some("hero"));
}

#[test]
fn parses_grouped_selectors() {
    let rules = rules_of(&scan_stylesheet("h1, h2, h3 { color: red; }", 0));

    assert_eq!(rules.len(), 3);
    assert_eq!(rules[0].parts[0].tag_name.as_deref(), Some("h1"));
    assert_eq!(rules[1].parts[0].tag_name.as_deref(), Some("h2"));
    assert_eq!(rules[2].parts[0].tag_name.as_deref(), Some("h3"));
}

#[test]
fn unsupported_pseudo_class_is_skipped_with_diagnostic() {
    let items = scan_stylesheet("a:visited { color: red; } a:hover { color: blue; }", 0);
    let rules = rules_of(&items);

    assert_eq!(rules.len(), 1);
    assert_eq!(rules[0].parts[0].tag_name.as_deref(), Some("a"));
    assert!(diagnostics_of(&items).iter().any(|diagnostic| {
        diagnostic.message.contains("unsupported selector")
            && diagnostic.message.contains(":visited")
    }));
}

#[test]
fn malformed_pseudo_class_selector_makes_progress() {
    let items = scan_stylesheet("a:nth-child(bad) { color: red; } p { color: blue; }", 0);
    let rules = rules_of(&items);

    assert_eq!(rules.len(), 1);
    assert_eq!(rules[0].parts[0].tag_name.as_deref(), Some("p"));
    assert!(diagnostics_of(&items).iter().any(|diagnostic| {
        diagnostic.message.contains("unsupported selector")
            && diagnostic.message.contains("nth-child")
    }));
}

#[test]
fn invalid_css_is_skipped_with_diagnostics() {
    let items = scan_stylesheet("p { color: red; invalid } p + a { color: blue }", 0);

    assert_eq!(rules_of(&items).len(), 1);
    assert!(!diagnostics_of(&items).is_empty());
}

#[test]
fn malformed_and_unsupported_selectors_are_skipped_with_diagnostics() {
    let items = scan_stylesheet(
        ".card > { color: red; } p + a { color: blue; } p { color: green; }",
        0,
    );
    let rules = rules_of(&items);

    assert_eq!(rules.len(), 1);
    assert_eq!(rules[0].parts[0].tag_name.as_deref(), Some("p"));
    assert_eq!(diagnostics_of(&items).len(), 2);
}

#[test]
fn grouped_selector_keeps_valid_members_when_one_member_is_unsupported() {
    let items = scan_stylesheet("p + a, h1 { color: red; }", 0);
    let rules = rules_of(&items);
    let diagnostics = diagnostics_of(&items);

    assert_eq!(rules.len(), 1);
    assert_eq!(rules[0].parts[0].tag_name.as_deref(), Some("h1"));
    assert_eq!(diagnostics.len(), 1);
    assert!(diagnostics[0].message.contains("unsupported selector"));
}

#[test]
fn unclosed_attribute_selector_reports_diagnostic_and_keeps_later_rule() {
    let items = scan_stylesheet("[href { color: red; } p { color: blue; }", 0);
    let rules = rules_of(&items);
    let diagnostics = diagnostics_of(&items);

    assert_eq!(rules.len(), 1);
    assert_eq!(rules[0].parts[0].tag_name.as_deref(), Some("p"));
    assert_eq!(diagnostics.len(), 1);
    assert!(diagnostics[0].message.contains("unsupported selector"));
}

#[test]
fn inline_declaration_parser_accepts_declaration_lists() {
    let (declarations, missing_colon) = scan_declarations("color: red; font-weight: bold; broken", 0);

    assert_eq!(declarations.len(), 2);
    assert_eq!(missing_colon.iter().count(), 1);
}

#[test]
fn malformed_css_makes_progress() {
    let items = scan_stylesheet("/* unterminated comment p { color: red; } trailing", 0);

    assert!(rules_of(&items).is_empty());
    assert_eq!(diagnostics_of(&items).len(), 1);
}

#[test]
fn generated_malformed_css_inputs_do_not_panic_or_loop() {
    let fragments = [
        "{",
        "}",
        "p { color:",
        ".card > {",
        "[href { color: red; }",
        "a + b { color: red; }",
        "/* unterminated",
        "#id.class[attr=\"x\" {",
        "span { margin: one two; }",
        ",,,",
    ];

    for repeat in 1..=10 {
        let mut css = String::new();
        for index in 0..repeat {
            css.push_str(fragments[index % fragments.len()]);
            css.push_str(" p { color: blue; }");
        }
        let items = scan_stylesheet(&css, 0);
        assert!(rules_of(&items).len() <= repeat);
    }
}

#[test]
fn unterminated_rule_keeps_valid_declarations() {
    let items = scan_stylesheet("p { color: red; font-size: 20px", 0);
    let mut declaration_count = 0;
    for item in &items {
        if let ScanItem::Rule { declarations, .. } = item {
            declaration_count += declarations.len();
        }
    }

    assert_eq!(rules_of(&items).len(), 1);
    assert_eq!(declaration_count, 2);
    assert_eq!(diagnostics_of(&items).len(), 1);
}

#[test]
fn scan_reports_each_piece_with_byte_offsets() {
    let items = scan_stylesheet("a:visited { color: red; } a:hover { color : blue; }", 10);

    assert_eq!(items.len(), 3);
    assert_eq!(items[0], diagnostic(10, "unsupported selector \"a:visited\""));
    match &items[1] {
        ScanItem::Rule {
            selectors,
            declarations,
            missing_colon,
        } => {
            assert!(selectors.is_empty());
            assert_eq!(declarations, &vec![raw("color", " red", 22)]);
            assert_eq!(*missing_colon, None);
        }
        other => panic!("expected a rule, got {other:?}"),
    }
    match &items[2] {
        ScanItem::Rule {
            selectors,
            declarations,
            missing_colon,
        } => {
            assert_eq!(selectors.len(), 1);
            assert_eq!(declarations, &vec![raw("color", " blue", 46)]);
            assert_eq!(*missing_colon, None);
        }
        other => panic!("expected a rule, got {other:?}"),
    }
}

#[test]
fn scan_offsets_count_bytes_not_characters() {
    let items = scan_stylesheet("/*é*/ p { color: red; }", 100);

    assert_eq!(items.len(), 1);
    match &items[0] {
        ScanItem::Rule { declarations, .. } => {
            assert_eq!(declarations, &vec![raw("color", " red", 111)]);
        }
        other => panic!("expected a rule, got {other:?}"),
    }
}

#[test]
fn scan_hands_media_blocks_back_whole() {
    let items = scan_stylesheet("@media screen { p { color: red; } } b { x: y }", 0);

    assert_eq!(
        items[0],
        ScanItem::Media {
            prelude: "@media screen ".to_string(),
            prelude_offset: 0,
            block: " p { color: red; } ".to_string(),
            block_offset: 15,
        }
    );
    assert_eq!(items.len(), 2);
}

#[test]
fn scan_reports_unterminated_comment_block_and_missing_brace() {
    assert_eq!(
        scan_stylesheet("p { a: b } /* open", 0),
        vec![
            ScanItem::Rule {
                selectors: rules_of(&scan_stylesheet("p { a: b }", 0)),
                declarations: vec![raw("a", " b ", 4)],
                missing_colon: None,
            },
            diagnostic(11, "unterminated CSS comment"),
        ]
    );
    assert_eq!(
        scan_stylesheet("p { a: b } trailing", 0)[1],
        diagnostic(11, "skipped CSS without declaration block")
    );
    assert_eq!(
        scan_stylesheet("p { a: b", 0)[0],
        diagnostic(3, "unterminated CSS declaration block")
    );
}

#[test]
fn scan_declarations_reports_the_declaration_without_colon() {
    let (declarations, missing_colon) = scan_declarations("  width: 5px;  oops", 7);

    assert_eq!(declarations, vec![raw("width", " 5px", 9)]);
    assert_eq!(missing_colon, Some(22));
}

#[test]
fn every_selector_list_member_is_kept_or_reported() {
    let items = scan_stylesheet("p + a, h1, :visited, ,em { a: b }", 0);
    let reported = items
        .iter()
        .filter(|item| matches!(item, ScanItem::Diagnostic(_)))
        .count();

    assert_eq!(rules_of(&items).len(), 2);
    assert_eq!(reported, 3);
    assert_eq!(rules_of(&items).len() + reported, 4 + 1);
}

fn width(kind: fn(String) -> MediaFeatureText, value: &str) -> MediaFeatureText {
    kind(value.to_string())
}

#[test]
fn media_queries_split_on_standalone_and() {
    assert_eq!(
        media_query_parts("screen and (min-width: 600px) and (max-width: 900px)"),
        Some((
            MediaType::Screen,
            vec![
                width(MediaFeatureText::MinWidth, "600px"),
                width(MediaFeatureText::MaxWidth, "900px"),
            ]
        ))
    );
    assert_eq!(
        media_query_parts("  ALL AND ( Width : 320px ) "),
        Some((MediaType::All, vec![width(MediaFeatureText::Width, "320px")]))
    );
    assert_eq!(
        media_query_parts("(orientation: Landscape)"),
        Some((
            MediaType::All,
            vec![MediaFeatureText::Orientation(Orientation::Landscape)]
        ))
    );
    assert_eq!(
        media_query_parts("(width: 5px and 6px)"),
        Some((MediaType::All, vec![width(MediaFeatureText::Width, "5px and 6px")]))
    );
    assert_eq!(
        media_query_parts("(min-width: 1px) and(max-width: 2px)"),
        Some((
            MediaType::All,
            vec![width(MediaFeatureText::MinWidth, "1px) and(max-width: 2px")]
        ))
    );
}

#[test]
fn unsupported_media_queries_are_refused() {
    assert_eq!(media_query_parts(""), None);
    assert_eq!(media_query_parts("print and (min-width: 1px)"), None);
    assert_eq!(media_query_parts("screen and (orientation: sideways)"), None);
    assert_eq!(media_query_parts("screen and"), None);
    assert_eq!(media_query_parts("screen and (color: red)"), None);
    assert_eq!(media_query_parts("screen and min-width: 1px"), None);
}

#[test]
fn media_text_readability_follows_character_boundaries() {
    assert!(media_text_is_readable("screen and (min-width: 600px)"));
    assert!(media_text_is_readable("screen a\u{e9}"));
    assert!(media_text_is_readable("(a\u{20ac})"));
    assert!(!media_text_is_readable("screen a\u{20ac}"));
    assert!(!media_text_is_readable("screen ab\u{e9}"));
}

/// The first selector of a stylesheet's first kept rule.
fn first_selector(css: &str) -> Selector {
    rules_of(&scan_stylesheet(css, 0))
        .first()
        .cloned()
        .expect("missing selector")
}

#[test]
fn parses_descendant_selector() {
    let selector = first_selector(".card p { color: red; }");

    assert_eq!(selector.parts.len(), 2);
    assert_eq!(selector.combinators, vec![Combinator::Descendant]);
    assert_eq!(selector.parts[0].classes, vec!["card"]);
    assert_eq!(selector.parts[1].tag_name.as_deref(), Some("p"));
}

#[test]
fn parses_child_selector() {
    let selector = first_selector(".card > p { color: red; }");

    assert_eq!(selector.parts.len(), 2);
    assert_eq!(selector.combinators, vec![Combinator::Child]);
}

#[test]
fn parses_universal_selector() {
    let selector = first_selector("* { color: red; }");

    assert!(selector.parts[0].universal);
    assert_eq!(selector.specificity().ids, 0);
    assert_eq!(selector.specificity().classes, 0);
    assert_eq!(selector.specificity().tags, 0);
}

#[test]
fn parses_multiple_classes() {
    let selector = first_selector(".card.highlighted { color: red; }");

    assert_eq!(selector.parts[0].classes, vec!["card", "highlighted"]);
    assert_eq!(selector.specificity().classes, 2);
}

#[test]
fn parses_attribute_selectors() {
    let exists = first_selector("[href] { color: red; }");
    let equals = first_selector("input[type=\"text\"] { color: blue; }");

    assert_eq!(exists.parts[0].attributes[0].name, "href");
    assert_eq!(exists.parts[0].attributes[0].value, None);
    assert_eq!(equals.parts[0].tag_name.as_deref(), Some("input"));
    assert_eq!(equals.parts[0].attributes[0].name, "type");
    assert_eq!(equals.parts[0].attributes[0].value.as_deref(), Some("text"));
    assert_eq!(equals.specificity().classes, 1);
    assert_eq!(equals.specificity().tags, 1);
}

#[test]
fn parses_supported_pseudo_classes() {
    let selector = first_selector(
        "input:hover:focus:active:checked:disabled:first-child:last-child:nth-child(2) { color: red; }",
    );

    assert_eq!(
        selector.parts[0].pseudo_classes,
        vec![
            PseudoClass::Hover,
            PseudoClass::Focus,
            PseudoClass::Active,
            PseudoClass::Checked,
            PseudoClass::Disabled,
            PseudoClass::FirstChild,
            PseudoClass::LastChild,
            PseudoClass::NthChild(2),
        ]
    );
    assert_eq!(selector.specificity().classes, 8);
    assert_eq!(selector.specificity().tags, 1);
}
