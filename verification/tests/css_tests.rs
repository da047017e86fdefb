use webby::css::{
    border_from_words, edge_sides, Property, TransitionTimingFunction, TransitionValue, parse_property, transition_from_words,
    Color, Combinator, Display, FontFamily, GridPlacement, PseudoClass, Specificity,
    TransitionProperty, parse_color, parse_display, parse_font_family, parse_grid_placement,
    parse_selector, parse_text_align, parse_transition_properties, parse_visibility, TextAlign,
    Visibility,
};

#[test]
fn selector_parts_read_tag_class_and_id() {
    let selector = parse_selector("h1#hero.card.nav").expect("selector");
    assert_eq!(selector.parts.len(), 1);
    assert_eq!(selector.parts[0].tag_name.as_deref(), Some("h1"));
    assert_eq!(selector.parts[0].id.as_deref(), Some("hero"));
    assert_eq!(selector.parts[0].classes, vec!["card", "nav"]);
    assert_eq!(
        selector.specificity(),
        Specificity {
            ids: 1,
            classes: 2,
            tags: 1
        }
    );
}

#[test]
fn selector_combinators_are_descendant_and_child() {
    let descendant = parse_selector(".card p").expect("selector");
    assert_eq!(descendant.parts.len(), 2);
    assert_eq!(descendant.combinators, vec![Combinator::Descendant]);
    assert_eq!(descendant.parts[0].classes, vec!["card"]);
    assert_eq!(descendant.parts[1].tag_name.as_deref(), Some("p"));

    let child = parse_selector(".card > p").expect("selector");
    assert_eq!(child.parts.len(), 2);
    assert_eq!(child.combinators, vec![Combinator::Child]);

    let tight = parse_selector("ul>li  a").expect("selector");
    assert_eq!(tight.combinators, vec![Combinator::Child, Combinator::Descendant]);
}

#[test]
fn universal_selector_has_no_specificity() {
    let selector = parse_selector("*").expect("selector");
    assert!(selector.parts[0].universal);
    assert_eq!(
        selector.specificity(),
        Specificity {
            ids: 0,
            classes: 0,
            tags: 0
        }
    );
}

#[test]
fn attribute_selectors_keep_names_and_values() {
    let exists = parse_selector("[href]").expect("selector");
    let equals = parse_selector("INPUT[type=\"text\"]").expect("selector");

    assert_eq!(exists.parts[0].attributes[0].name, "href");
    assert_eq!(exists.parts[0].attributes[0].value, None);
    assert_eq!(equals.parts[0].tag_name.as_deref(), Some("input"));
    assert_eq!(equals.parts[0].attributes[0].name, "type");
    assert_eq!(equals.parts[0].attributes[0].value.as_deref(), Some("text"));
    assert_eq!(equals.specificity().classes, 1);
    assert_eq!(equals.specificity().tags, 1);
}

#[test]
fn supported_pseudo_classes_are_parsed_in_order() {
    let selector = parse_selector(
        "input:hover:focus:active:checked:disabled:first-child:last-child:nth-child(2)",
    )
    .expect("selector");

    assert_eq!(
        selector.parts[0].pseudo_classes,
        vec![
            PseudoClass::Hover,
            PseudoClass::Focus,
            PseudoClass::Active,
            PseudoClass::Checked,
            PseudoClass::Disabled,
            PseudoClass::FirstChild,
            PseudoClass::LastChild,
            PseudoClass::NthChild(2),
        ]
    );
    assert_eq!(selector.specificity().classes, 8);
    assert_eq!(selector.specificity().tags, 1);
}

#[test]
fn malformed_selectors_are_refused() {
    assert!(parse_selector("").is_none());
    assert!(parse_selector("   ").is_none());
    assert!(parse_selector("a:visited").is_none());
    assert!(parse_selector("a:nth-child(bad)").is_none());
    assert!(parse_selector("> p").is_none());
    assert!(parse_selector("p >").is_none());
    assert!(parse_selector("p > > a").is_none());
    assert!(parse_selector("[href").is_none());
    assert!(parse_selector("#a#b").is_none());
    assert!(parse_selector("p.").is_none());
    assert!(parse_selector("p + a").is_none());
}

#[test]
fn named_and_hex_colors_parse() {
    assert_eq!(parse_color(" Red "), Some(Color { r: 255, g: 0, b: 0, a: 255 }));
    assert_eq!(parse_color("transparent"), Some(Color { r: 0, g: 0, b: 0, a: 0 }));
    assert_eq!(parse_color("grey"), Some(Color { r: 128, g: 128, b: 128, a: 255 }));
    assert_eq!(parse_color("#123"), Some(Color { r: 0x11, g: 0x22, b: 0x33, a: 255 }));
    assert_eq!(parse_color("#A0b1C2"), Some(Color { r: 0xa0, g: 0xb1, b: 0xc2, a: 255 }));
    assert_eq!(parse_color("#12345"), None);
    assert_eq!(parse_color("#12g"), None);
    assert_eq!(parse_color("purple"), None);
}

#[test]
fn keyword_values_ignore_case_and_whitespace() {
    assert_eq!(parse_display(" INLINE-block "), Some(Display::InlineBlock));
    assert_eq!(parse_display("none"), Some(Display::NoDisplay));
    assert_eq!(parse_display("table"), None);
    assert_eq!(parse_text_align("end"), Some(TextAlign::Right));
    assert_eq!(parse_visibility("Hidden"), Some(Visibility::Hidden));
}

#[test]
fn font_family_reads_the_first_family() {
    assert_eq!(parse_font_family("'Fira Mono', serif"), Some(FontFamily::Monospace));
    assert_eq!(parse_font_family("code"), Some(FontFamily::Monospace));
    assert_eq!(parse_font_family("Georgia, monospace"), Some(FontFamily::Sans));
    assert_eq!(parse_font_family(" , mono"), None);
}

#[test]
fn transition_property_lists_parse_every_member() {
    assert_eq!(
        parse_transition_properties("color, Background ,top"),
        Some(vec![
            TransitionProperty::Color,
            TransitionProperty::BackgroundColor,
            TransitionProperty::Top,
        ])
    );
    assert_eq!(parse_transition_properties("color, width"), None);
}

#[test]
fn grid_placement_reads_lines() {
    assert_eq!(
        parse_grid_placement("2 / 4"),
        Some(GridPlacement {
            start: Some(2),
            end: Some(4)
        })
    );
    assert_eq!(
        parse_grid_placement("auto"),
        Some(GridPlacement {
            start: None,
            end: None
        })
    );
    assert_eq!(
        parse_grid_placement("3/AUTO"),
        Some(GridPlacement {
            start: Some(3),
            end: None
        })
    );
    assert_eq!(parse_grid_placement("4 / 2"), None);
    assert_eq!(parse_grid_placement("0"), None);
    assert_eq!(parse_grid_placement("1 /"), None);
    assert_eq!(parse_grid_placement("1 / 2 / 3"), None);
}

#[test]
fn property_names_are_trimmed_keywords() {
    assert_eq!(parse_property("  Background-Color "), Some(Property::BackgroundColor));
    assert_eq!(parse_property("transition"), Some(Property::Transition));
    assert_eq!(parse_property("GRID-TEMPLATE-ROWS"), Some(Property::GridTemplateRows));
    assert_eq!(parse_property("transform"), None);
    assert_eq!(parse_property("transition-"), None);
    assert_eq!(parse_property(""), None);
}

#[test]
fn transition_shorthand_reads_words_in_order() {
    assert_eq!(
        transition_from_words("color 200ms ease 50ms", &[None, Some(200), None, Some(50)]),
        Some(TransitionValue {
            properties: vec![TransitionProperty::Color],
            duration_ms: 200,
            delay_ms: 50,
            timing_function: TransitionTimingFunction::Ease,
        })
    );
    assert_eq!(
        transition_from_words(" 1s ", &[Some(1000)]),
        Some(TransitionValue {
            properties: vec![TransitionProperty::All],
            duration_ms: 1000,
            delay_ms: 0,
            timing_function: TransitionTimingFunction::Ease,
        })
    );
    assert_eq!(
        transition_from_words("LINEAR top 5ms", &[None, None, Some(5)]),
        Some(TransitionValue {
            properties: vec![TransitionProperty::Top],
            duration_ms: 5,
            delay_ms: 0,
            timing_function: TransitionTimingFunction::Linear,
        })
    );
}

#[test]
fn transition_shorthand_refuses_what_it_cannot_place() {
    assert_eq!(transition_from_words("transform 1s", &[None, Some(1000)]), None);
    assert_eq!(transition_from_words("color ease", &[None, None]), None);
    assert_eq!(transition_from_words("1s 2s 3s", &[Some(1000), Some(2000), Some(3000)]), None);
    assert_eq!(transition_from_words("color top 1s", &[None, None, Some(1000)]), None);
    assert_eq!(transition_from_words("ease linear 1s", &[None, None, Some(1000)]), None);
    assert_eq!(transition_from_words("color 1s", &[None]), None);
}

#[test]
fn border_shorthand_takes_first_length_then_first_color() {
    let red = parse_color("red");
    assert_eq!(
        border_from_words("2px solid red", &[true, false, false]),
        Some((Some(0), red))
    );
    assert_eq!(
        border_from_words("NONE red 3px", &[false, false, true]),
        Some((Some(2), red))
    );
    assert_eq!(border_from_words("red", &[false]), Some((None, red)));
    assert_eq!(
        border_from_words("1px 2px", &[true, true]),
        None
    );
    assert_eq!(border_from_words("solid", &[false]), None);
    assert_eq!(border_from_words("", &[]), None);
    assert_eq!(border_from_words("red blue", &[false, false]), None);
    assert_eq!(border_from_words("2px dashed", &[true, false]), None);
    assert_eq!(border_from_words("2px", &[]), None);
}

#[test]
fn edge_shorthand_spreads_one_to_four_values() {
    assert_eq!(edge_sides(0), None);
    assert_eq!(edge_sides(1), Some((0, 0, 0, 0)));
    assert_eq!(edge_sides(2), Some((0, 1, 0, 1)));
    assert_eq!(edge_sides(3), Some((0, 1, 2, 1)));
    assert_eq!(edge_sides(4), Some((0, 1, 2, 3)));
    assert_eq!(edge_sides(5), None);
}

#[test]
fn selectors_ending_in_a_child_combinator_are_refused() {
    assert!(parse_selector(".card >").is_none());
    assert!(parse_selector("a >>").is_none());
    assert!(parse_selector("div p > ").is_none());
    assert!(parse_selector("div > p").is_some());
}
