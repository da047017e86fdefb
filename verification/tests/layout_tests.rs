use webby::css::GridPlacement as Lines;
use webby::layout::{
    element_metadata, grid_column_count, grid_row_count, FormOption, control_label, control_value, grid_placements,
    ElementMetadata, FormControlType, GridPlacement, LayoutFlow, PositionMode, VisualColor,
    append_metadata, button_control_type, control_type_name, first_free_auto_cell,
    first_free_column, first_free_row, format_color, grid_area_occupied, input_control_type,
    mark_grid_cells, parse_graphic_color,
};

#[test]
fn grid_area_checks_every_covered_cell() {
    let occupied = vec![(1, 0), (0, 2)];
    assert!(grid_area_occupied(&occupied, 0, 0, 2, 1));
    assert!(!grid_area_occupied(&occupied, 0, 0, 1, 2));
    assert!(grid_area_occupied(&occupied, 0, 0, 1, 3));
    assert!(!grid_area_occupied(&occupied, 2, 0, 0, 0));
}

#[test]
fn first_free_row_and_column_are_the_smallest_free_ones() {
    let occupied = vec![(0, 0), (0, 1), (1, 0)];
    assert_eq!(first_free_row(&occupied, 0, 1, 1), 2);
    assert_eq!(first_free_row(&occupied, 1, 1, 1), 1);
    assert_eq!(first_free_column(&occupied, 0, 1, 1), 2);
    assert_eq!(first_free_column(&occupied, 1, 2, 1), 1);
}

#[test]
fn auto_placement_wraps_rows_at_the_column_count() {
    let occupied = vec![(0, 0), (1, 0), (2, 0)];
    assert_eq!(first_free_auto_cell(&occupied, 0, 0, 1, 1, 3), (0, 1));
    assert_eq!(first_free_auto_cell(&occupied, 1, 0, 2, 1, 3), (0, 1));
    assert_eq!(first_free_auto_cell(&[], 5, 2, 1, 1, 0), (5, 2));
}

#[test]
fn marking_covers_the_placement_area() {
    let mut occupied = vec![(9, 9)];
    mark_grid_cells(
        &mut occupied,
        GridPlacement {
            column: 1,
            row: 2,
            column_span: 2,
            row_span: 0,
        },
    );
    assert_eq!(occupied[0], (9, 9));
    assert!(occupied.contains(&(1, 2)));
    assert!(occupied.contains(&(2, 2)));
    assert!(!occupied.contains(&(1, 3)));
    assert!(grid_area_occupied(&occupied, 1, 2, 2, 1));
}

#[test]
fn graphic_colors_accept_names_hex_and_none() {
    assert_eq!(
        parse_graphic_color(" Green "),
        Some(VisualColor { r: 0, g: 128, b: 0, a: 255 })
    );
    assert_eq!(
        parse_graphic_color("#0f8"),
        Some(VisualColor { r: 0, g: 0xff, b: 0x88, a: 255 })
    );
    assert_eq!(
        parse_graphic_color("#102030"),
        Some(VisualColor { r: 0x10, g: 0x20, b: 0x30, a: 255 })
    );
    assert_eq!(parse_graphic_color("none"), None);
    assert_eq!(parse_graphic_color("#12"), None);
}

#[test]
fn form_control_types_default_and_normalize() {
    assert_eq!(input_control_type(None), FormControlType::Text);
    assert_eq!(input_control_type(Some("CHECKBOX")), FormControlType::Checkbox);
    assert_eq!(input_control_type(Some("date")), FormControlType::Text);
    assert_eq!(button_control_type(None), FormControlType::Submit);
    assert_eq!(button_control_type(Some("Reset")), FormControlType::Reset);
    assert_eq!(control_type_name(FormControlType::Textarea), "textarea");
    assert_eq!(control_type_name(input_control_type(Some("email"))), "email");
}

#[test]
fn dump_names_and_colors_are_fixed() {
    assert_eq!(LayoutFlow::Grid.as_str(), "grid");
    assert_eq!(PositionMode::Relative.as_str(), "relative");
    assert_eq!(
        format_color(VisualColor { r: 1, g: 20, b: 255, a: 0 }),
        "rgba(1,20,255,0)"
    );
}

#[test]
fn metadata_suffix_escapes_and_joins_classes() {
    let metadata = ElementMetadata {
        node_id: Some(3),
        id: Some("a\"b".to_string()),
        classes: vec!["x".to_string(), "y".to_string()],
    };
    let mut line = "<div>".to_string();
    append_metadata(&metadata, &mut line);
    assert_eq!(line, "<div> id=\"a\\\"b\" class=\"x y\"");

    let mut bare = String::new();
    append_metadata(
        &ElementMetadata {
            node_id: None,
            id: None,
            classes: Vec::new(),
        },
        &mut bare,
    );
    assert_eq!(bare, "");
}

fn lines(start: Option<usize>, end: Option<usize>) -> Lines {
    Lines { start, end }
}

fn cell(column: usize, row: usize, column_span: usize, row_span: usize) -> GridPlacement {
    GridPlacement {
        column,
        row,
        column_span,
        row_span,
    }
}

#[test]
fn grid_items_fill_free_cells_in_order() {
    let auto = lines(None, None);
    let items = vec![
        (auto, auto),
        (auto, auto),
        (lines(Some(2), None), auto),
        (auto, auto),
    ];
    assert_eq!(
        grid_placements(&items, 2),
        vec![cell(0, 0, 1, 1), cell(1, 0, 1, 1), cell(1, 1, 1, 1), cell(0, 1, 1, 1)]
    );
}

#[test]
fn explicit_grid_lines_are_kept_and_spans_follow_lines() {
    let items = vec![
        (lines(Some(1), Some(3)), lines(Some(1), None)),
        (lines(None, None), lines(Some(1), None)),
        (lines(None, None), lines(None, None)),
        (lines(Some(4), Some(2)), lines(Some(2), Some(4))),
    ];
    assert_eq!(
        grid_placements(&items, 3),
        vec![
            cell(0, 0, 2, 1),
            cell(2, 0, 1, 1),
            cell(0, 1, 1, 1),
            cell(3, 1, 1, 2),
        ]
    );
    assert!(grid_placements(&[], 0).is_empty());
}

fn option(value: &str, label: &str, selected: bool, disabled: bool) -> FormOption {
    FormOption {
        value: value.to_string(),
        label: label.to_string(),
        selected,
        disabled,
    }
}

#[test]
fn control_labels_follow_the_control_kind() {
    assert_eq!(control_label(false, FormControlType::Password, "abc", None, &[], false), "***");
    assert_eq!(control_label(false, FormControlType::Text, "", Some("Name"), &[], false), "Name");
    assert_eq!(control_label(false, FormControlType::Email, "", None, &[], false), "");
    assert_eq!(control_label(false, FormControlType::Checkbox, "on", None, &[], true), "[x]");
    assert_eq!(control_label(false, FormControlType::Radio, "on", None, &[], false), "( )");
    let options = vec![option("a", "Alpha", false, true), option("b", "Beta", false, false)];
    assert_eq!(control_label(false, FormControlType::Select, "a", None, &options, false), "Alpha");
    assert_eq!(control_label(false, FormControlType::Select, "z", None, &options, false), "Beta");
    assert_eq!(control_label(false, FormControlType::Select, "z", None, &[], false), "");
    assert_eq!(control_label(true, FormControlType::Submit, "Go", None, &[], false), "Go");
    assert_eq!(control_label(false, FormControlType::Reset, "", None, &[], false), "Reset");
    assert_eq!(control_label(false, FormControlType::Submit, "Send", None, &[], false), "Send");
}

#[test]
fn control_values_follow_attributes_text_and_options() {
    let none: Vec<String> = Vec::new();
    let texts = vec![" Click".to_string(), "me ".to_string()];
    assert_eq!(control_value(Some("v"), true, &texts, FormControlType::Submit, &[]), "v");
    assert_eq!(control_value(None, true, &texts, FormControlType::Submit, &[]), "Click me");
    assert_eq!(control_value(None, false, &texts, FormControlType::Textarea, &[]), " Clickme ");
    assert_eq!(control_value(None, false, &none, FormControlType::Checkbox, &[]), "on");
    assert_eq!(control_value(None, false, &none, FormControlType::Text, &[]), "");
    assert_eq!(control_value(None, false, &none, FormControlType::Button, &[]), "Button");
    let options = vec![
        option("a", "A", true, true),
        option("b", "B", false, false),
        option("c", "C", true, false),
    ];
    assert_eq!(control_value(None, false, &none, FormControlType::Select, &options), "c");
    assert_eq!(
        control_value(None, false, &none, FormControlType::Select, &options[..2]),
        "b"
    );
}

#[test]
fn element_metadata_splits_classes_on_ascii_whitespace() {
    let metadata = element_metadata(7, Some("main"), Some("  card\thighlight\nwide "));
    assert_eq!(metadata.node_id, Some(7));
    assert_eq!(metadata.id.as_deref(), Some("main"));
    assert_eq!(metadata.classes, vec!["card", "highlight", "wide"]);
    let bare = element_metadata(1, None, None);
    assert_eq!(bare.id, None);
    assert!(bare.classes.is_empty());
}

#[test]
fn grid_track_counts_cover_template_and_placements() {
    let cell = |column: usize, row: usize, column_span: usize, row_span: usize| GridPlacement {
        column,
        row,
        column_span,
        row_span,
    };
    let placements = vec![cell(0, 0, 1, 1), cell(1, 2, 2, 1), cell(0, 1, 1, 1)];

    assert_eq!(grid_column_count(2, &placements), 3);
    assert_eq!(grid_row_count(2, &placements), 3);
    assert_eq!(grid_column_count(5, &placements), 5);
    assert_eq!(grid_column_count(0, &[]), 1);
    assert_eq!(grid_row_count(0, &[cell(0, usize::MAX - 1, 1, 4)]), usize::MAX);
}

#[test]
fn first_free_row_is_at_most_one_past_the_last_occupied_row() {
    assert_eq!(first_free_row(&[], 3, 2, 2), 0);
    let occupied = vec![(0, 0), (0, 1), (0, 2)];
    assert_eq!(first_free_row(&occupied, 0, 1, 1), 3);
    assert_eq!(first_free_row(&occupied, 1, 1, 1), 0);
}
