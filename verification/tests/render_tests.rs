use webby::render::{Color, SoftwareRenderBackend, blend_channel, escape_dump_string, format_color, scale_alpha};

#[test]
fn blending_weights_source_and_destination() {
    assert_eq!(blend_channel(200, 100, 255, 0), 200);
    assert_eq!(blend_channel(200, 100, 0, 255), 100);
    assert_eq!(blend_channel(255, 0, 128, 127), 128);
}

#[test]
fn coverage_scales_alpha() {
    assert_eq!(scale_alpha(255, 255), 255);
    assert_eq!(scale_alpha(255, 0), 0);
    assert_eq!(scale_alpha(200, 128), 100);
}

#[test]
fn colors_are_visible_unless_transparent() {
    assert!(Color { r: 0, g: 0, b: 0, a: 1 }.is_visible());
    assert!(!Color { r: 255, g: 255, b: 255, a: 0 }.is_visible());
    assert_eq!(format_color(Color { r: 9, g: 8, b: 7, a: 255 }), "rgba(9,8,7,255)");
}

#[test]
fn backend_and_escaping() {
    assert_eq!(SoftwareRenderBackend.name(), "software");
    assert_eq!(escape_dump_string("a\\b\n\"c\""), "a\\\\b\\n\\\"c\\\"");
}
