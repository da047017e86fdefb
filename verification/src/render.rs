//! Render-facing colors and the channel arithmetic of alpha blending.

use vstd::prelude::*;

verus! {

/// RGBA color.
#[derive(Debug, Clone, Copy, PartialEq, Eq)]
pub struct Color {
    /// Red channel.
    pub r: u8,
    /// Green channel.
    pub g: u8,
    /// Blue channel.
    pub b: u8,
    /// Alpha channel.
    pub a: u8,
}

impl Color {
    /// Whether anything of the color shows: its alpha is not zero.
    pub fn is_visible(self) -> (b: bool)
        ensures
            b == (self.a > 0),
    {
        self.a > 0
    }
}

/// Font weight snapshot for text display commands.
#[derive(Debug, Clone, Copy, PartialEq, Eq)]
pub enum FontWeight {
    /// Normal weight.
    Normal,
    /// Bold weight.
    Bold,
}

/// Font family category.
#[derive(Debug, Clone, Copy, PartialEq, Eq)]
pub enum FontFamily {
    /// Default sans/proportional family.
    Sans,
    /// Deterministic monospace family.
    Monospace,
}

/// Text decoration snapshot for text display commands.
#[derive(Debug, Clone, Copy, PartialEq, Eq)]
pub enum TextDecoration {
    /// No decoration.
    NoDecoration,
    /// Underline decoration.
    Underline,
}

/// Visual state for drawing a text-like form control overlay.
#[derive(Debug, Clone, Copy, PartialEq, Eq)]
pub enum FormControlVisualState {
    /// Normal, unfocused control.
    Normal,
    /// Focused control.
    Focused,
}

/// Deterministic software renderer used by tests, CLI, and the native app.
#[derive(Debug, Clone, Copy, PartialEq, Eq)]
pub struct SoftwareRenderBackend;

impl SoftwareRenderBackend {
    /// Backend name.
    pub fn name(&self) -> (r: &'static str)
        ensures
            r@ == "software"@,
    {
        "software"
    }
}

/// One blended channel: `(source * alpha + destination * inverse) / 255`.
pub fn blend_channel(source: u8, destination: u8, alpha: u16, inverse: u16) -> (r: u8)
    requires
        source * alpha + destination * inverse <= u16::MAX,
    ensures
        r == ((source * alpha + destination * inverse) / 255) as u8,
{
    let blended = source as u16 * alpha + destination as u16 * inverse;
    (blended / 255) as u8
}

/// Blending with complementary weights stays within a channel and is exact
/// at the ends: full alpha gives the source, zero alpha the destination.
pub proof fn lemma_blend_bounds(source: u8, destination: u8, alpha: u16)
    requires
        alpha <= 255,
    ensures
        source * alpha + destination * (255 - alpha) <= u16::MAX,
        (source * alpha + destination * (255 - alpha)) / 255 <= 255,
        alpha == 255 ==> (source * alpha + destination * (255 - alpha)) / 255 == source,
        alpha == 0 ==> (source * alpha + destination * (255 - alpha)) / 255 == destination,
{
    assert(source * alpha + destination * (255 - alpha) <= 255 * 255) by (nonlinear_arith)
        requires
            source <= 255,
            destination <= 255,
            alpha <= 255,
    ;
    if alpha == 255 {
        assert(source * alpha + destination * (255 - alpha) == source * 255) by (nonlinear_arith)
            requires
                alpha == 255,
        ;
    }
    if alpha == 0 {
        assert(source * alpha + destination * (255 - alpha) == destination * 255) by (nonlinear_arith)
            requires
                alpha == 0,
        ;
    }
}

/// Alpha scaled by a coverage: `alpha * coverage / 255`.
pub fn scale_alpha(alpha: u8, coverage: u8) -> (r: u8)
    ensures
        r == (alpha * coverage) / 255,
{
    proof {
        assert(alpha * coverage <= 255 * 255) by (nonlinear_arith)
            requires
                alpha <= 255,
                coverage <= 255,
        ;
    }
    ((alpha as u16 * coverage as u16) / 255) as u8
}

/// Formats a color as `rgba(r,g,b,a)`.
pub fn format_color(color: Color) -> (r: String)
    ensures
        r@ == crate::layout::color_text(
            crate::layout::VisualColor { r: color.r, g: color.g, b: color.b, a: color.a },
        ),
{
    crate::layout::format_color(
        crate::layout::VisualColor { r: color.r, g: color.g, b: color.b, a: color.a },
    )
}

/// Escapes backslashes, quotes and control characters for dumps.
pub fn escape_dump_string(input: &str) -> (r: String)
    ensures
        r@ == crate::extract::escape_dump(input@),
{
    crate::extract::escape_dump_string(input)
}

} // verus!
