//! The value and selector grammar of the small CSS subset: keywords,
//! colors, grid placements, selectors and their specificity.
//!
//! Every parser is forgiving: unsupported input gives `None`, never a panic.

use vstd::prelude::*;
use crate::text::{chars_of, lower, trim, words};

verus! {

/// Non-fatal CSS parser diagnostic.
#[derive(Debug, Clone, PartialEq, Eq)]
pub struct CssDiagnostic {
    /// Byte offset where the parser noticed the issue.
    pub offset: usize,
    /// Human-readable diagnostic.
    pub message: String,
}

/// Supported media types.
#[derive(Debug, Clone, Copy, PartialEq, Eq)]
pub enum MediaType {
    /// `all`
    All,
    /// `screen`
    Screen,
}

/// Supported media orientation values.
#[derive(Debug, Clone, Copy, PartialEq, Eq)]
pub enum Orientation {
    /// Height is greater than or equal to width.
    Portrait,
    /// Width is greater than height.
    Landscape,
}

/// Supported media features.
#[derive(Debug, Clone, Copy, PartialEq, Eq)]
pub enum MediaFeature {
    /// `(min-width: Npx)`
    MinWidth(u32),
    /// `(max-width: Npx)`
    MaxWidth(u32),
    /// `(width: Npx)`
    Width(u32),
    /// `(orientation: portrait|landscape)`
    Orientation(Orientation),
}

/// Supported `@media` query.
#[derive(Debug, Clone, PartialEq, Eq)]
pub struct MediaQuery {
    /// Media type.
    pub media_type: MediaType,
    /// Required media features.
    pub features: Vec<MediaFeature>,
}

/// Supported combinators between compound selectors.
#[derive(Debug, Clone, Copy, PartialEq, Eq)]
pub enum Combinator {
    /// Whitespace descendant combinator.
    Descendant,
    /// `>` child combinator.
    Child,
}

/// Supported pseudo-class selector.
#[derive(Debug, Clone, Copy, PartialEq, Eq)]
pub enum PseudoClass {
    /// `:hover`
    Hover,
    /// `:focus`
    Focus,
    /// `:active`
    Active,
    /// `:checked`
    Checked,
    /// `:disabled`
    Disabled,
    /// `:first-child`
    FirstChild,
    /// `:last-child`
    LastChild,
    /// `:nth-child(n)` with a positive integer.
    NthChild(u32),
}

/// Supported attribute selector.
#[derive(Debug, Clone, PartialEq, Eq)]
pub struct AttributeSelector {
    /// Attribute name.
    pub name: String,
    /// Exact value required when present.
    pub value: Option<String>,
}

impl View for AttributeSelector {
    type V = (Seq<char>, Option<Seq<char>>);

    open spec fn view(&self) -> (Seq<char>, Option<Seq<char>>) {
        (self.name@, crate::extract::opt_text(self.value))
    }
}

/// One compound selector component.
#[derive(Debug, Clone, PartialEq, Eq)]
pub struct SelectorPart {
    /// Universal selector marker.
    pub universal: bool,
    /// Optional tag selector, normalized to lowercase ASCII.
    pub tag_name: Option<String>,
    /// Required class selectors.
    pub classes: Vec<String>,
    /// Optional id selector.
    pub id: Option<String>,
    /// Required attribute selectors.
    pub attributes: Vec<AttributeSelector>,
    /// Required pseudo-class selectors.
    pub pseudo_classes: Vec<PseudoClass>,
}

/// A compound selector as plain values.
pub struct PartModel {
    /// `*` present.
    pub universal: bool,
    /// Tag name.
    pub tag: Option<Seq<char>>,
    /// Classes in order.
    pub classes: Seq<Seq<char>>,
    /// Id.
    pub id: Option<Seq<char>>,
    /// Attribute selectors in order.
    pub attrs: Seq<(Seq<char>, Option<Seq<char>>)>,
    /// Pseudo-classes in order.
    pub pseudos: Seq<PseudoClass>,
}

impl View for SelectorPart {
    type V = PartModel;

    open spec fn view(&self) -> PartModel {
        PartModel {
            universal: self.universal,
            tag: crate::extract::opt_text(self.tag_name),
            classes: crate::js::string_views(self.classes@),
            id: crate::extract::opt_text(self.id),
            attrs: self.attributes@.map_values(|a: AttributeSelector| a@),
            pseudos: self.pseudo_classes@,
        }
    }
}

/// Supported selector.
#[derive(Debug, Clone, PartialEq, Eq)]
pub struct Selector {
    /// Compound selector parts from left to right.
    pub parts: Vec<SelectorPart>,
    /// Combinators between adjacent parts.
    pub combinators: Vec<Combinator>,
}

/// CSS specificity used by the cascade.
#[derive(Debug, Clone, Copy, PartialEq, Eq, PartialOrd, Ord)]
pub struct Specificity {
    /// Number of id selectors.
    pub ids: u16,
    /// Number of class selectors.
    pub classes: u16,
    /// Number of tag selectors.
    pub tags: u16,
}

/// `a + b`, capped at `u16::MAX`.
pub open spec fn sat_add16(a: nat, b: nat) -> nat {
    if a + b > u16::MAX {
        u16::MAX as nat
    } else {
        a + b
    }
}

/// Specificity of the first `k` parts, as (ids, classes, tags), each
/// summed with saturation; a part's class count is capped at `u16::MAX`.
pub open spec fn specificity_of(parts: Seq<PartModel>) -> (nat, nat, nat)
    decreases parts.len(),
{
    if parts.len() == 0 {
        (0, 0, 0)
    } else {
        let (i, c, t) = specificity_of(parts.drop_last());
        let p = parts.last();
        let n = p.classes.len() + p.attrs.len() + p.pseudos.len();
        (
            sat_add16(i, if p.id is Some { 1 } else { 0 }),
            sat_add16(c, if n > u16::MAX { u16::MAX as nat } else { n }),
            sat_add16(t, if p.tag is Some { 1 } else { 0 }),
        )
    }
}

/// `n`, capped at `u16::MAX`.
pub open spec fn cap16(n: nat) -> nat {
    if n > u16::MAX {
        u16::MAX as nat
    } else {
        n
    }
}

/// How many parts have an id, how many class, attribute and pseudo-class
/// selectors they hold together, and how many have a tag.
pub open spec fn selector_counts(parts: Seq<PartModel>) -> (nat, nat, nat)
    decreases parts.len(),
{
    if parts.len() == 0 {
        (0, 0, 0)
    } else {
        let (i, c, t) = selector_counts(parts.drop_last());
        let p = parts.last();
        (
            i + if p.id is Some { 1nat } else { 0nat },
            c + p.classes.len() + p.attrs.len() + p.pseudos.len(),
            t + if p.tag is Some { 1nat } else { 0nat },
        )
    }
}

/// Specificity counts ids, classes (with attributes and pseudo-classes)
/// and tags over all parts, each capped at `u16::MAX`; universal markers
/// and combinators count for nothing.
pub proof fn lemma_specificity_counts(parts: Seq<PartModel>)
    ensures
        ({
            let (i, c, t) = selector_counts(parts);
            specificity_of(parts) == (cap16(i), cap16(c), cap16(t))
        }),
    decreases parts.len(),
{
    if parts.len() > 0 {
        lemma_specificity_counts(parts.drop_last());
    }
}

/// Views of selector parts.
pub open spec fn part_models(s: Seq<SelectorPart>) -> Seq<PartModel> {
    Seq::new(s.len(), |i: int| s[i]@)
}

/// `a + b` on `u16`, saturating.
fn sat_add_u16(a: u16, b: u16) -> (r: u16)
    ensures
        r as nat == sat_add16(a as nat, b as nat),
{
    if a as u32 + b as u32 > 65535 {
        65535
    } else {
        a + b
    }
}

impl Selector {
    /// Specificity tuple: ids, classes/attributes/pseudo-classes, tags.
    pub fn specificity(&self) -> (r: Specificity)
        ensures
            (r.ids as nat, r.classes as nat, r.tags as nat) == specificity_of(
                part_models(self.parts@),
            ),
    {
        let ghost ps = part_models(self.parts@);
        let mut s = Specificity { ids: 0, classes: 0, tags: 0 };
        let mut i: usize = 0;
        proof {
            assert(ps.take(0) =~= Seq::<PartModel>::empty());
        }
        while i < self.parts.len()
            invariant
                i <= self.parts@.len(),
                ps == part_models(self.parts@),
                (s.ids as nat, s.classes as nat, s.tags as nat) == specificity_of(ps.take(i as int)),
            decreases self.parts@.len() - i,
        {
            let part = &self.parts[i];
            proof {
                assert(ps.take(i + 1).drop_last() =~= ps.take(i as int));
                assert(ps.take(i + 1).last() == part@);
            }
            let id_add: u16 = if part.id.is_some() {
                1
            } else {
                0
            };
            let a = part.classes.len();
            let b = part.attributes.len();
            let c = part.pseudo_classes.len();
            let n: u16 = if a > 65535 || b > 65535 || c > 65535 || a + b + c > 65535 {
                65535
            } else {
                (a + b + c) as u16
            };
            let tag_add: u16 = if part.tag_name.is_some() {
                1
            } else {
                0
            };
            s.ids = sat_add_u16(s.ids, id_add);
            s.classes = sat_add_u16(s.classes, n);
            s.tags = sat_add_u16(s.tags, tag_add);
            i += 1;
        }
        proof {
            assert(ps.take(ps.len() as int) =~= ps);
        }
        s
    }
}

/// RGBA color.
#[derive(Debug, Clone, Copy, PartialEq, Eq)]
pub struct Color {
    /// Red channel.
    pub r: u8,
    /// Green channel.
    pub g: u8,
    /// Blue channel.
    pub b: u8,
    /// Alpha channel.
    pub a: u8,
}

/// CSS font family category.
#[derive(Debug, Clone, Copy, PartialEq, Eq)]
pub enum FontFamily {
    /// Default sans/proportional family.
    Sans,
    /// Deterministic monospace family.
    Monospace,
}

/// CSS text alignment.
#[derive(Debug, Clone, Copy, PartialEq, Eq)]
pub enum TextAlign {
    /// Start/left alignment.
    Left,
    /// Center alignment.
    Center,
    /// Right alignment.
    Right,
}

/// CSS white-space behavior.
#[derive(Debug, Clone, Copy, PartialEq, Eq)]
pub enum WhiteSpace {
    /// Collapse whitespace and wrap normally.
    Normal,
    /// Preserve spaces/newlines.
    Pre,
    /// Collapse whitespace but avoid wrapping.
    NoWrap,
}

/// CSS positioning mode.
#[derive(Debug, Clone, Copy, PartialEq, Eq)]
pub enum Position {
    /// Normal flow.
    Static,
    /// Normal flow with visual offset.
    Relative,
    /// Removed from normal flow and placed against a containing block.
    Absolute,
}

/// Flex main-axis direction.
#[derive(Debug, Clone, Copy, PartialEq, Eq)]
pub enum FlexDirection {
    /// Left-to-right row.
    Row,
    /// Top-to-bottom column.
    Column,
}

/// Flex main-axis alignment.
#[derive(Debug, Clone, Copy, PartialEq, Eq)]
pub enum JustifyContent {
    /// Start of main axis.
    FlexStart,
    /// Centered on main axis.
    Center,
    /// Remaining space distributed between items.
    SpaceBetween,
}

/// Flex cross-axis alignment.
#[derive(Debug, Clone, Copy, PartialEq, Eq)]
pub enum AlignItems {
    /// Stretch items on cross axis.
    Stretch,
    /// Center items on cross axis.
    Center,
    /// Start of cross axis.
    FlexStart,
}

/// Font weight value.
#[derive(Debug, Clone, Copy, PartialEq, Eq)]
pub enum FontWeight {
    /// `normal`
    Normal,
    /// `bold`
    Bold,
}

/// Text decoration value.
#[derive(Debug, Clone, Copy, PartialEq, Eq)]
pub enum TextDecoration {
    /// `none`
    NoDecoration,
    /// `underline`
    Underline,
}

/// Display value.
#[derive(Debug, Clone, Copy, PartialEq, Eq)]
pub enum Display {
    /// `block`
    Block,
    /// `inline`
    Inline,
    /// `inline-block`
    InlineBlock,
    /// `flex`
    Flex,
    /// `grid`
    Grid,
    /// `none`
    NoDisplay,
}

/// Supported grid line placement.
#[derive(Debug, Clone, Copy, PartialEq, Eq)]
pub struct GridPlacement {
    /// 1-based start grid line.
    pub start: Option<usize>,
    /// 1-based end grid line.
    pub end: Option<usize>,
}

/// Supported transition target property.
#[derive(Debug, Clone, Copy, PartialEq, Eq)]
pub enum TransitionProperty {
    /// `all`
    All,
    /// `color`
    Color,
    /// `background-color`/`background`
    BackgroundColor,
    /// `left`
    Left,
    /// `top`
    Top,
}

/// Supported transition timing functions.
#[derive(Debug, Clone, Copy, PartialEq, Eq)]
pub enum TransitionTimingFunction {
    /// Linear interpolation.
    Linear,
    /// Deterministic smoothstep-like easing.
    Ease,
}

/// Parsed single-transition shorthand.
#[derive(Debug, Clone, PartialEq, Eq)]
pub struct TransitionValue {
    /// Property list from the shorthand.
    pub properties: Vec<TransitionProperty>,
    /// Duration in milliseconds.
    pub duration_ms: u32,
    /// Delay in milliseconds.
    pub delay_ms: u32,
    /// Timing function.
    pub timing_function: TransitionTimingFunction,
}

/// Visibility value.
#[derive(Debug, Clone, Copy, PartialEq, Eq)]
pub enum Visibility {
    /// `visible`
    Visible,
    /// `hidden`
    Hidden,
}

/// Box sizing value.
#[derive(Debug, Clone, Copy, PartialEq, Eq)]
pub enum BoxSizing {
    /// Width/height describe content box.
    ContentBox,
    /// Width/height describe border box.
    BorderBox,
}

/// Supported CSS properties.
#[derive(Debug, Clone, Copy, PartialEq, Eq)]
pub enum Property {
    /// `color`
    Color,
    /// `background` shorthand when it contains a supported color.
    Background,
    /// `background-color`
    BackgroundColor,
    /// `font-size`
    FontSize,
    /// `font-family`
    FontFamily,
    /// `font-weight`
    FontWeight,
    /// `line-height`
    LineHeight,
    /// `text-align`
    TextAlign,
    /// `white-space`
    WhiteSpace,
    /// `text-decoration`
    TextDecoration,
    /// `display`
    Display,
    /// `visibility`
    Visibility,
    /// `margin`
    Margin,
    /// `padding`
    Padding,
    /// `border` shorthand with supported width/color values.
    Border,
    /// `border-width`
    BorderWidth,
    /// `border-color`
    BorderColor,
    /// `width`
    Width,
    /// `height`
    Height,
    /// `min-width`
    MinWidth,
    /// `max-width`
    MaxWidth,
    /// `min-height`
    MinHeight,
    /// `max-height`
    MaxHeight,
    /// `box-sizing`
    BoxSizing,
    /// `position`
    Position,
    /// `top`
    Top,
    /// `right`
    Right,
    /// `bottom`
    Bottom,
    /// `left`
    Left,
    /// `flex-direction`
    FlexDirection,
    /// `gap`
    Gap,
    /// `row-gap`
    RowGap,
    /// `column-gap`
    ColumnGap,
    /// `grid-template-columns`
    GridTemplateColumns,
    /// `grid-template-rows`
    GridTemplateRows,
    /// `grid-column`
    GridColumn,
    /// `grid-row`
    GridRow,
    /// `justify-content`
    JustifyContent,
    /// `align-items`
    AlignItems,
    /// `flex-grow`
    FlexGrow,
    /// `flex`
    Flex,
    /// `transition-property`
    TransitionProperty,
    /// `transition-duration`
    TransitionDuration,
    /// `transition-delay`
    TransitionDelay,
    /// `transition-timing-function`
    TransitionTimingFunction,
    /// `transition` shorthand.
    Transition,
}

/// A keyword value: trimmed and ASCII-lowercased.
pub open spec fn keyword(v: Seq<char>) -> Seq<char> {
    lower(trim(v))
}

/// The keyword of `value` as characters.
fn keyword_exec(value: &str) -> (r: Vec<char>)
    ensures
        r@ == keyword(value@),
{
    crate::text::trimmed_lower_chars(value)
}

/// The property a declaration names, by its keyword.
pub open spec fn property_of(k: Seq<char>) -> Option<Property> {
    if k == "color"@ {
        Some(Property::Color)
    } else if k == "background"@ {
        Some(Property::Background)
    } else if k == "background-color"@ {
        Some(Property::BackgroundColor)
    } else if k == "font-size"@ {
        Some(Property::FontSize)
    } else if k == "font-family"@ {
        Some(Property::FontFamily)
    } else if k == "font-weight"@ {
        Some(Property::FontWeight)
    } else if k == "line-height"@ {
        Some(Property::LineHeight)
    } else if k == "text-align"@ {
        Some(Property::TextAlign)
    } else if k == "white-space"@ {
        Some(Property::WhiteSpace)
    } else if k == "text-decoration"@ {
        Some(Property::TextDecoration)
    } else if k == "display"@ {
        Some(Property::Display)
    } else if k == "visibility"@ {
        Some(Property::Visibility)
    } else if k == "margin"@ {
        Some(Property::Margin)
    } else if k == "padding"@ {
        Some(Property::Padding)
    } else if k == "border"@ {
        Some(Property::Border)
    } else if k == "border-width"@ {
        Some(Property::BorderWidth)
    } else if k == "border-color"@ {
        Some(Property::BorderColor)
    } else if k == "width"@ {
        Some(Property::Width)
    } else if k == "height"@ {
        Some(Property::Height)
    } else if k == "min-width"@ {
        Some(Property::MinWidth)
    } else if k == "max-width"@ {
        Some(Property::MaxWidth)
    } else if k == "min-height"@ {
        Some(Property::MinHeight)
    } else if k == "max-height"@ {
        Some(Property::MaxHeight)
    } else if k == "box-sizing"@ {
        Some(Property::BoxSizing)
    } else if k == "position"@ {
        Some(Property::Position)
    } else if k == "top"@ {
        Some(Property::Top)
    } else if k == "right"@ {
        Some(Property::Right)
    } else if k == "bottom"@ {
        Some(Property::Bottom)
    } else if k == "left"@ {
        Some(Property::Left)
    } else if k == "flex-direction"@ {
        Some(Property::FlexDirection)
    } else if k == "gap"@ {
        Some(Property::Gap)
    } else if k == "row-gap"@ {
        Some(Property::RowGap)
    } else if k == "column-gap"@ {
        Some(Property::ColumnGap)
    } else if k == "grid-template-columns"@ {
        Some(Property::GridTemplateColumns)
    } else if k == "grid-template-rows"@ {
        Some(Property::GridTemplateRows)
    } else if k == "grid-column"@ {
        Some(Property::GridColumn)
    } else if k == "grid-row"@ {
        Some(Property::GridRow)
    } else if k == "justify-content"@ {
        Some(Property::JustifyContent)
    } else if k == "align-items"@ {
        Some(Property::AlignItems)
    } else if k == "flex-grow"@ {
        Some(Property::FlexGrow)
    } else if k == "flex"@ {
        Some(Property::Flex)
    } else if k == "transition-property"@ {
        Some(Property::TransitionProperty)
    } else if k == "transition-duration"@ {
        Some(Property::TransitionDuration)
    } else if k == "transition-delay"@ {
        Some(Property::TransitionDelay)
    } else if k == "transition-timing-function"@ {
        Some(Property::TransitionTimingFunction)
    } else if k == "transition"@ {
        Some(Property::Transition)
    } else {
        None
    }
}

/// The supported property that a declaration's property name denotes,
/// compared as a trimmed, ASCII-lowercased keyword.
pub fn parse_property(name: &str) -> (r: Option<Property>)
    ensures
        r == property_of(keyword(name@)),
{
    let k = keyword_exec(name);
    if crate::text::vec_eq_str(&k, "color") {
        Some(Property::Color)
    } else if crate::text::vec_eq_str(&k, "background") {
        Some(Property::Background)
    } else if crate::text::vec_eq_str(&k, "background-color") {
        Some(Property::BackgroundColor)
    } else if crate::text::vec_eq_str(&k, "font-size") {
        Some(Property::FontSize)
    } else if crate::text::vec_eq_str(&k, "font-family") {
        Some(Property::FontFamily)
    } else if crate::text::vec_eq_str(&k, "font-weight") {
        Some(Property::FontWeight)
    } else if crate::text::vec_eq_str(&k, "line-height") {
        Some(Property::LineHeight)
    } else if crate::text::vec_eq_str(&k, "text-align") {
        Some(Property::TextAlign)
    } else if crate::text::vec_eq_str(&k, "white-space") {
        Some(Property::WhiteSpace)
    } else if crate::text::vec_eq_str(&k, "text-decoration") {
        Some(Property::TextDecoration)
    } else if crate::text::vec_eq_str(&k, "display") {
        Some(Property::Display)
    } else if crate::text::vec_eq_str(&k, "visibility") {
        Some(Property::Visibility)
    } else if crate::text::vec_eq_str(&k, "margin") {
        Some(Property::Margin)
    } else if crate::text::vec_eq_str(&k, "padding") {
        Some(Property::Padding)
    } else if crate::text::vec_eq_str(&k, "border") {
        Some(Property::Border)
    } else if crate::text::vec_eq_str(&k, "border-width") {
        Some(Property::BorderWidth)
    } else if crate::text::vec_eq_str(&k, "border-color") {
        Some(Property::BorderColor)
    } else if crate::text::vec_eq_str(&k, "width") {
        Some(Property::Width)
    } else if crate::text::vec_eq_str(&k, "height") {
        Some(Property::Height)
    } else if crate::text::vec_eq_str(&k, "min-width") {
        Some(Property::MinWidth)
    } else if crate::text::vec_eq_str(&k, "max-width") {
        Some(Property::MaxWidth)
    } else if crate::text::vec_eq_str(&k, "min-height") {
        Some(Property::MinHeight)
    } else if crate::text::vec_eq_str(&k, "max-height") {
        Some(Property::MaxHeight)
    } else if crate::text::vec_eq_str(&k, "box-sizing") {
        Some(Property::BoxSizing)
    } else if crate::text::vec_eq_str(&k, "position") {
        Some(Property::Position)
    } else if crate::text::vec_eq_str(&k, "top") {
        Some(Property::Top)
    } else if crate::text::vec_eq_str(&k, "right") {
        Some(Property::Right)
    } else if crate::text::vec_eq_str(&k, "bottom") {
        Some(Property::Bottom)
    } else if crate::text::vec_eq_str(&k, "left") {
        Some(Property::Left)
    } else if crate::text::vec_eq_str(&k, "flex-direction") {
        Some(Property::FlexDirection)
    } else if crate::text::vec_eq_str(&k, "gap") {
        Some(Property::Gap)
    } else if crate::text::vec_eq_str(&k, "row-gap") {
        Some(Property::RowGap)
    } else if crate::text::vec_eq_str(&k, "column-gap") {
        Some(Property::ColumnGap)
    } else if crate::text::vec_eq_str(&k, "grid-template-columns") {
        Some(Property::GridTemplateColumns)
    } else if crate::text::vec_eq_str(&k, "grid-template-rows") {
        Some(Property::GridTemplateRows)
    } else if crate::text::vec_eq_str(&k, "grid-column") {
        Some(Property::GridColumn)
    } else if crate::text::vec_eq_str(&k, "grid-row") {
        Some(Property::GridRow)
    } else if crate::text::vec_eq_str(&k, "justify-content") {
        Some(Property::JustifyContent)
    } else if crate::text::vec_eq_str(&k, "align-items") {
        Some(Property::AlignItems)
    } else if crate::text::vec_eq_str(&k, "flex-grow") {
        Some(Property::FlexGrow)
    } else if crate::text::vec_eq_str(&k, "flex") {
        Some(Property::Flex)
    } else if crate::text::vec_eq_str(&k, "transition-property") {
        Some(Property::TransitionProperty)
    } else if crate::text::vec_eq_str(&k, "transition-duration") {
        Some(Property::TransitionDuration)
    } else if crate::text::vec_eq_str(&k, "transition-delay") {
        Some(Property::TransitionDelay)
    } else if crate::text::vec_eq_str(&k, "transition-timing-function") {
        Some(Property::TransitionTimingFunction)
    } else if crate::text::vec_eq_str(&k, "transition") {
        Some(Property::Transition)
    } else {
        None
    }
}

/// What a `transition` shorthand has read so far: its properties, its
/// duration and delay, and its timing function.
pub type TransitionReading = (
    Seq<TransitionProperty>,
    Option<u32>,
    Option<u32>,
    Option<TransitionTimingFunction>,
);

/// Reads one word of a `transition` shorthand, whose time in milliseconds
/// is `time` if it is one: the first time is the duration and the second
/// the delay; otherwise the word is the timing function, if there is none
/// yet, or else the one property, if there is none yet.
pub open spec fn transition_step(st: TransitionReading, word: Seq<char>, time: Option<u32>) -> Option<
    TransitionReading,
> {
    let (props, duration, delay, timing) = st;
    match time {
        Some(t) => if duration is None {
            Some((props, Some(t), delay, timing))
        } else if delay is None {
            Some((props, duration, Some(t), timing))
        } else {
            None
        },
        None => if timing is None && timing_function_of(keyword(word)) is Some {
            Some((props, duration, delay, timing_function_of(keyword(word))))
        } else if props.len() == 0 && transition_property_of(word) is Some {
            Some((seq![transition_property_of(word)->0], duration, delay, timing))
        } else {
            None
        },
    }
}

/// The reading after the first `k` words.
pub open spec fn transition_reading(words: Seq<Seq<char>>, times: Seq<Option<u32>>, k: int) -> Option<
    TransitionReading,
>
    decreases k,
{
    if k <= 0 {
        Some((Seq::empty(), None, None, None))
    } else {
        match transition_reading(words, times, k - 1) {
            Some(st) => transition_step(st, words[k - 1], times[k - 1]),
            None => None,
        }
    }
}

/// A `transition` shorthand of the given words and their times: it needs a
/// duration; the delay defaults to zero, the timing function to `ease` and
/// the properties to `all`.
pub open spec fn transition_of(words: Seq<Seq<char>>, times: Seq<Option<u32>>) -> Option<
    (Seq<TransitionProperty>, u32, u32, TransitionTimingFunction),
> {
    match transition_reading(words, times, words.len() as int) {
        Some((props, Some(duration), delay, timing)) => Some(
            (
                if props.len() == 0 {
                    seq![TransitionProperty::All]
                } else {
                    props
                },
                duration,
                match delay {
                    Some(d) => d,
                    None => 0,
                },
                match timing {
                    Some(f) => f,
                    None => TransitionTimingFunction::Ease,
                },
            ),
        ),
        _ => None,
    }
}

/// Once a reading fails, it stays failed.
proof fn lemma_transition_reading_fails(words: Seq<Seq<char>>, times: Seq<Option<u32>>, k: int, j: int)
    requires
        0 <= k <= j,
        transition_reading(words, times, k) is None,
    ensures
        transition_reading(words, times, j) is None,
    decreases j - k,
{
    if k < j {
        lemma_transition_reading_fails(words, times, k, j - 1);
    }
}

/// Reads a `transition` shorthand from its whitespace-separated words,
/// given the time in milliseconds that each word states, if it states one
/// (`times` holds one entry per word; with any other number the value is
/// refused).
pub fn transition_from_words(value: &str, times: &[Option<u32>]) -> (r: Option<TransitionValue>)
    ensures
        match r {
            Some(t) => times@.len() == words(value@, false).len() && transition_of(
                words(value@, false),
                times@,
            ) == Some((t.properties@, t.duration_ms, t.delay_ms, t.timing_function)),
            None => times@.len() != words(value@, false).len() || transition_of(
                words(value@, false),
                times@,
            ) is None,
        },
{
    let v = chars_of(value);
    let ws = crate::text::split_words(&v, false);
    let ghost wv = words(value@, false);
    if ws.len() != times.len() {
        return None;
    }
    let mut props: Vec<TransitionProperty> = Vec::new();
    let mut duration: Option<u32> = None;
    let mut delay: Option<u32> = None;
    let mut timing: Option<TransitionTimingFunction> = None;
    let mut k: usize = 0;
    while k < ws.len()
        invariant
            k <= ws@.len(),
            wv == words(value@, false),
            ws@.len() == times@.len() == wv.len(),
            forall|j: int| 0 <= j < ws@.len() ==> #[trigger] ws@[j]@ == wv[j],
            transition_reading(wv, times@, k as int) == Some((props@, duration, delay, timing)),
        decreases ws@.len() - k,
    {
        let word = crate::text::string_of(&ws[k]);
        proof {
            assert(word@ == wv[k as int]);
        }
        match times[k] {
            Some(t) => {
                if duration.is_none() {
                    duration = Some(t);
                } else if delay.is_none() {
                    delay = Some(t);
                } else {
                    proof {
                        assert(transition_reading(wv, times@, k + 1) is None);
                        lemma_transition_reading_fails(wv, times@, k + 1, wv.len() as int);
                    }
                    return None;
                }
            },
            None => {
                let mut read = false;
                if timing.is_none() {
                    match parse_transition_timing_function(word.as_str()) {
                        Some(f) => {
                            timing = Some(f);
                            read = true;
                        },
                        None => {},
                    }
                }
                if !read && props.len() == 0 {
                    match parse_transition_property(word.as_str()) {
                        Some(p) => {
                            props.push(p);
                            proof {
                                assert(props@ =~= seq![p]);
                            }
                            read = true;
                        },
                        None => {},
                    }
                }
                if !read {
                    proof {
                        assert(transition_reading(wv, times@, k + 1) is None);
                        lemma_transition_reading_fails(wv, times@, k + 1, wv.len() as int);
                    }
                    return None;
                }
            },
        }
        k += 1;
    }
    let duration_ms = match duration {
        Some(d) => d,
        None => {
            return None;
        },
    };
    let properties = if props.len() == 0 {
        vec![TransitionProperty::All]
    } else {
        props
    };
    let delay_ms = match delay {
        Some(d) => d,
        None => 0,
    };
    let timing_function = match timing {
        Some(f) => f,
        None => TransitionTimingFunction::Ease,
    };
    proof {
        if props@.len() == 0 {
            assert(properties@ =~= seq![TransitionProperty::All]);
        }
    }
    Some(TransitionValue { properties, duration_ms, delay_ms, timing_function })
}

/// Reads one word of a `border` shorthand (the `k`-th; `length` tells
/// whether it is a length): the first length is the width, then the first
/// color is the color; `solid` and `none` are allowed anywhere.
pub open spec fn border_step(st: (Option<int>, Option<Color>), k: int, word: Seq<char>, length: bool) -> Option<
    (Option<int>, Option<Color>),
> {
    if st.0 is None && length {
        Some((Some(k), st.1))
    } else if st.1 is None && color_of(word) is Some {
        Some((st.0, color_of(word)))
    } else if lower(word) == "solid"@ || lower(word) == "none"@ {
        Some(st)
    } else {
        None
    }
}

/// The reading of a `border` shorthand after its first `k` words.
pub open spec fn border_reading(words: Seq<Seq<char>>, lengths: Seq<bool>, k: int) -> Option<
    (Option<int>, Option<Color>),
>
    decreases k,
{
    if k <= 0 {
        Some((None, None))
    } else {
        match border_reading(words, lengths, k - 1) {
            Some(st) => border_step(st, k - 1, words[k - 1], lengths[k - 1]),
            None => None,
        }
    }
}

/// A `border` shorthand: which word is its width and what its color is;
/// it needs at least one of the two.
pub open spec fn border_of(words: Seq<Seq<char>>, lengths: Seq<bool>) -> Option<(Option<int>, Option<Color>)> {
    match border_reading(words, lengths, words.len() as int) {
        Some(st) => if st.0 is Some || st.1 is Some {
            Some(st)
        } else {
            None
        },
        None => None,
    }
}

/// Once a border reading fails, it stays failed.
proof fn lemma_border_reading_fails(words: Seq<Seq<char>>, lengths: Seq<bool>, k: int, j: int)
    requires
        0 <= k <= j,
        border_reading(words, lengths, k) is None,
    ensures
        border_reading(words, lengths, j) is None,
    decreases j - k,
{
    if k < j {
        lemma_border_reading_fails(words, lengths, k, j - 1);
    }
}

/// Reads a `border` shorthand from its whitespace-separated words, given
/// whether each word is a length (`lengths` holds one entry per word; with
/// any other number the value is refused): the index of the word that is
/// the width, and the color.
pub fn border_from_words(value: &str, lengths: &[bool]) -> (r: Option<(Option<usize>, Option<Color>)>)
    ensures
        match r {
            Some((w, c)) => lengths@.len() == words(value@, false).len() && border_of(
                words(value@, false),
                lengths@,
            ) == Some(
                (
                    match w {
                        Some(k) => Some(k as int),
                        None => None,
                    },
                    c,
                ),
            ),
            None => lengths@.len() != words(value@, false).len() || border_of(
                words(value@, false),
                lengths@,
            ) is None,
        },
{
    let v = chars_of(value);
    let ws = crate::text::split_words(&v, false);
    let ghost wv = words(value@, false);
    if ws.len() != lengths.len() {
        return None;
    }
    let mut width: Option<usize> = None;
    let mut color: Option<Color> = None;
    let mut k: usize = 0;
    while k < ws.len()
        invariant
            k <= ws@.len(),
            wv == words(value@, false),
            ws@.len() == lengths@.len() == wv.len(),
            forall|j: int| 0 <= j < ws@.len() ==> #[trigger] ws@[j]@ == wv[j],
            border_reading(wv, lengths@, k as int) == Some(
                (
                    match width {
                        Some(i) => Some(i as int),
                        None => None,
                    },
                    color,
                ),
            ),
        decreases ws@.len() - k,
    {
        let word = crate::text::string_of(&ws[k]);
        proof {
            assert(word@ == wv[k as int]);
        }
        if width.is_none() && lengths[k] {
            width = Some(k);
        } else {
            let mut read = false;
            if color.is_none() {
                match parse_color(word.as_str()) {
                    Some(c) => {
                        color = Some(c);
                        read = true;
                    },
                    None => {},
                }
            }
            if !read {
                let lowered = crate::text::lower_vec(&ws[k]);
                if !crate::text::vec_eq_str(&lowered, "solid") && !crate::text::vec_eq_str(
                    &lowered,
                    "none",
                ) {
                    proof {
                        assert(border_reading(wv, lengths@, k + 1) is None);
                        lemma_border_reading_fails(wv, lengths@, k + 1, wv.len() as int);
                    }
                    return None;
                }
            }
        }
        k += 1;
    }
    if width.is_none() && color.is_none() {
        return None;
    }
    Some((width, color))
}

/// Which of `count` edge values gives the top, right, bottom and left
/// edge, as the `margin` and `padding` shorthands spread one to four
/// values.
pub open spec fn edge_sides_of(count: int) -> Option<(int, int, int, int)> {
    if count == 1 {
        Some((0, 0, 0, 0))
    } else if count == 2 {
        Some((0, 1, 0, 1))
    } else if count == 3 {
        Some((0, 1, 2, 1))
    } else if count == 4 {
        Some((0, 1, 2, 3))
    } else {
        None
    }
}

/// Spreads `count` edge values over the four edges (see `edge_sides_of`).
pub fn edge_sides(count: usize) -> (r: Option<(usize, usize, usize, usize)>)
    ensures
        match r {
            Some((t, rt, b, l)) => edge_sides_of(count as int) == Some(
                (t as int, rt as int, b as int, l as int),
            ),
            None => edge_sides_of(count as int) is None,
        },
{
    if count == 1 {
        Some((0, 0, 0, 0))
    } else if count == 2 {
        Some((0, 1, 0, 1))
    } else if count == 3 {
        Some((0, 1, 2, 1))
    } else if count == 4 {
        Some((0, 1, 2, 3))
    } else {
        None
    }
}

/// `orientation` keywords of media features.
pub open spec fn orientation_of(k: Seq<char>) -> Option<Orientation> {
    if k == "portrait"@ {
        Some(Orientation::Portrait)
    } else if k == "landscape"@ {
        Some(Orientation::Landscape)
    } else {
        None
    }
}

/// Parses the value of an `orientation` media feature.
pub fn parse_orientation(value: &str) -> (r: Option<Orientation>)
    ensures
        r == orientation_of(keyword(value@)),
{
    let k = keyword_exec(value);
    if crate::text::vec_eq_str(&k, "portrait") {
        Some(Orientation::Portrait)
    } else if crate::text::vec_eq_str(&k, "landscape") {
        Some(Orientation::Landscape)
    } else {
        None
    }
}

/// `display` keywords.
pub open spec fn display_of(k: Seq<char>) -> Option<Display> {
    if k == "block"@ {
        Some(Display::Block)
    } else if k == "inline"@ {
        Some(Display::Inline)
    } else if k == "inline-block"@ {
        Some(Display::InlineBlock)
    } else if k == "flex"@ {
        Some(Display::Flex)
    } else if k == "grid"@ {
        Some(Display::Grid)
    } else if k == "none"@ {
        Some(Display::NoDisplay)
    } else {
        None
    }
}

/// Parses a `display` value.
pub fn parse_display(value: &str) -> (r: Option<Display>)
    ensures
        r == display_of(keyword(value@)),
{
    let k = keyword_exec(value);
    if crate::text::vec_eq_str(&k, "block") {
        Some(Display::Block)
    } else if crate::text::vec_eq_str(&k, "inline") {
        Some(Display::Inline)
    } else if crate::text::vec_eq_str(&k, "inline-block") {
        Some(Display::InlineBlock)
    } else if crate::text::vec_eq_str(&k, "flex") {
        Some(Display::Flex)
    } else if crate::text::vec_eq_str(&k, "grid") {
        Some(Display::Grid)
    } else if crate::text::vec_eq_str(&k, "none") {
        Some(Display::NoDisplay)
    } else {
        None
    }
}

/// `box-sizing` keywords.
pub open spec fn box_sizing_of(k: Seq<char>) -> Option<BoxSizing> {
    if k == "content-box"@ {
        Some(BoxSizing::ContentBox)
    } else if k == "border-box"@ {
        Some(BoxSizing::BorderBox)
    } else {
        None
    }
}

/// Parses a `box-sizing` value.
pub fn parse_box_sizing(value: &str) -> (r: Option<BoxSizing>)
    ensures
        r == box_sizing_of(keyword(value@)),
{
    let k = keyword_exec(value);
    if crate::text::vec_eq_str(&k, "content-box") {
        Some(BoxSizing::ContentBox)
    } else if crate::text::vec_eq_str(&k, "border-box") {
        Some(BoxSizing::BorderBox)
    } else {
        None
    }
}

/// `position` keywords.
pub open spec fn position_of(k: Seq<char>) -> Option<Position> {
    if k == "static"@ {
        Some(Position::Static)
    } else if k == "relative"@ {
        Some(Position::Relative)
    } else if k == "absolute"@ {
        Some(Position::Absolute)
    } else {
        None
    }
}

/// Parses a `position` value.
pub fn parse_position(value: &str) -> (r: Option<Position>)
    ensures
        r == position_of(keyword(value@)),
{
    let k = keyword_exec(value);
    if crate::text::vec_eq_str(&k, "static") {
        Some(Position::Static)
    } else if crate::text::vec_eq_str(&k, "relative") {
        Some(Position::Relative)
    } else if crate::text::vec_eq_str(&k, "absolute") {
        Some(Position::Absolute)
    } else {
        None
    }
}

/// `flex-direction` keywords.
pub open spec fn flex_direction_of(k: Seq<char>) -> Option<FlexDirection> {
    if k == "row"@ {
        Some(FlexDirection::Row)
    } else if k == "column"@ {
        Some(FlexDirection::Column)
    } else {
        None
    }
}

/// Parses a `flex-direction` value.
pub fn parse_flex_direction(value: &str) -> (r: Option<FlexDirection>)
    ensures
        r == flex_direction_of(keyword(value@)),
{
    let k = keyword_exec(value);
    if crate::text::vec_eq_str(&k, "row") {
        Some(FlexDirection::Row)
    } else if crate::text::vec_eq_str(&k, "column") {
        Some(FlexDirection::Column)
    } else {
        None
    }
}

/// `justify-content` keywords.
pub open spec fn justify_content_of(k: Seq<char>) -> Option<JustifyContent> {
    if k == "flex-start"@ {
        Some(JustifyContent::FlexStart)
    } else if k == "center"@ {
        Some(JustifyContent::Center)
    } else if k == "space-between"@ {
        Some(JustifyContent::SpaceBetween)
    } else {
        None
    }
}

/// Parses a `justify-content` value.
pub fn parse_justify_content(value: &str) -> (r: Option<JustifyContent>)
    ensures
        r == justify_content_of(keyword(value@)),
{
    let k = keyword_exec(value);
    if crate::text::vec_eq_str(&k, "flex-start") {
        Some(JustifyContent::FlexStart)
    } else if crate::text::vec_eq_str(&k, "center") {
        Some(JustifyContent::Center)
    } else if crate::text::vec_eq_str(&k, "space-between") {
        Some(JustifyContent::SpaceBetween)
    } else {
        None
    }
}

/// `align-items` keywords.
pub open spec fn align_items_of(k: Seq<char>) -> Option<AlignItems> {
    if k == "stretch"@ {
        Some(AlignItems::Stretch)
    } else if k == "center"@ {
        Some(AlignItems::Center)
    } else if k == "flex-start"@ {
        Some(AlignItems::FlexStart)
    } else {
        None
    }
}

/// Parses an `align-items` value.
pub fn parse_align_items(value: &str) -> (r: Option<AlignItems>)
    ensures
        r == align_items_of(keyword(value@)),
{
    let k = keyword_exec(value);
    if crate::text::vec_eq_str(&k, "stretch") {
        Some(AlignItems::Stretch)
    } else if crate::text::vec_eq_str(&k, "center") {
        Some(AlignItems::Center)
    } else if crate::text::vec_eq_str(&k, "flex-start") {
        Some(AlignItems::FlexStart)
    } else {
        None
    }
}

/// `font-weight` keywords.
pub open spec fn font_weight_of(k: Seq<char>) -> Option<FontWeight> {
    if k == "normal"@ || k == "400"@ {
        Some(FontWeight::Normal)
    } else if k == "bold"@ || k == "700"@ {
        Some(FontWeight::Bold)
    } else {
        None
    }
}

/// Parses a `font-weight` value.
pub fn parse_font_weight(value: &str) -> (r: Option<FontWeight>)
    ensures
        r == font_weight_of(keyword(value@)),
{
    let k = keyword_exec(value);
    if crate::text::vec_eq_str(&k, "normal") || crate::text::vec_eq_str(&k, "400") {
        Some(FontWeight::Normal)
    } else if crate::text::vec_eq_str(&k, "bold") || crate::text::vec_eq_str(&k, "700") {
        Some(FontWeight::Bold)
    } else {
        None
    }
}

/// `text-align` keywords.
pub open spec fn text_align_of(k: Seq<char>) -> Option<TextAlign> {
    if k == "left"@ || k == "start"@ {
        Some(TextAlign::Left)
    } else if k == "center"@ {
        Some(TextAlign::Center)
    } else if k == "right"@ || k == "end"@ {
        Some(TextAlign::Right)
    } else {
        None
    }
}

/// Parses a `text-align` value.
pub fn parse_text_align(value: &str) -> (r: Option<TextAlign>)
    ensures
        r == text_align_of(keyword(value@)),
{
    let k = keyword_exec(value);
    if crate::text::vec_eq_str(&k, "left") || crate::text::vec_eq_str(&k, "start") {
        Some(TextAlign::Left)
    } else if crate::text::vec_eq_str(&k, "center") {
        Some(TextAlign::Center)
    } else if crate::text::vec_eq_str(&k, "right") || crate::text::vec_eq_str(&k, "end") {
        Some(TextAlign::Right)
    } else {
        None
    }
}

/// `white-space` keywords.
pub open spec fn white_space_of(k: Seq<char>) -> Option<WhiteSpace> {
    if k == "normal"@ {
        Some(WhiteSpace::Normal)
    } else if k == "pre"@ {
        Some(WhiteSpace::Pre)
    } else if k == "nowrap"@ {
        Some(WhiteSpace::NoWrap)
    } else {
        None
    }
}

/// Parses a `white-space` value.
pub fn parse_white_space(value: &str) -> (r: Option<WhiteSpace>)
    ensures
        r == white_space_of(keyword(value@)),
{
    let k = keyword_exec(value);
    if crate::text::vec_eq_str(&k, "normal") {
        Some(WhiteSpace::Normal)
    } else if crate::text::vec_eq_str(&k, "pre") {
        Some(WhiteSpace::Pre)
    } else if crate::text::vec_eq_str(&k, "nowrap") {
        Some(WhiteSpace::NoWrap)
    } else {
        None
    }
}

/// `text-decoration` keywords.
pub open spec fn text_decoration_of(k: Seq<char>) -> Option<TextDecoration> {
    if k == "none"@ {
        Some(TextDecoration::NoDecoration)
    } else if k == "underline"@ {
        Some(TextDecoration::Underline)
    } else {
        None
    }
}

/// Parses a `text-decoration` value.
pub fn parse_text_decoration(value: &str) -> (r: Option<TextDecoration>)
    ensures
        r == text_decoration_of(keyword(value@)),
{
    let k = keyword_exec(value);
    if crate::text::vec_eq_str(&k, "none") {
        Some(TextDecoration::NoDecoration)
    } else if crate::text::vec_eq_str(&k, "underline") {
        Some(TextDecoration::Underline)
    } else {
        None
    }
}

/// `visibility` keywords.
pub open spec fn visibility_of(k: Seq<char>) -> Option<Visibility> {
    if k == "visible"@ {
        Some(Visibility::Visible)
    } else if k == "hidden"@ {
        Some(Visibility::Hidden)
    } else {
        None
    }
}

/// Parses a `visibility` value.
pub fn parse_visibility(value: &str) -> (r: Option<Visibility>)
    ensures
        r == visibility_of(keyword(value@)),
{
    let k = keyword_exec(value);
    if crate::text::vec_eq_str(&k, "visible") {
        Some(Visibility::Visible)
    } else if crate::text::vec_eq_str(&k, "hidden") {
        Some(Visibility::Hidden)
    } else {
        None
    }
}

/// `transition-timing-function` keywords.
pub open spec fn timing_function_of(k: Seq<char>) -> Option<TransitionTimingFunction> {
    if k == "linear"@ {
        Some(TransitionTimingFunction::Linear)
    } else if k == "ease"@ {
        Some(TransitionTimingFunction::Ease)
    } else {
        None
    }
}

/// Parses a `transition-timing-function` value.
pub fn parse_transition_timing_function(value: &str) -> (r: Option<TransitionTimingFunction>)
    ensures
        r == timing_function_of(keyword(value@)),
{
    let k = keyword_exec(value);
    if crate::text::vec_eq_str(&k, "linear") {
        Some(TransitionTimingFunction::Linear)
    } else if crate::text::vec_eq_str(&k, "ease") {
        Some(TransitionTimingFunction::Ease)
    } else {
        None
    }
}

/// A transition target property name (ASCII case-insensitive, not trimmed).
pub open spec fn transition_property_of(v: Seq<char>) -> Option<TransitionProperty> {
    let k = lower(v);
    if k == "all"@ {
        Some(TransitionProperty::All)
    } else if k == "color"@ {
        Some(TransitionProperty::Color)
    } else if k == "background"@ || k == "background-color"@ {
        Some(TransitionProperty::BackgroundColor)
    } else if k == "left"@ {
        Some(TransitionProperty::Left)
    } else if k == "top"@ {
        Some(TransitionProperty::Top)
    } else {
        None
    }
}

/// Parses one transition target property.
pub fn parse_transition_property(value: &str) -> (r: Option<TransitionProperty>)
    ensures
        r == transition_property_of(value@),
{
    let k = crate::text::lower_vec(&chars_of(value));
    if crate::text::vec_eq_str(&k, "all") {
        Some(TransitionProperty::All)
    } else if crate::text::vec_eq_str(&k, "color") {
        Some(TransitionProperty::Color)
    } else if crate::text::vec_eq_str(&k, "background") || crate::text::vec_eq_str(
        &k,
        "background-color",
    ) {
        Some(TransitionProperty::BackgroundColor)
    } else if crate::text::vec_eq_str(&k, "left") {
        Some(TransitionProperty::Left)
    } else if crate::text::vec_eq_str(&k, "top") {
        Some(TransitionProperty::Top)
    } else {
        None
    }
}

/// The value of a hexadecimal digit character.
pub open spec fn hex_digit_value(c: char) -> Option<u8> {
    if '0' <= c && c <= '9' {
        Some(((c as u32) - ('0' as u32)) as u8)
    } else if 'a' <= c && c <= 'f' {
        Some(((c as u32) - ('a' as u32) + 10) as u8)
    } else if 'A' <= c && c <= 'F' {
        Some(((c as u32) - ('A' as u32) + 10) as u8)
    } else {
        None
    }
}

/// The value of a hexadecimal digit character.
pub fn hex_value(c: char) -> (r: Option<u8>)
    ensures
        r == hex_digit_value(c),
{
    if '0' <= c && c <= '9' {
        Some(((c as u32) - 48) as u8)
    } else if 'a' <= c && c <= 'f' {
        Some(((c as u32) - 97 + 10) as u8)
    } else if 'A' <= c && c <= 'F' {
        Some(((c as u32) - 65 + 10) as u8)
    } else {
        None
    }
}

/// The byte of two hexadecimal digits.
pub open spec fn hex_pair(h: char, l: char) -> Option<u8> {
    match (hex_digit_value(h), hex_digit_value(l)) {
        (Some(a), Some(b)) => Some((a * 16 + b) as u8),
        _ => None,
    }
}

/// The byte of two hexadecimal digits.
pub fn parse_hex_pair(high: char, low: char) -> (r: Option<u8>)
    ensures
        r == hex_pair(high, low),
{
    match (hex_value(high), hex_value(low)) {
        (Some(a), Some(b)) => Some(a * 16 + b),
        _ => None,
    }
}

/// One hexadecimal digit repeated, as in `#abc` (value times 17).
pub fn expand_hex_digit(c: char) -> (r: Option<u8>)
    ensures
        r == match hex_digit_value(c) {
            Some(v) => Some((v * 17) as u8),
            None => None,
        },
{
    match hex_value(c) {
        Some(v) => Some(v * 17),
        None => None,
    }
}

/// A fully opaque color.
pub open spec fn opaque_color(r: u8, g: u8, b: u8) -> Color {
    Color { r, g, b, a: 255 }
}

/// A fully opaque color.
pub fn opaque(r: u8, g: u8, b: u8) -> (c: Color)
    ensures
        c == opaque_color(r, g, b),
{
    Color { r, g, b, a: 255 }
}

/// `#rgb` and `#rrggbb` colors.
pub open spec fn hex_color_of(v: Seq<char>) -> Option<Color> {
    if v.len() == 4 && v[0] == '#' {
        match (hex_digit_value(v[1]), hex_digit_value(v[2]), hex_digit_value(v[3])) {
            (Some(r), Some(g), Some(b)) => Some(
                opaque_color((r * 17) as u8, (g * 17) as u8, (b * 17) as u8),
            ),
            _ => None,
        }
    } else if v.len() == 7 && v[0] == '#' {
        match (hex_pair(v[1], v[2]), hex_pair(v[3], v[4]), hex_pair(v[5], v[6])) {
            (Some(r), Some(g), Some(b)) => Some(opaque_color(r, g, b)),
            _ => None,
        }
    } else {
        None
    }
}

/// Parses `#rgb` or `#rrggbb`.
pub fn parse_hex_color(value: &Vec<char>) -> (r: Option<Color>)
    ensures
        r == hex_color_of(value@),
{
    if value.len() == 4 && value[0] == '#' {
        match (expand_hex_digit(value[1]), expand_hex_digit(value[2]), expand_hex_digit(value[3])) {
            (Some(r), Some(g), Some(b)) => Some(opaque(r, g, b)),
            _ => None,
        }
    } else if value.len() == 7 && value[0] == '#' {
        match (
            parse_hex_pair(value[1], value[2]),
            parse_hex_pair(value[3], value[4]),
            parse_hex_pair(value[5], value[6]),
        ) {
            (Some(r), Some(g), Some(b)) => Some(opaque(r, g, b)),
            _ => None,
        }
    } else {
        None
    }
}

/// Named colors and hexadecimal colors (trimmed, ASCII case-insensitive).
pub open spec fn color_of(v: Seq<char>) -> Option<Color> {
    let k = keyword(v);
    if k == "transparent"@ {
        Some(Color { r: 0, g: 0, b: 0, a: 0 })
    } else if k == "black"@ {
        Some(opaque_color(0, 0, 0))
    } else if k == "white"@ {
        Some(opaque_color(255, 255, 255))
    } else if k == "red"@ {
        Some(opaque_color(255, 0, 0))
    } else if k == "green"@ {
        Some(opaque_color(0, 128, 0))
    } else if k == "blue"@ {
        Some(opaque_color(0, 0, 255))
    } else if k == "yellow"@ {
        Some(opaque_color(255, 255, 0))
    } else if k == "gray"@ || k == "grey"@ {
        Some(opaque_color(128, 128, 128))
    } else if k == "silver"@ {
        Some(opaque_color(192, 192, 192))
    } else if k == "navy"@ {
        Some(opaque_color(0, 0, 128))
    } else {
        hex_color_of(k)
    }
}

/// The `display` keywords, trimmed and in any ASCII case.
pub proof fn lemma_display_keywords(v: Seq<char>)
    ensures
        crate::text::lower(crate::text::trim(v)) == "block"@ ==> display_of(keyword(v)) == Some(Display::Block),
        crate::text::lower(crate::text::trim(v)) == "inline"@ ==> display_of(keyword(v)) == Some(Display::Inline),
        crate::text::lower(crate::text::trim(v)) == "inline-block"@ ==> display_of(keyword(v)) == Some(Display::InlineBlock),
        crate::text::lower(crate::text::trim(v)) == "flex"@ ==> display_of(keyword(v)) == Some(Display::Flex),
        crate::text::lower(crate::text::trim(v)) == "grid"@ ==> display_of(keyword(v)) == Some(Display::Grid),
        crate::text::lower(crate::text::trim(v)) == "none"@ ==> display_of(keyword(v)) == Some(Display::NoDisplay),
{
    reveal_strlit("block");
    reveal_strlit("inline");
    reveal_strlit("inline-block");
    reveal_strlit("flex");
    reveal_strlit("grid");
    reveal_strlit("none");
    if true {
        assert("block"@.len() != "inline"@.len());
        assert("block"@.len() != "inline-block"@.len());
        assert("block"@.len() != "flex"@.len());
        assert("block"@.len() != "grid"@.len());
        assert("block"@.len() != "none"@.len());
        assert("inline"@.len() != "inline-block"@.len());
        assert("inline"@.len() != "flex"@.len());
        assert("inline"@.len() != "grid"@.len());
        assert("inline"@.len() != "none"@.len());
        assert("inline-block"@.len() != "flex"@.len());
        assert("inline-block"@.len() != "grid"@.len());
        assert("inline-block"@.len() != "none"@.len());
        assert("flex"@[0] != "grid"@[0]);
        assert("flex"@[0] != "none"@[0]);
        assert("grid"@[0] != "none"@[0]);
    }
}

/// The `font-weight` keywords, trimmed and in any ASCII case: `normal` and
/// `400` are normal, `bold` and `700` bold.
pub proof fn lemma_font_weight_keywords(v: Seq<char>)
    ensures
        crate::text::lower(crate::text::trim(v)) == "normal"@ ==> font_weight_of(keyword(v)) == Some(FontWeight::Normal),
        crate::text::lower(crate::text::trim(v)) == "400"@ ==> font_weight_of(keyword(v)) == Some(FontWeight::Normal),
        crate::text::lower(crate::text::trim(v)) == "bold"@ ==> font_weight_of(keyword(v)) == Some(FontWeight::Bold),
        crate::text::lower(crate::text::trim(v)) == "700"@ ==> font_weight_of(keyword(v)) == Some(FontWeight::Bold),
{
    reveal_strlit("normal");
    reveal_strlit("400");
    reveal_strlit("bold");
    reveal_strlit("700");
    if true {
        assert("normal"@.len() != "400"@.len());
        assert("normal"@.len() != "bold"@.len());
        assert("normal"@.len() != "700"@.len());
        assert("400"@.len() != "bold"@.len());
        assert("400"@[0] != "700"@[0]);
        assert("bold"@.len() != "700"@.len());
    }
}

/// The `text-align` keywords, trimmed and in any ASCII case: `left` and
/// `start` align left, `right` and `end` right.
pub proof fn lemma_text_align_keywords(v: Seq<char>)
    ensures
        crate::text::lower(crate::text::trim(v)) == "left"@ ==> text_align_of(keyword(v)) == Some(TextAlign::Left),
        crate::text::lower(crate::text::trim(v)) == "start"@ ==> text_align_of(keyword(v)) == Some(TextAlign::Left),
        crate::text::lower(crate::text::trim(v)) == "center"@ ==> text_align_of(keyword(v)) == Some(TextAlign::Center),
        crate::text::lower(crate::text::trim(v)) == "right"@ ==> text_align_of(keyword(v)) == Some(TextAlign::Right),
        crate::text::lower(crate::text::trim(v)) == "end"@ ==> text_align_of(keyword(v)) == Some(TextAlign::Right),
{
    reveal_strlit("left");
    reveal_strlit("start");
    reveal_strlit("center");
    reveal_strlit("right");
    reveal_strlit("end");
    if true {
        assert("left"@.len() != "start"@.len());
        assert("left"@.len() != "center"@.len());
        assert("left"@.len() != "right"@.len());
        assert("left"@.len() != "end"@.len());
        assert("start"@.len() != "center"@.len());
        assert("start"@[0] != "right"@[0]);
        assert("start"@.len() != "end"@.len());
        assert("center"@.len() != "right"@.len());
        assert("center"@.len() != "end"@.len());
        assert("right"@.len() != "end"@.len());
    }
}

/// The `visibility` keywords, trimmed and in any ASCII case.
pub proof fn lemma_visibility_keywords(v: Seq<char>)
    ensures
        crate::text::lower(crate::text::trim(v)) == "visible"@ ==> visibility_of(keyword(v)) == Some(Visibility::Visible),
        crate::text::lower(crate::text::trim(v)) == "hidden"@ ==> visibility_of(keyword(v)) == Some(Visibility::Hidden),
{
    reveal_strlit("visible");
    reveal_strlit("hidden");
    if true {
        assert("visible"@.len() != "hidden"@.len());
    }
}

/// The transition property names, in any ASCII case.
pub proof fn lemma_transition_property_keywords(v: Seq<char>)
    ensures
        crate::text::lower(v) == "all"@ ==> transition_property_of(v) == Some(TransitionProperty::All),
        crate::text::lower(v) == "color"@ ==> transition_property_of(v) == Some(TransitionProperty::Color),
        crate::text::lower(v) == "background"@ ==> transition_property_of(v) == Some(TransitionProperty::BackgroundColor),
        crate::text::lower(v) == "background-color"@ ==> transition_property_of(v) == Some(TransitionProperty::BackgroundColor),
        crate::text::lower(v) == "left"@ ==> transition_property_of(v) == Some(TransitionProperty::Left),
        crate::text::lower(v) == "top"@ ==> transition_property_of(v) == Some(TransitionProperty::Top),
{
    reveal_strlit("all");
    reveal_strlit("color");
    reveal_strlit("background");
    reveal_strlit("background-color");
    reveal_strlit("left");
    reveal_strlit("top");
    if true {
        assert("all"@.len() != "color"@.len());
        assert("all"@.len() != "background"@.len());
        assert("all"@.len() != "background-color"@.len());
        assert("all"@.len() != "left"@.len());
        assert("all"@[0] != "top"@[0]);
        assert("color"@.len() != "background"@.len());
        assert("color"@.len() != "background-color"@.len());
        assert("color"@.len() != "left"@.len());
        assert("color"@.len() != "top"@.len());
        assert("background"@.len() != "background-color"@.len());
        assert("background"@.len() != "left"@.len());
        assert("background"@.len() != "top"@.len());
        assert("background-color"@.len() != "left"@.len());
        assert("background-color"@.len() != "top"@.len());
        assert("left"@.len() != "top"@.len());
    }
}

/// The value of a hexadecimal digit: `0`-`9`, `a`-`f`, `A`-`F`.
pub open spec fn hex_value_of(c: char) -> int {
    let u = c as int;
    if 48 <= u <= 57 {
        u - 48
    } else if 97 <= u <= 102 {
        u - 87
    } else {
        u - 55
    }
}

/// Whether `c` is a hexadecimal digit.
pub open spec fn is_hex_char(c: char) -> bool {
    let u = c as int;
    (48 <= u <= 57) || (97 <= u <= 102) || (65 <= u <= 70)
}

/// Hexadecimal colors, trimmed: `#rrggbb` gives each channel from its two
/// digits, `#rgb` from one digit repeated; both are opaque.
pub proof fn lemma_hex_colors(v: Seq<char>)
    ensures
        ({
            let k = crate::text::lower(crate::text::trim(v));
            k.len() == 7 && k[0] == '#' && (forall|i: int| 1 <= i < 7 ==> #[trigger] is_hex_char(k[i]))
                ==> color_of(v) == Some(
                Color {
                    r: (16 * hex_value_of(k[1]) + hex_value_of(k[2])) as u8,
                    g: (16 * hex_value_of(k[3]) + hex_value_of(k[4])) as u8,
                    b: (16 * hex_value_of(k[5]) + hex_value_of(k[6])) as u8,
                    a: 255,
                },
            )
        }),
        ({
            let k = crate::text::lower(crate::text::trim(v));
            k.len() == 4 && k[0] == '#' && (forall|i: int| 1 <= i < 4 ==> #[trigger] is_hex_char(k[i]))
                ==> color_of(v) == Some(
                Color {
                    r: (17 * hex_value_of(k[1])) as u8,
                    g: (17 * hex_value_of(k[2])) as u8,
                    b: (17 * hex_value_of(k[3])) as u8,
                    a: 255,
                },
            )
        }),
{
    let k = crate::text::lower(crate::text::trim(v));
    reveal_strlit("transparent");
    reveal_strlit("black");
    reveal_strlit("white");
    reveal_strlit("red");
    reveal_strlit("green");
    reveal_strlit("blue");
    reveal_strlit("yellow");
    reveal_strlit("gray");
    reveal_strlit("grey");
    reveal_strlit("silver");
    reveal_strlit("navy");
    if k.len() > 0 && k[0] == '#' {
        assert(k != "black"@ && k != "white"@ && k != "red"@ && k != "green"@ && k != "blue"@ && k
            != "yellow"@ && k != "gray"@ && k != "grey"@ && k != "silver"@ && k != "navy"@ && k
            != "transparent"@);
        if k.len() == 7 || k.len() == 4 {
            assert(is_hex_char(k[1]) ==> hex_digit_value(k[1]) == Some(hex_value_of(k[1]) as u8));
        }
        if k.len() == 7 && (forall|i: int| 1 <= i < 7 ==> #[trigger] is_hex_char(k[i])) {
            assert(is_hex_char(k[2]) && is_hex_char(k[3]) && is_hex_char(k[4]) && is_hex_char(k[5]) && is_hex_char(k[6]));
        }
        if k.len() == 4 && (forall|i: int| 1 <= i < 4 ==> #[trigger] is_hex_char(k[i])) {
            assert(is_hex_char(k[2]) && is_hex_char(k[3]));
        }
    }
}

/// The transition timing keywords, trimmed and in any ASCII case.
pub proof fn lemma_timing_function_keywords(v: Seq<char>)
    ensures
        crate::text::lower(crate::text::trim(v)) == "linear"@ ==> timing_function_of(keyword(v)) == Some(
            TransitionTimingFunction::Linear,
        ),
        crate::text::lower(crate::text::trim(v)) == "ease"@ ==> timing_function_of(keyword(v)) == Some(
            TransitionTimingFunction::Ease,
        ),
{
    reveal_strlit("linear");
    reveal_strlit("ease");
    assert("linear"@.len() != "ease"@.len());
}

/// The named colors, trimmed and in any ASCII case, are these colors:
/// `transparent` is fully transparent black; `black`, `white`, `red`,
/// `green` (half intensity), `blue`, `yellow`, `gray`/`grey`, `silver`
/// and `navy` are opaque.
pub proof fn lemma_named_colors(v: Seq<char>)
    ensures
        crate::text::lower(crate::text::trim(v)) == "transparent"@ ==> color_of(v) == Some(Color { r: 0, g: 0, b: 0, a: 0 }),
        crate::text::lower(crate::text::trim(v)) == "black"@ ==> color_of(v) == Some(Color { r: 0, g: 0, b: 0, a: 255 }),
        crate::text::lower(crate::text::trim(v)) == "white"@ ==> color_of(v) == Some(Color { r: 255, g: 255, b: 255, a: 255 }),
        crate::text::lower(crate::text::trim(v)) == "red"@ ==> color_of(v) == Some(Color { r: 255, g: 0, b: 0, a: 255 }),
        crate::text::lower(crate::text::trim(v)) == "green"@ ==> color_of(v) == Some(Color { r: 0, g: 128, b: 0, a: 255 }),
        crate::text::lower(crate::text::trim(v)) == "blue"@ ==> color_of(v) == Some(Color { r: 0, g: 0, b: 255, a: 255 }),
        crate::text::lower(crate::text::trim(v)) == "yellow"@ ==> color_of(v) == Some(Color { r: 255, g: 255, b: 0, a: 255 }),
        crate::text::lower(crate::text::trim(v)) == "gray"@ ==> color_of(v) == Some(Color { r: 128, g: 128, b: 128, a: 255 }),
        crate::text::lower(crate::text::trim(v)) == "grey"@ ==> color_of(v) == Some(Color { r: 128, g: 128, b: 128, a: 255 }),
        crate::text::lower(crate::text::trim(v)) == "silver"@ ==> color_of(v) == Some(Color { r: 192, g: 192, b: 192, a: 255 }),
        crate::text::lower(crate::text::trim(v)) == "navy"@ ==> color_of(v) == Some(Color { r: 0, g: 0, b: 128, a: 255 }),
{
    reveal_strlit("transparent");
    reveal_strlit("black");
    reveal_strlit("white");
    reveal_strlit("red");
    reveal_strlit("green");
    reveal_strlit("blue");
    reveal_strlit("yellow");
    reveal_strlit("gray");
    reveal_strlit("grey");
    reveal_strlit("silver");
    reveal_strlit("navy");
    let k = crate::text::lower(crate::text::trim(v));
    if k.len() > 0 {
        assert("transparent"@[0] == 't' && "black"@[0] == 'b' && "white"@[0] == 'w' && "red"@[0] == 'r'
            && "green"@[0] == 'g' && "blue"@[0] == 'b' && "yellow"@[0] == 'y' && "gray"@[0] == 'g'
            && "grey"@[0] == 'g' && "silver"@[0] == 's' && "navy"@[0] == 'n');
        assert("black"@[1] == 'l' && "blue"@[1] == 'l' && "black"@[2] == 'a' && "blue"@[2] == 'u');
        assert("green"@[2] == 'e' && "gray"@[2] == 'a' && "grey"@[2] == 'e');
    }
}

/// Parses a color value.
pub fn parse_color(value: &str) -> (r: Option<Color>)
    ensures
        r == color_of(value@),
{
    let k = keyword_exec(value);
    if crate::text::vec_eq_str(&k, "transparent") {
        Some(Color { r: 0, g: 0, b: 0, a: 0 })
    } else if crate::text::vec_eq_str(&k, "black") {
        Some(opaque(0, 0, 0))
    } else if crate::text::vec_eq_str(&k, "white") {
        Some(opaque(255, 255, 255))
    } else if crate::text::vec_eq_str(&k, "red") {
        Some(opaque(255, 0, 0))
    } else if crate::text::vec_eq_str(&k, "green") {
        Some(opaque(0, 128, 0))
    } else if crate::text::vec_eq_str(&k, "blue") {
        Some(opaque(0, 0, 255))
    } else if crate::text::vec_eq_str(&k, "yellow") {
        Some(opaque(255, 255, 0))
    } else if crate::text::vec_eq_str(&k, "gray") || crate::text::vec_eq_str(&k, "grey") {
        Some(opaque(128, 128, 128))
    } else if crate::text::vec_eq_str(&k, "silver") {
        Some(opaque(192, 192, 192))
    } else if crate::text::vec_eq_str(&k, "navy") {
        Some(opaque(0, 0, 128))
    } else {
        parse_hex_color(&k)
    }
}

/// A character allowed in identifiers: ASCII letter, digit, `-` or `_`.
pub open spec fn is_ident_char(c: char) -> bool {
    crate::text::is_alnum(c) || c == '-' || c == '_'
}

/// First index at or after `i` that is not an identifier character.
pub open spec fn ident_end(s: Seq<char>, i: int) -> int
    decreases s.len() - i,
{
    if 0 <= i < s.len() && is_ident_char(s[i]) {
        ident_end(s, i + 1)
    } else {
        i
    }
}

/// Bounds of `ident_end`.
pub proof fn lemma_ident_end(s: Seq<char>, i: int)
    requires
        0 <= i <= s.len(),
    ensures
        i <= ident_end(s, i) <= s.len(),
        forall|k: int| i <= k < ident_end(s, i) ==> is_ident_char(#[trigger] s[k]),
        ident_end(s, i) < s.len() ==> !is_ident_char(s[ident_end(s, i)]),
    decreases s.len() - i,
{
    if i < s.len() && is_ident_char(s[i]) {
        lemma_ident_end(s, i + 1);
    }
}

/// `is_ident_char` computed.
fn ident_char(c: char) -> (b: bool)
    ensures
        b == is_ident_char(c),
{
    crate::text::char_is_alnum(c) || c == '-' || c == '_'
}

/// Length of the identifier at `v[i..]`.
pub fn identifier_len(v: &Vec<char>, i: usize) -> (r: usize)
    requires
        i <= v.len(),
    ensures
        r == ident_end(v@, i as int) - i,
        i + r <= v.len(),
{
    let mut j = i;
    while j < v.len() && ident_char(v[j])
        invariant
            i <= j <= v@.len(),
            ident_end(v@, j as int) == ident_end(v@, i as int),
        decreases v@.len() - j,
    {
        j += 1;
    }
    j - i
}

/// A CSS identifier: starts with an ASCII letter, `_` or `-`, and holds
/// only identifier characters.
pub open spec fn is_identifier(s: Seq<char>) -> bool {
    s.len() > 0 && (crate::text::is_alpha(s[0]) || s[0] == '_' || s[0] == '-') && forall|i: int|
        0 <= i < s.len() ==> is_ident_char(#[trigger] s[i])
}

/// Whether `v` is a CSS identifier.
pub fn valid_identifier(v: &Vec<char>) -> (b: bool)
    ensures
        b == is_identifier(v@),
{
    if v.len() == 0 {
        return false;
    }
    let first = v[0];
    if !(crate::text::char_is_alpha(first) || first == '_' || first == '-') {
        return false;
    }
    let n = identifier_len(v, 0);
    proof {
        lemma_ident_end(v@, 0);
    }
    n == v.len()
}

/// UTF-8 length of the leading whitespace of `s`.
pub fn leading_whitespace_len(s: &str) -> (r: usize)
    requires
        crate::text::utf8_len(s@) <= usize::MAX,
    ensures
        r == crate::text::utf8_len(s@.take(crate::text::skip_ws(s@, 0, s@.len() as int))),
{
    let v = chars_of(s);
    let e = crate::text::skip_ws_exec(&v, 0, v.len());
    crate::text::byte_offset(&v, e)
}

/// A grid line: `auto`, or a positive decimal number.
pub open spec fn grid_line_of(v: Seq<char>) -> Option<Option<usize>> {
    if crate::text::eq_ignore_case(v, "auto"@) {
        Some(None)
    } else {
        match crate::text::parse_decimal(v, usize::MAX as nat) {
            Some(n) => if n > 0 {
                Some(Some(n as usize))
            } else {
                None
            },
            None => None,
        }
    }
}

/// Parses a grid line.
pub fn parse_grid_line(v: &Vec<char>) -> (r: Option<Option<usize>>)
    ensures
        r == grid_line_of(v@),
{
    if crate::text::vec_eq_ignore_case(v, "auto") {
        return Some(None);
    }
    match parse_usize(v) {
        Some(n) => if n > 0 {
            Some(Some(n))
        } else {
            None
        },
        None => None,
    }
}

/// `usize::from_str` on characters.
fn parse_usize(v: &Vec<char>) -> (r: Option<usize>)
    ensures
        match r {
            Some(n) => crate::text::parse_decimal(v@, usize::MAX as nat) == Some(n as nat),
            None => crate::text::parse_decimal(v@, usize::MAX as nat) is None,
        },
{
    match crate::text::parse_decimal_exec(v, usize::MAX as u64) {
        Some(n) => Some(n as usize),
        None => None,
    }
}

/// The pieces of `s` between `/` characters, each trimmed.
pub open spec fn slash_pieces(s: Seq<char>) -> Seq<Seq<char>> {
    crate::text::split_on(s, '/').map_values(|p: Seq<char>| trim(p))
}

/// `grid-column`/`grid-row` placements: `start`, or `start / end` with
/// `end` after `start` when both are numbers.
pub open spec fn grid_placement_of(v: Seq<char>) -> Option<GridPlacement> {
    let ps = slash_pieces(v);
    if ps.len() == 1 {
        match grid_line_of(ps[0]) {
            Some(start) => Some(GridPlacement { start, end: None }),
            None => None,
        }
    } else if ps.len() == 2 {
        if ps[1].len() == 0 {
            None
        } else {
            match (grid_line_of(ps[0]), grid_line_of(ps[1])) {
                (Some(start), Some(end)) => if start is Some && end is Some && end.unwrap()
                    <= start.unwrap() {
                    None
                } else {
                    Some(GridPlacement { start, end })
                },
                _ => None,
            }
        }
    } else {
        None
    }
}

/// Parses a grid placement.
pub fn parse_grid_placement(value: &str) -> (r: Option<GridPlacement>)
    ensures
        r == grid_placement_of(value@),
{
    let v = chars_of(value);
    let pieces = crate::text::split_on_exec(&v, '/');
    let ghost ps = slash_pieces(value@);
    proof {
        assert(ps.len() == pieces@.len());
    }
    if pieces.len() == 1 {
        let p0 = crate::text::trim_vec(&pieces[0]);
        proof {
            assert(p0@ == ps[0]);
        }
        match parse_grid_line(&p0) {
            Some(start) => Some(GridPlacement { start, end: None }),
            None => None,
        }
    } else if pieces.len() == 2 {
        let p0 = crate::text::trim_vec(&pieces[0]);
        let p1 = crate::text::trim_vec(&pieces[1]);
        proof {
            assert(p0@ == ps[0]);
            assert(p1@ == ps[1]);
        }
        if p1.len() == 0 {
            return None;
        }
        match (parse_grid_line(&p0), parse_grid_line(&p1)) {
            (Some(start), Some(end)) => {
                match (start, end) {
                    (Some(a), Some(b)) => if b <= a {
                        return None;
                    },
                    _ => {},
                }
                Some(GridPlacement { start, end })
            },
            _ => None,
        }
    } else {
        None
    }
}


/// The closing `]` of an attribute selector, scanning `s[i..]` (`q`: the
/// open quote, if inside one); quoted `]` do not close.
pub open spec fn attr_close_from(s: Seq<char>, i: int, q: Option<char>) -> Option<int>
    decreases s.len() - i,
{
    if i < 0 || i >= s.len() {
        None
    } else if q is None && (s[i] == '"' || s[i] == '\'') {
        attr_close_from(s, i + 1, Some(s[i]))
    } else if q == Some(s[i]) {
        attr_close_from(s, i + 1, None)
    } else if q is None && s[i] == ']' {
        Some(i)
    } else {
        attr_close_from(s, i + 1, q)
    }
}

/// Bounds of `attr_close_from`.
pub proof fn lemma_attr_close(s: Seq<char>, i: int, q: Option<char>)
    requires
        0 <= i,
    ensures
        attr_close_from(s, i, q) matches Some(k) ==> i <= k < s.len(),
    decreases s.len() - i,
{
    if i < s.len() {
        if q is None && (s[i] == '"' || s[i] == '\'') {
            lemma_attr_close(s, i + 1, Some(s[i]));
        } else if q == Some(s[i]) {
            lemma_attr_close(s, i + 1, None);
        } else if q is None && s[i] == ']' {
        } else {
            lemma_attr_close(s, i + 1, q);
        }
    }
}

/// The index of the `]` closing the attribute selector whose `[` is at `v[i]`.
fn attribute_close_index(v: &Vec<char>, i: usize) -> (r: Option<usize>)
    requires
        i < v.len(),
    ensures
        match r {
            Some(k) => attr_close_from(v@, i + 1, None) == Some(k as int) && i < k < v.len(),
            None => attr_close_from(v@, i + 1, None) is None,
        },
{
    let mut q: Option<char> = None;
    let mut j = i + 1;
    proof {
        lemma_attr_close(v@, i + 1, None);
    }
    while j < v.len()
        invariant
            i < j <= v@.len(),
            attr_close_from(v@, j as int, q) == attr_close_from(v@, i + 1, None),
        decreases v@.len() - j,
    {
        let c = v[j];
        if q.is_none() && (c == '"' || c == '\'') {
            q = Some(c);
        } else if q == Some(c) {
            q = None;
        } else if q.is_none() && c == ']' {
            return Some(j);
        }
        j += 1;
    }
    None
}

/// An attribute selector value: a quoted string (quotes dropped) or an
/// identifier.
pub open spec fn attribute_value_of(v: Seq<char>) -> Option<Seq<char>> {
    if v.len() >= 2 && ((v[0] == '"' && v.last() == '"') || (v[0] == '\'' && v.last() == '\'')) {
        Some(v.subrange(1, v.len() - 1))
    } else if is_identifier(v) {
        Some(v)
    } else {
        None
    }
}

/// Parses an attribute selector value.
fn parse_attribute_value(v: &Vec<char>) -> (r: Option<Vec<char>>)
    ensures
        match r {
            Some(x) => attribute_value_of(v@) == Some(x@),
            None => attribute_value_of(v@) is None,
        },
{
    let n = v.len();
    if n >= 2 && ((v[0] == '"' && v[n - 1] == '"') || (v[0] == '\'' && v[n - 1] == '\'')) {
        return Some(crate::text::slice_of(v, 1, n - 1));
    }
    if valid_identifier(v) {
        Some(v.clone())
    } else {
        None
    }
}

/// The text inside `[...]` as an attribute selector: `name` or
/// `name=value`, the name lowercased.
pub open spec fn attribute_selector_of(text: Seq<char>) -> Option<(Seq<char>, Option<Seq<char>>)> {
    let t = trim(text);
    if t.len() == 0 {
        None
    } else {
        match crate::text::find_char_from(t, '=', 0) {
            None => if is_identifier(t) {
                Some((lower(t), None))
            } else {
                None
            },
            Some(e) => {
                let name = trim(t.subrange(0, e));
                let value = trim(t.subrange(e + 1, t.len() as int));
                if !is_identifier(name) || value.len() == 0 {
                    None
                } else {
                    match attribute_value_of(value) {
                        Some(x) => Some((lower(name), Some(x))),
                        None => None,
                    }
                }
            },
        }
    }
}

/// Parses the text inside `[...]`.
fn parse_attribute_selector(text: &Vec<char>) -> (r: Option<AttributeSelector>)
    ensures
        match r {
            Some(a) => attribute_selector_of(text@) == Some(a@),
            None => attribute_selector_of(text@) is None,
        },
{
    let t = crate::text::trim_vec(text);
    if t.len() == 0 {
        return None;
    }
    match crate::text::find_char_exec(&t, '=', 0) {
        None => {
            if valid_identifier(&t) {
                let l = crate::text::lower_vec(&t);
                Some(AttributeSelector { name: crate::text::string_of(&l), value: None })
            } else {
                None
            }
        },
        Some(e) => {
            proof {
                crate::text::lemma_find_char(t@, '=', 0);
            }
            let name = crate::text::trim_vec(&crate::text::slice_of(&t, 0, e));
            let value = crate::text::trim_vec(&crate::text::slice_of(&t, e + 1, t.len()));
            if !valid_identifier(&name) || value.len() == 0 {
                return None;
            }
            match parse_attribute_value(&value) {
                Some(x) => {
                    let l = crate::text::lower_vec(&name);
                    Some(
                        AttributeSelector {
                            name: crate::text::string_of(&l),
                            value: Some(crate::text::string_of(&x)),
                        },
                    )
                },
                None => None,
            }
        },
    }
}

/// The pseudo-class whose name starts at `s[i]` (just after `:`), with the
/// number of characters it takes.
pub open spec fn pseudo_of(s: Seq<char>, i: int) -> Option<(PseudoClass, int)> {
    let e = ident_end(s, i);
    let n = e - i;
    if n <= 0 {
        None
    } else {
        let name = lower(s.subrange(i, e));
        if name == "hover"@ {
            Some((PseudoClass::Hover, n))
        } else if name == "focus"@ {
            Some((PseudoClass::Focus, n))
        } else if name == "active"@ {
            Some((PseudoClass::Active, n))
        } else if name == "checked"@ {
            Some((PseudoClass::Checked, n))
        } else if name == "disabled"@ {
            Some((PseudoClass::Disabled, n))
        } else if name == "first-child"@ {
            Some((PseudoClass::FirstChild, n))
        } else if name == "last-child"@ {
            Some((PseudoClass::LastChild, n))
        } else if name == "nth-child"@ {
            if e < s.len() && s[e] == '(' {
                match crate::text::find_char_from(s, ')', e + 1) {
                    Some(cl) => match crate::text::parse_decimal(
                        trim(s.subrange(e + 1, cl)),
                        u32::MAX as nat,
                    ) {
                        Some(v) => if v == 0 {
                            None
                        } else {
                            Some((PseudoClass::NthChild(v as u32), n + (cl - (e + 1)) + 2))
                        },
                        None => None,
                    },
                    None => None,
                }
            } else {
                None
            }
        } else {
            None
        }
    }
}

/// Parses the pseudo-class whose name starts at `v[i]`.
fn parse_pseudo_class(v: &Vec<char>, i: usize) -> (r: Option<(PseudoClass, usize)>)
    requires
        i <= v.len(),
    ensures
        match r {
            Some((pc, n)) => pseudo_of(v@, i as int) == Some((pc, n as int)) && n >= 1 && i + n
                <= v.len(),
            None => pseudo_of(v@, i as int) is None,
        },
{
    let n = identifier_len(v, i);
    if n == 0 {
        return None;
    }
    proof {
        lemma_ident_end(v@, i as int);
    }
    let e = i + n;
    let name = crate::text::lower_vec(&crate::text::slice_of(v, i, e));
    if crate::text::vec_eq_str(&name, "hover") {
        Some((PseudoClass::Hover, n))
    } else if crate::text::vec_eq_str(&name, "focus") {
        Some((PseudoClass::Focus, n))
    } else if crate::text::vec_eq_str(&name, "active") {
        Some((PseudoClass::Active, n))
    } else if crate::text::vec_eq_str(&name, "checked") {
        Some((PseudoClass::Checked, n))
    } else if crate::text::vec_eq_str(&name, "disabled") {
        Some((PseudoClass::Disabled, n))
    } else if crate::text::vec_eq_str(&name, "first-child") {
        Some((PseudoClass::FirstChild, n))
    } else if crate::text::vec_eq_str(&name, "last-child") {
        Some((PseudoClass::LastChild, n))
    } else if crate::text::vec_eq_str(&name, "nth-child") {
        if e < v.len() && v[e] == '(' {
            match crate::text::find_char_exec(v, ')', e + 1) {
                Some(cl) => {
                    proof {
                        crate::text::lemma_find_char(v@, ')', e + 1);
                    }
                    let inner = crate::text::trim_vec(&crate::text::slice_of(v, e + 1, cl));
                    match crate::text::parse_decimal_exec(&inner, 4294967295) {
                        Some(x) => if x == 0 {
                            None
                        } else {
                            Some((PseudoClass::NthChild(x as u32), n + (cl - (e + 1)) + 2))
                        },
                        None => None,
                    }
                },
                None => None,
            }
        } else {
            None
        }
    } else {
        None
    }
}

/// The empty compound selector.
pub open spec fn empty_part() -> PartModel {
    PartModel {
        universal: false,
        tag: None,
        classes: Seq::empty(),
        id: None,
        attrs: Seq::empty(),
        pseudos: Seq::empty(),
    }
}

/// Whether a compound selector selects something.
pub open spec fn part_nonempty(p: PartModel) -> bool {
    p.universal || p.tag is Some || p.classes.len() > 0 || p.id is Some || p.attrs.len() > 0
        || p.pseudos.len() > 0
}

/// The start of a compound selector: `*`, or a tag name (lowercased), or
/// nothing; with the index after it.
pub open spec fn part_head(t: Seq<char>) -> (PartModel, int) {
    if t.len() > 0 && t[0] == '*' {
        (PartModel { universal: true, ..empty_part() }, 1)
    } else {
        let e = ident_end(t, 0);
        if e > 0 {
            (PartModel { tag: Some(lower(t.subrange(0, e))), ..empty_part() }, e)
        } else {
            (empty_part(), 0)
        }
    }
}

/// The rest of a compound selector from `t[c..]`, added to `p`: classes,
/// an id (at most one), attribute selectors and pseudo-classes.
pub open spec fn part_from(t: Seq<char>, c: int, p: PartModel) -> Option<PartModel>
    decreases t.len() - c,
{
    if c < 0 || c >= t.len() {
        if part_nonempty(p) {
            Some(p)
        } else {
            None
        }
    } else if t[c] == '.' {
        let e = ident_end(t, c + 1);
        if e <= c + 1 || e > t.len() {
            None
        } else {
            part_from(t, e, PartModel { classes: p.classes.push(t.subrange(c + 1, e)), ..p })
        }
    } else if t[c] == '#' {
        if p.id is Some {
            None
        } else {
            let e = ident_end(t, c + 1);
            if e <= c + 1 || e > t.len() {
                None
            } else {
                part_from(t, e, PartModel { id: Some(t.subrange(c + 1, e)), ..p })
            }
        }
    } else if t[c] == '[' {
        match attr_close_from(t, c + 1, None) {
            Some(cl) => if cl <= c || cl >= t.len() {
                None
            } else {
                match attribute_selector_of(t.subrange(c + 1, cl)) {
                    Some(a) => part_from(t, cl + 1, PartModel { attrs: p.attrs.push(a), ..p }),
                    None => None,
                }
            },
            None => None,
        }
    } else if t[c] == ':' {
        match pseudo_of(t, c + 1) {
            Some((pc, n)) => if n <= 0 || c + 1 + n > t.len() {
                None
            } else {
                part_from(t, c + 1 + n, PartModel { pseudos: p.pseudos.push(pc), ..p })
            },
            None => None,
        }
    } else {
        None
    }
}

/// A compound selector such as `a.nav#top[href]:hover`.
pub open spec fn selector_part_of(t: Seq<char>) -> Option<PartModel> {
    let (p, c) = part_head(t);
    part_from(t, c, p)
}

/// Parses a compound selector.
pub fn parse_selector_part(t: &Vec<char>) -> (r: Option<SelectorPart>)
    ensures
        match r {
            Some(p) => selector_part_of(t@) == Some(p@),
            None => selector_part_of(t@) is None,
        },
{
    let mut part = SelectorPart {
        universal: false,
        tag_name: None,
        classes: Vec::new(),
        id: None,
        attributes: Vec::new(),
        pseudo_classes: Vec::new(),
    };
    let mut c: usize = 0;
    proof {
        assert(part@.classes =~= Seq::<Seq<char>>::empty());
        assert(part@.attrs =~= Seq::<(Seq<char>, Option<Seq<char>>)>::empty());
        assert(part@ =~= empty_part());
    }
    if t.len() > 0 && t[0] == '*' {
        part.universal = true;
        c = 1;
    } else {
        let n = identifier_len(t, 0);
        if n > 0 {
            let l = crate::text::lower_vec(&crate::text::slice_of(t, 0, n));
            part.tag_name = Some(crate::text::string_of(&l));
            c = n;
        }
    }
    proof {
        lemma_ident_end(t@, 0);
        assert((part@, c as int) == part_head(t@));
    }
    while c < t.len()
        invariant
            c <= t@.len(),
            part_from(t@, c as int, part@) == selector_part_of(t@),
        decreases t@.len() - c,
    {
        let ghost before = part@;
        if t[c] == '.' {
            let n = identifier_len(t, c + 1);
            proof {
                lemma_ident_end(t@, c + 1);
            }
            if n == 0 {
                return None;
            }
            let cls = crate::text::string_of(&crate::text::slice_of(t, c + 1, c + 1 + n));
            part.classes.push(cls);
            proof {
                assert(part@.classes =~= before.classes.push(t@.subrange(c + 1, c + 1 + n)));
                assert(part@ =~= PartModel {
                    classes: before.classes.push(t@.subrange(c + 1, c + 1 + n)),
                    ..before
                });
            }
            c = c + 1 + n;
        } else if t[c] == '#' {
            if part.id.is_some() {
                return None;
            }
            let n = identifier_len(t, c + 1);
            proof {
                lemma_ident_end(t@, c + 1);
            }
            if n == 0 {
                return None;
            }
            part.id = Some(crate::text::string_of(&crate::text::slice_of(t, c + 1, c + 1 + n)));
            proof {
                assert(part@ =~= PartModel { id: Some(t@.subrange(c + 1, c + 1 + n)), ..before });
            }
            c = c + 1 + n;
        } else if t[c] == '[' {
            match attribute_close_index(t, c) {
                Some(cl) => {
                    let text = crate::text::slice_of(t, c + 1, cl);
                    match parse_attribute_selector(&text) {
                        Some(a) => {
                            let ghost av = a@;
                            part.attributes.push(a);
                            proof {
                                assert(part@.attrs =~= before.attrs.push(av));
                                assert(part@ =~= PartModel { attrs: before.attrs.push(av), ..before });
                            }
                            c = cl + 1;
                        },
                        None => {
                            return None;
                        },
                    }
                },
                None => {
                    return None;
                },
            }
        } else if t[c] == ':' {
            match parse_pseudo_class(t, c + 1) {
                Some((pc, n)) => {
                    part.pseudo_classes.push(pc);
                    proof {
                        assert(part@ =~= PartModel { pseudos: before.pseudos.push(pc), ..before });
                    }
                    c = c + 1 + n;
                },
                None => {
                    return None;
                },
            }
        } else {
            return None;
        }
    }
    if part.universal || part.tag_name.is_some() || part.classes.len() > 0 || part.id.is_some()
        || part.attributes.len() > 0 || part.pseudo_classes.len() > 0 {
        Some(part)
    } else {
        None
    }
}

/// Whether `c` ends a selector token outside attribute selectors.
pub open spec fn token_stop(c: char) -> bool {
    c == '>' || c == ' ' || c == '\n' || c == '\r' || c == '\t' || c == '\x0C'
}

/// The end of the selector token scanned from `s[i..]` (`in_attr`: inside
/// `[...]`; `q`: the open quote there): the first `>` or ASCII space
/// outside brackets, or the end if no bracket or quote is left open.
pub open spec fn token_end(s: Seq<char>, i: int, in_attr: bool, q: Option<char>) -> Option<int>
    decreases s.len() - i,
{
    if i < 0 || i >= s.len() {
        if !in_attr && q is None {
            Some(s.len() as int)
        } else {
            None
        }
    } else {
        let c = s[i];
        if (c == '"' || c == '\'') && in_attr && q is None {
            token_end(s, i + 1, in_attr, Some(c))
        } else if in_attr && q == Some(c) {
            token_end(s, i + 1, in_attr, None)
        } else if c == '[' && !in_attr && q is None {
            token_end(s, i + 1, true, None)
        } else if c == ']' && in_attr && q is None {
            token_end(s, i + 1, false, None)
        } else if token_stop(c) && !in_attr && q is None {
            Some(i)
        } else {
            token_end(s, i + 1, in_attr, q)
        }
    }
}

/// Bounds of `token_end`.
pub proof fn lemma_token_end(s: Seq<char>, i: int, in_attr: bool, q: Option<char>)
    requires
        0 <= i <= s.len(),
    ensures
        token_end(s, i, in_attr, q) matches Some(k) ==> i <= k <= s.len(),
    decreases s.len() - i,
{
    if i < s.len() {
        let c = s[i];
        if (c == '"' || c == '\'') && in_attr && q is None {
            lemma_token_end(s, i + 1, in_attr, Some(c));
        } else if in_attr && q == Some(c) {
            lemma_token_end(s, i + 1, in_attr, None);
        } else if c == '[' && !in_attr && q is None {
            lemma_token_end(s, i + 1, true, None);
        } else if c == ']' && in_attr && q is None {
            lemma_token_end(s, i + 1, false, None);
        } else if token_stop(c) && !in_attr && q is None {
        } else {
            lemma_token_end(s, i + 1, in_attr, q);
        }
    }
}

/// The end of the selector token that starts at `v[i]`.
fn selector_token_end(v: &Vec<char>, i: usize) -> (r: Option<usize>)
    requires
        i <= v.len(),
    ensures
        match r {
            Some(k) => token_end(v@, i as int, false, None) == Some(k as int) && i <= k <= v.len(),
            None => token_end(v@, i as int, false, None) is None,
        },
{
    let mut in_attr = false;
    let mut q: Option<char> = None;
    let mut j = i;
    proof {
        lemma_token_end(v@, i as int, false, None);
    }
    while j < v.len()
        invariant
            i <= j <= v@.len(),
            token_end(v@, j as int, in_attr, q) == token_end(v@, i as int, false, None),
        decreases v@.len() - j,
    {
        let c = v[j];
        if (c == '"' || c == '\'') && in_attr && q.is_none() {
            q = Some(c);
        } else if in_attr && q == Some(c) {
            q = None;
        } else if c == '[' && !in_attr && q.is_none() {
            in_attr = true;
        } else if c == ']' && in_attr && q.is_none() {
            in_attr = false;
        } else if (c == '>' || c == ' ' || c == '\n' || c == '\r' || c == '\t' || c == '\x0C')
            && !in_attr && q.is_none() {
            return Some(j);
        }
        j += 1;
    }
    if !in_attr && q.is_none() {
        Some(v.len())
    } else {
        None
    }
}

/// Completing a selector: at least one part and no dangling combinator.
pub open spec fn selector_finish(
    parts: Seq<PartModel>,
    combs: Seq<Combinator>,
    pending: Option<Combinator>,
) -> Option<(Seq<PartModel>, Seq<Combinator>)> {
    if parts.len() == 0 || pending is Some {
        None
    } else {
        Some((parts, combs))
    }
}

/// The selector scanned from `t[c..]` after `parts` joined by `combs`, with
/// a combinator `pending` between the last part and the next.
pub open spec fn selector_from(
    t: Seq<char>,
    c: int,
    parts: Seq<PartModel>,
    combs: Seq<Combinator>,
    pending: Option<Combinator>,
) -> Option<(Seq<PartModel>, Seq<Combinator>)>
    decreases t.len() - c,
{
    if c < 0 || c >= t.len() {
        selector_finish(parts, combs, pending)
    } else {
        let c1 = crate::text::skip_ws(t, c, t.len() as int);
        if c1 >= t.len() || c1 < c {
            selector_finish(parts, combs, pending)
        } else if t[c1] == '>' {
            if parts.len() == 0 || pending is Some {
                None
            } else {
                selector_from(t, c1 + 1, parts, combs, Some(Combinator::Child))
            }
        } else {
            match token_end(t, c1, false, None) {
                None => None,
                Some(e) => if e <= c1 || e > t.len() {
                    None
                } else {
                    match selector_part_of(t.subrange(c1, e)) {
                        None => None,
                        Some(p) => if parts.len() == 0 && pending is Some {
                            None
                        } else {
                            let combs2 = if parts.len() > 0 {
                                combs.push(
                                    match pending {
                                        Some(k) => k,
                                        None => Combinator::Descendant,
                                    },
                                )
                            } else {
                                combs
                            };
                            let w = crate::text::skip_ws(t, e, t.len() as int);
                            let pend2 = if w > e && w < t.len() && t[w] != '>' {
                                Some(Combinator::Descendant)
                            } else {
                                None
                            };
                            selector_from(t, e, parts.push(p), combs2, pend2)
                        },
                    }
                },
            }
        }
    }
}

/// A complex selector: compound selectors joined by descendant (space) or
/// child (`>`) combinators.
pub open spec fn selector_of(input: Seq<char>) -> Option<(Seq<PartModel>, Seq<Combinator>)> {
    let t = trim(input);
    if t.len() == 0 {
        None
    } else {
        selector_from(t, 0, Seq::empty(), Seq::empty(), None)
    }
}

/// Scanning keeps one combinator between each two parts.
proof fn lemma_selector_from_counts(
    t: Seq<char>,
    c: int,
    parts: Seq<PartModel>,
    combs: Seq<Combinator>,
    pending: Option<Combinator>,
)
    requires
        (parts.len() == 0 && combs.len() == 0) || combs.len() + 1 == parts.len(),
    ensures
        selector_from(t, c, parts, combs, pending) matches Some((ps, cs)) ==> ps.len() >= 1 && cs.len() + 1
            == ps.len(),
    decreases t.len() - c,
{
    if 0 <= c < t.len() {
        let c1 = crate::text::skip_ws(t, c, t.len() as int);
        crate::text::lemma_skip_ws(t, c, t.len() as int);
        if c1 < t.len() && c1 >= c {
            if t[c1] == '>' {
                if parts.len() > 0 && pending is None {
                    lemma_selector_from_counts(t, c1 + 1, parts, combs, Some(Combinator::Child));
                }
            } else {
                match token_end(t, c1, false, None) {
                    None => {},
                    Some(e) => if e > c1 && e <= t.len() {
                        match selector_part_of(t.subrange(c1, e)) {
                            None => {},
                            Some(p) => if !(parts.len() == 0 && pending is Some) {
                                let combs2 = if parts.len() > 0 {
                                    combs.push(
                                        match pending {
                                            Some(k) => k,
                                            None => Combinator::Descendant,
                                        },
                                    )
                                } else {
                                    combs
                                };
                                let w = crate::text::skip_ws(t, e, t.len() as int);
                                let pend2 = if w > e && w < t.len() && t[w] != '>' {
                                    Some(Combinator::Descendant)
                                } else {
                                    None
                                };
                                lemma_selector_from_counts(t, e, parts.push(p), combs2, pend2);
                            },
                        }
                    },
                }
            }
        }
    }
}

/// A parsed selector has at least one part and one combinator between each
/// two; a blank input, or one whose first non-space character is `>`, is
/// not a selector.
pub proof fn lemma_selector_shape(input: Seq<char>)
    ensures
        selector_of(input) matches Some((ps, cs)) ==> ps.len() >= 1 && cs.len() + 1 == ps.len(),
        trim(input).len() == 0 ==> selector_of(input) is None,
        trim(input).len() > 0 && trim(input)[0] == '>' ==> selector_of(input) is None,
{
    let t = trim(input);
    if t.len() > 0 {
        lemma_selector_from_counts(t, 0, Seq::empty(), Seq::empty(), None);
        if t[0] == '>' {
            assert(!crate::text::is_ws('>'));
            assert(crate::text::skip_ws(t, 0, t.len() as int) == 0);
        }
    }
}

/// A selector token never runs past a final `>`.
proof fn lemma_token_end_before_last(s: Seq<char>, i: int, in_attr: bool, q: Option<char>)
    requires
        s.len() > 0,
        s.last() == '>',
        0 <= i < s.len(),
    ensures
        token_end(s, i, in_attr, q) matches Some(k) ==> k < s.len(),
    decreases s.len() - i,
{
    let c = s[i];
    if i + 1 < s.len() {
        if (c == '"' || c == '\'') && in_attr && q is None {
            lemma_token_end_before_last(s, i + 1, in_attr, Some(c));
        } else if in_attr && q == Some(c) {
            lemma_token_end_before_last(s, i + 1, in_attr, None);
        } else if c == '[' && !in_attr && q is None {
            lemma_token_end_before_last(s, i + 1, true, None);
        } else if c == ']' && in_attr && q is None {
            lemma_token_end_before_last(s, i + 1, false, None);
        } else if token_stop(c) && !in_attr && q is None {
        } else {
            lemma_token_end_before_last(s, i + 1, in_attr, q);
        }
    } else {
        assert(c == '>');
        assert(token_stop(c));
        let end = s.len() as int;
        assert(in_attr ==> token_end(s, end, in_attr, None) is None);
        assert(in_attr || q is Some ==> token_end(s, end, in_attr, q) is None);
    }
}

/// Scanning a text that ends in `>` from inside it gives no selector: the
/// last `>` is left without a compound after it.
proof fn lemma_selector_from_last_child(
    t: Seq<char>,
    c: int,
    parts: Seq<PartModel>,
    combs: Seq<Combinator>,
    pending: Option<Combinator>,
)
    requires
        t.len() > 0,
        t.last() == '>',
        0 <= c < t.len(),
    ensures
        selector_from(t, c, parts, combs, pending) is None,
    decreases t.len() - c,
{
    let c1 = crate::text::skip_ws(t, c, t.len() as int);
    crate::text::lemma_skip_ws(t, c, t.len() as int);
    if c1 >= t.len() {
        assert(crate::text::is_ws(t[t.len() - 1]));
        assert(!crate::text::is_ws('>'));
    }
    if t[c1] == '>' {
        if parts.len() > 0 && pending is None && c1 + 1 < t.len() {
            lemma_selector_from_last_child(t, c1 + 1, parts, combs, Some(Combinator::Child));
        }
    } else {
        lemma_token_end_before_last(t, c1, false, None);
        match token_end(t, c1, false, None) {
            None => {},
            Some(e) => if e > c1 && e <= t.len() {
                match selector_part_of(t.subrange(c1, e)) {
                    None => {},
                    Some(p) => if !(parts.len() == 0 && pending is Some) {
                        let combs2 = if parts.len() > 0 {
                            combs.push(
                                match pending {
                                    Some(k) => k,
                                    None => Combinator::Descendant,
                                },
                            )
                        } else {
                            combs
                        };
                        let w = crate::text::skip_ws(t, e, t.len() as int);
                        let pend2 = if w > e && w < t.len() && t[w] != '>' {
                            Some(Combinator::Descendant)
                        } else {
                            None
                        };
                        lemma_selector_from_last_child(t, e, parts.push(p), combs2, pend2);
                    },
                }
            },
        }
    }
}

/// A selector whose last non-space character is `>` (as in `.card >` or
/// `a >>`) is not a selector.
pub proof fn lemma_selector_trailing_child(input: Seq<char>)
    requires
        trim(input).len() > 0,
        trim(input).last() == '>',
    ensures
        selector_of(input) is None,
{
    lemma_selector_from_last_child(trim(input), 0, Seq::empty(), Seq::empty(), None);
}

/// Whether `t` has no `[`, so no attribute brackets.
pub open spec fn bracket_free(t: Seq<char>) -> bool {
    forall|j: int| 0 <= j < t.len() ==> #[trigger] t[j] != '['
}

/// Whether `t[p]` is a `>` followed, after spaces only, by another `>`.
pub open spec fn double_child_at(t: Seq<char>, p: int) -> bool {
    let w = crate::text::skip_ws(t, p + 1, t.len() as int);
    &&& t[p] == '>'
    &&& w < t.len()
    &&& t[w] == '>'
}

/// Whether a compound token starts at `t[p]` (after a space, a `>` or the
/// start) that is not a compound selector, such as `+`.
pub open spec fn rejected_token_at(t: Seq<char>, p: int) -> bool {
    &&& !crate::text::is_ws(t[p])
    &&& !token_stop(t[p])
    &&& (p == 0 || token_stop(t[p - 1]))
    &&& token_end(t, p, false, None) matches Some(e) && p < e <= t.len() && selector_part_of(
        t.subrange(p, e),
    ) is None
}

/// Outside brackets, a token runs at most to the next space or `>`.
proof fn lemma_token_end_plain(s: Seq<char>, i: int, stop: int)
    requires
        0 <= i <= stop < s.len(),
        token_stop(s[stop]),
        bracket_free(s),
    ensures
        token_end(s, i, false, None) matches Some(e) && i <= e <= stop,
    decreases stop - i,
{
    if !token_stop(s[i]) {
        lemma_token_end_plain(s, i + 1, stop);
    }
}

/// Scanning from before a doubled `>` or a rejected token gives no
/// selector.
proof fn lemma_selector_from_refused(
    t: Seq<char>,
    c: int,
    parts: Seq<PartModel>,
    combs: Seq<Combinator>,
    pending: Option<Combinator>,
    p: int,
)
    requires
        0 <= c <= p < t.len(),
        bracket_free(t),
        double_child_at(t, p) || rejected_token_at(t, p),
    ensures
        selector_from(t, c, parts, combs, pending) is None,
    decreases t.len() - c,
{
    let len = t.len() as int;
    let c1 = crate::text::skip_ws(t, c, len);
    crate::text::lemma_skip_ws(t, c, len);
    assert(!crate::text::is_ws('>'));
    if c1 > p {
        assert(crate::text::is_ws(t[p]));
    }
    if c1 == p {
        if double_child_at(t, p) {
            if parts.len() > 0 && pending is None {
                crate::text::lemma_skip_ws(t, p + 1, len);
            }
        }
    } else {
        if t[c1] == '>' {
            if parts.len() > 0 && pending is None {
                lemma_selector_from_refused(t, c1 + 1, parts, combs, Some(Combinator::Child), p);
            }
        } else {
            assert(!token_stop(t[c1]));
            let stop = if double_child_at(t, p) {
                p
            } else {
                p - 1
            };
            lemma_token_end_plain(t, c1, stop);
            match token_end(t, c1, false, None) {
                None => {},
                Some(e) => if e > c1 && e <= t.len() {
                    match selector_part_of(t.subrange(c1, e)) {
                        None => {},
                        Some(pt) => if !(parts.len() == 0 && pending is Some) {
                            let combs2 = if parts.len() > 0 {
                                combs.push(
                                    match pending {
                                        Some(k) => k,
                                        None => Combinator::Descendant,
                                    },
                                )
                            } else {
                                combs
                            };
                            let w = crate::text::skip_ws(t, e, t.len() as int);
                            let pend2 = if w > e && w < t.len() && t[w] != '>' {
                                Some(Combinator::Descendant)
                            } else {
                                None
                            };
                            lemma_selector_from_refused(t, e, parts.push(pt), combs2, pend2, p);
                        },
                    }
                },
            }
        }
    }
}

/// A selector without attribute brackets is refused when it holds a `>`
/// followed, after spaces only, by another `>` (as in `p > > a`), or a
/// token that is not a compound selector (as the `+` of `p + a`).
pub proof fn lemma_selector_refused_inside(input: Seq<char>, p: int)
    requires
        bracket_free(trim(input)),
        0 <= p < trim(input).len(),
        double_child_at(trim(input), p) || rejected_token_at(trim(input), p),
    ensures
        selector_of(input) is None,
{
    lemma_selector_from_refused(trim(input), 0, Seq::empty(), Seq::empty(), None, p);
}

/// Parses a complex selector.
pub fn parse_selector(input: &str) -> (r: Option<Selector>)
    ensures
        match r {
            Some(s) => selector_of(input@) == Some((part_models(s.parts@), s.combinators@)),
            None => selector_of(input@) is None,
        },
{
    let t = crate::text::trimmed_chars(input);
    if t.len() == 0 {
        return None;
    }
    let mut parts: Vec<SelectorPart> = Vec::new();
    let mut combinators: Vec<Combinator> = Vec::new();
    let mut pending: Option<Combinator> = None;
    let mut cursor: usize = 0;
    proof {
        assert(part_models(parts@) =~= Seq::<PartModel>::empty());
    }
    while cursor < t.len()
        invariant
            cursor <= t@.len(),
            t@ == trim(input@),
            t@.len() > 0,
            selector_from(t@, cursor as int, part_models(parts@), combinators@, pending)
                == selector_of(input@),
        ensures
            selector_from(t@, cursor as int, part_models(parts@), combinators@, pending)
                == selector_of(input@),
            selector_from(t@, cursor as int, part_models(parts@), combinators@, pending)
                == selector_finish(part_models(parts@), combinators@, pending),
        decreases t@.len() - cursor,
    {
        let c1 = crate::text::skip_ws_exec(&t, cursor, t.len());
        if c1 >= t.len() {
            break;
        }
        if t[c1] == '>' {
            if parts.len() == 0 || pending.is_some() {
                return None;
            }
            pending = Some(Combinator::Child);
            cursor = c1 + 1;
            continue;
        }
        let e = match selector_token_end(&t, c1) {
            Some(e) => e,
            None => {
                return None;
            },
        };
        if e <= c1 {
            return None;
        }
        let token = crate::text::slice_of(&t, c1, e);
        let part = match parse_selector_part(&token) {
            Some(p) => p,
            None => {
                return None;
            },
        };
        if parts.len() > 0 {
            let k = match pending {
                Some(k) => k,
                None => Combinator::Descendant,
            };
            combinators.push(k);
        } else if pending.is_some() {
            return None;
        }
        let ghost before = part_models(parts@);
        let ghost pv = part@;
        parts.push(part);
        proof {
            assert(part_models(parts@) =~= before.push(pv));
        }
        let w = crate::text::skip_ws_exec(&t, e, t.len());
        if w > e && w < t.len() && t[w] != '>' {
            pending = Some(Combinator::Descendant);
        } else {
            pending = None;
        }
        cursor = e;
    }
    if parts.len() == 0 || pending.is_some() {
        return None;
    }
    Some(Selector { parts, combinators })
}

/// Each comma-separated piece of `v`, trimmed, as a transition property;
/// `None` if any piece is not one.
pub open spec fn transition_properties_of(v: Seq<char>) -> Option<Seq<TransitionProperty>> {
    let ps = crate::text::split_on(v, ',');
    if forall|k: int| 0 <= k < ps.len() ==> (#[trigger] transition_property_of(trim(ps[k]))) is Some {
        Some(Seq::new(ps.len(), |k: int| transition_property_of(trim(ps[k])).unwrap()))
    } else {
        None
    }
}

/// Parses a comma-separated list of transition properties.
pub fn parse_transition_properties(value: &str) -> (r: Option<Vec<TransitionProperty>>)
    ensures
        match r {
            Some(v) => transition_properties_of(value@) == Some(v@),
            None => transition_properties_of(value@) is None,
        },
{
    let v = chars_of(value);
    let pieces = crate::text::split_on_exec(&v, ',');
    let ghost ps = crate::text::split_on(value@, ',');
    let mut out: Vec<TransitionProperty> = Vec::new();
    let mut k: usize = 0;
    while k < pieces.len()
        invariant
            k <= pieces@.len(),
            pieces@.len() == ps.len(),
            ps == crate::text::split_on(value@, ','),
            forall|j: int| 0 <= j < pieces@.len() ==> #[trigger] pieces@[j]@ == ps[j],
            out@.len() == k,
            forall|j: int|
                0 <= j < k ==> (#[trigger] transition_property_of(trim(ps[j]))) == Some(out@[j]),
        decreases pieces@.len() - k,
    {
        let t = crate::text::trim_vec(&pieces[k]);
        proof {
            assert(pieces@[k as int]@ == ps[k as int]);
        }
        let st = crate::text::string_of(&t);
        match parse_transition_property(st.as_str()) {
            Some(p) => {
                out.push(p);
            },
            None => {
                return None;
            },
        }
        k += 1;
    }
    proof {
        assert(out@ =~= Seq::new(ps.len(), |j: int| transition_property_of(trim(ps[j])).unwrap()));
    }
    Some(out)
}

/// The family of the first entry of a `font-family` list: monospace if its
/// name (trimmed, quotes removed, lowercased) contains `mono` or is `code`.
pub open spec fn font_family_of(v: Seq<char>) -> Option<FontFamily> {
    let first = lower(crate::text::trim_char(crate::text::trim_char(trim(crate::text::split_on(v, ',')[0]), '"'), '\''));
    if crate::text::find_from(first, "mono"@, 0) is Some || first == "code"@ {
        Some(FontFamily::Monospace)
    } else if first.len() > 0 {
        Some(FontFamily::Sans)
    } else {
        None
    }
}

/// Parses a `font-family` value.
pub fn parse_font_family(value: &str) -> (r: Option<FontFamily>)
    ensures
        r == font_family_of(value@),
{
    let v = chars_of(value);
    let pieces = crate::text::split_on_exec(&v, ',');
    proof {
        crate::text::lemma_split_on_len(value@, ',');
    }
    let t = crate::text::trim_vec(&pieces[0]);
    let t1 = crate::text::trim_char_exec(&t, '"');
    let t2 = crate::text::trim_char_exec(&t1, '\'');
    let first = crate::text::lower_vec(&t2);
    let mono = chars_of("mono");
    if crate::text::find_exec(&first, &mono, 0).is_some() || crate::text::vec_eq_str(&first, "code") {
        Some(FontFamily::Monospace)
    } else if first.len() > 0 {
        Some(FontFamily::Sans)
    } else {
        None
    }
}
} // verus!
