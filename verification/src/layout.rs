//! Layout-facing data: decoded image resources keyed by `src`, element and
//! form metadata, visual snapshots, grid cell occupancy, graphic colors and
//! the small text formats used by layout dumps.

use vstd::prelude::*;
use crate::text::{chars_of, lower, trim};

verus! {

/// A decoded image in RGBA8 pixels.
#[derive(Debug, PartialEq, Eq)]
pub struct DecodedImage {
    /// Intrinsic pixel width.
    pub width: u32,
    /// Intrinsic pixel height.
    pub height: u32,
    /// RGBA8 pixels in row-major order.
    pub pixels: Vec<u8>,
}

/// A decoded image resource associated with an HTML `src`.
#[derive(Debug, PartialEq, Eq)]
pub struct ImageResource {
    /// Source string as written in the HTML attribute.
    pub src: String,
    /// Final resolved URL after loading.
    pub final_url: String,
    /// Decoded image pixels and intrinsic dimensions.
    pub image: DecodedImage,
}

/// An image resource as plain values, without its key.
pub struct ImageModel {
    /// Final URL.
    pub final_url: Seq<char>,
    /// Width.
    pub width: u32,
    /// Height.
    pub height: u32,
    /// Pixels.
    pub pixels: Seq<u8>,
}

/// `r` as plain values.
pub open spec fn image_model(r: ImageResource) -> ImageModel {
    ImageModel {
        final_url: r.final_url@,
        width: r.image.width,
        height: r.image.height,
        pixels: r.image.pixels@,
    }
}

impl Clone for DecodedImage {
    fn clone(&self) -> (r: Self)
        ensures
            r.width == self.width,
            r.height == self.height,
            r.pixels@ == self.pixels@,
    {
        let pixels = self.pixels.clone();
        proof {
            assert(pixels@ =~= self.pixels@);
        }
        DecodedImage { width: self.width, height: self.height, pixels }
    }
}

impl Clone for ImageResource {
    fn clone(&self) -> (r: Self)
        ensures
            r.src@ == self.src@,
            image_model(r) == image_model(*self),
    {
        ImageResource {
            src: self.src.clone(),
            final_url: self.final_url.clone(),
            image: self.image.clone(),
        }
    }
}

/// Decoded images keyed by the exact `src` attribute value, in key order.
#[derive(Debug, PartialEq, Eq)]
pub struct ImageMap {
    images: Vec<ImageResource>,
}

impl ImageMap {
    #[verifier::type_invariant]
    spec fn well_formed(self) -> bool {
        crate::dom::names_sorted(self.entries())
    }

    /// The stored resources as (src, image) pairs in key order.
    pub closed spec fn entries(self) -> Seq<(Seq<char>, ImageModel)> {
        Seq::new(
            self.images@.len(),
            |i: int| (self.images@[i].src@, image_model(self.images@[i])),
        )
    }

    /// Creates an empty image map.
    pub fn empty() -> (m: Self)
        ensures
            m.entries() == Seq::<(Seq<char>, ImageModel)>::empty(),
    {
        let m = ImageMap { images: Vec::new() };
        proof {
            assert(m.entries() =~= Seq::<(Seq<char>, ImageModel)>::empty());
        }
        m
    }

    /// Number of decoded images.
    pub fn len(&self) -> (n: usize)
        ensures
            n == self.entries().len(),
    {
        self.images.len()
    }

    /// Whether the map is empty.
    pub fn is_empty(&self) -> (b: bool)
        ensures
            b == (self.entries().len() == 0),
    {
        self.images.len() == 0
    }

    /// The decoded resources in strictly increasing `src` order.
    pub fn iter(&self) -> (r: &[ImageResource])
        ensures
            r@.len() == self.entries().len(),
            forall|i: int|
                0 <= i < r@.len() ==> (#[trigger] r@[i]).src@ == self.entries()[i].0 && image_model(
                    r@[i],
                ) == self.entries()[i].1,
            crate::dom::names_sorted(self.entries()),
    {
        proof {
            use_type_invariant(self);
        }
        self.images.as_slice()
    }

    /// Returns the decoded image stored under an HTML `src` value.
    pub fn get(&self, src: &str) -> (r: Option<&ImageResource>)
        ensures
            match r {
                Some(x) => crate::dom::attr_lookup(self.entries(), src@) == Some(image_model(*x))
                    && x.src@ == src@,
                None => crate::dom::attr_lookup(self.entries(), src@) is None,
            },
    {
        let key = chars_of(src);
        let mut i: usize = 0;
        while i < self.images.len()
            invariant
                i <= self.images@.len(),
                key@ == src@,
                crate::dom::name_index_from(self.entries(), src@, i as int)
                    == crate::dom::name_index_from(self.entries(), src@, 0),
            decreases self.images@.len() - i,
        {
            let k = chars_of(self.images[i].src.as_str());
            if crate::text::vec_eq(&k, &key) {
                return Some(&self.images[i]);
            }
            i += 1;
        }
        None
    }

    /// Inserts a decoded resource under its `src`, replacing an earlier one.
    pub fn insert(&mut self, resource: ImageResource)
        ensures
            final(self).entries() == crate::dom::attr_insert(
                old(self).entries(),
                resource.src@,
                image_model(resource),
            ),
    {
        proof {
            use_type_invariant(&*self);
        }
        let ghost p = self.entries();
        let ghost key = resource.src@;
        let ghost val = image_model(resource);
        let k = chars_of(resource.src.as_str());
        let mut i: usize = 0;
        while i < self.images.len() && crate::text::text_lt_exec(
            &chars_of(self.images[i].src.as_str()),
            &k,
        )
            invariant
                i <= self.images@.len(),
                p == self.entries(),
                k@ == key,
                crate::dom::insert_pos_from(p, key, i as int) == crate::dom::insert_pos_from(
                    p,
                    key,
                    0,
                ),
            decreases self.images@.len() - i,
        {
            i += 1;
        }
        proof {
            crate::dom::lemma_attr_insert_sorted(p, key, val);
        }
        let present = if i < self.images.len() {
            let w = chars_of(self.images[i].src.as_str());
            crate::text::vec_eq(&w, &k)
        } else {
            false
        };
        let mut images: Vec<ImageResource> = Vec::new();
        let mut j: usize = 0;
        while j < i
            invariant
                j <= i <= self.images@.len(),
                p == self.entries(),
                images@.len() == j,
                forall|q: int| 0 <= q < j ==> (#[trigger] images@[q]).src@ == p[q].0 && image_model(images@[q]) == p[q].1,
            decreases i - j,
        {
            images.push(self.images[j].clone());
            j += 1;
        }
        images.push(resource);
        let mut j: usize = if present {
            i + 1
        } else {
            i
        };
        let ghost start = j as int;
        while j < self.images.len()
            invariant
                0 <= start <= j <= self.images@.len(),
                start == (if present { i + 1 } else { i as int }),
                p == self.entries(),
                images@.len() == i + 1 + (j - start),
                forall|q: int| 0 <= q < i ==> (#[trigger] images@[q]).src@ == p[q].0 && image_model(images@[q]) == p[q].1,
                images@[i as int].src@ == key && image_model(images@[i as int]) == val,
                forall|q: int|
                    start <= q < j ==> (#[trigger] images@[i + 1 + q - start]).src@ == p[q].0
                        && image_model(images@[i + 1 + q - start]) == p[q].1,
            decreases self.images@.len() - j,
        {
            images.push(self.images[j].clone());
            j += 1;
        }
        proof {
            let newp = Seq::new(images@.len(), |q: int| (images@[q].src@, image_model(images@[q])));
            let qq = crate::dom::attr_insert(p, key, val);
            assert(present == (i < p.len() && p[i as int].0 == key));
            assert(newp.len() == qq.len());
            assert forall|q: int| 0 <= q < qq.len() implies newp[q] == qq[q] by {
                if q < i {
                } else if q == i {
                } else if present {
                    assert(images@[i + 1 + q - start] == images@[q]);
                } else {
                    assert(images@[i + 1 + (q - 1) - start] == images@[q]);
                }
            }
            assert(newp =~= qq);
        }
        self.images = images;
    }
}

/// Overflow behavior preserved for render and hit-testing consumers.
#[derive(Debug, Clone, Copy, PartialEq, Eq)]
pub enum Overflow {
    /// Content may extend beyond the viewport.
    Visible,
    /// Content is clipped without scrolling.
    Hidden,
    /// Content is always scrollable.
    Scroll,
    /// Content is scrollable when it exceeds the viewport.
    Auto,
}

/// Supported positioning modes.
#[derive(Debug, Clone, Copy, PartialEq, Eq)]
pub enum PositionMode {
    /// Normal document flow.
    Static,
    /// Normal flow with visual offset.
    Relative,
    /// Removed from normal block flow.
    Absolute,
}

/// Layout algorithm used for a box's children.
#[derive(Debug, Clone, Copy, PartialEq, Eq)]
pub enum LayoutFlow {
    /// Normal block/inline flow.
    Block,
    /// Flex formatting context.
    Flex,
    /// Grid formatting context.
    Grid,
    /// Simple table formatting context.
    Table,
}

impl LayoutFlow {
    /// The dump name of the flow.
    pub fn as_str(self) -> (r: &'static str)
        ensures
            r@ == match self {
                LayoutFlow::Block => "block"@,
                LayoutFlow::Flex => "flex"@,
                LayoutFlow::Grid => "grid"@,
                LayoutFlow::Table => "table"@,
            },
    {
        match self {
            LayoutFlow::Block => "block",
            LayoutFlow::Flex => "flex",
            LayoutFlow::Grid => "grid",
            LayoutFlow::Table => "table",
        }
    }
}

impl PositionMode {
    /// The dump name of the positioning mode.
    pub fn as_str(self) -> (r: &'static str)
        ensures
            r@ == match self {
                PositionMode::Static => "static"@,
                PositionMode::Relative => "relative"@,
                PositionMode::Absolute => "absolute"@,
            },
    {
        match self {
            PositionMode::Static => "static",
            PositionMode::Relative => "relative",
            PositionMode::Absolute => "absolute",
        }
    }
}

/// Source element metadata useful for inspection/debug tooling.
#[derive(Debug, Clone, PartialEq, Eq)]
pub struct ElementMetadata {
    /// Stable DOM node id, when this box maps to a source element.
    pub node_id: Option<u64>,
    /// Element id attribute, if present.
    pub id: Option<String>,
    /// Element classes split on ASCII whitespace, in source order.
    pub classes: Vec<String>,
}

/// Select option metadata in document order.
#[derive(Debug, Clone, PartialEq, Eq)]
pub struct FormOption {
    /// Submitted value.
    pub value: String,
    /// Visible label.
    pub label: String,
    /// Whether this option has the `selected` attribute.
    pub selected: bool,
    /// Whether this option is disabled.
    pub disabled: bool,
}

/// Supported form control types.
#[derive(Debug, Clone, Copy, PartialEq, Eq)]
pub enum FormControlType {
    /// Text input.
    Text,
    /// Search input.
    Search,
    /// Password input.
    Password,
    /// Email input.
    Email,
    /// Checkbox input.
    Checkbox,
    /// Radio input.
    Radio,
    /// Select dropdown.
    Select,
    /// Multi-line text area.
    Textarea,
    /// Submit input/button.
    Submit,
    /// Generic button.
    Button,
    /// Reset button.
    Reset,
}

/// Owning form metadata snapshot.
#[derive(Debug, Clone, PartialEq, Eq)]
pub struct FormMetadata {
    /// Stable form id assigned in layout order.
    pub id: usize,
    /// Stable DOM node id for the owning form element.
    pub node_id: u64,
    /// `action` attribute, if present.
    pub action: Option<String>,
    /// `method` attribute normalized to lowercase when present.
    pub method: Option<String>,
}

/// RGBA color snapshot owned by layout output.
#[derive(Debug, Clone, Copy, PartialEq, Eq)]
pub struct VisualColor {
    /// Red channel.
    pub r: u8,
    /// Green channel.
    pub g: u8,
    /// Blue channel.
    pub b: u8,
    /// Alpha channel.
    pub a: u8,
}

/// Font weight snapshot for render-facing text runs.
#[derive(Debug, Clone, Copy, PartialEq, Eq)]
pub enum FontWeight {
    /// Normal text weight.
    Normal,
    /// Bold text weight.
    Bold,
}

/// Font family snapshot for render-facing text runs.
#[derive(Debug, Clone, Copy, PartialEq, Eq)]
pub enum FontFamily {
    /// Default sans/proportional family.
    Sans,
    /// Deterministic monospace family.
    Monospace,
}

/// Text decoration snapshot for render-facing text runs.
#[derive(Debug, Clone, Copy, PartialEq, Eq)]
pub enum TextDecoration {
    /// No decoration.
    NoDecoration,
    /// Underline decoration.
    Underline,
}

/// Border visuals needed by display-list generation.
#[derive(Debug, Clone, Copy, PartialEq, Eq)]
pub struct BorderVisuals {
    /// Border color.
    pub color: VisualColor,
}

/// Box visuals needed by display-list generation.
#[derive(Debug, Clone, Copy, PartialEq, Eq)]
pub struct BoxVisuals {
    /// Background fill color.
    pub background_color: VisualColor,
    /// Border visual data.
    pub border: BorderVisuals,
}

/// Text visuals needed by display-list generation.
#[derive(Debug, Clone, PartialEq, Eq)]
pub struct TextVisuals {
    /// Text color.
    pub color: VisualColor,
    /// Font weight.
    pub font_weight: FontWeight,
    /// Font family category.
    pub font_family: FontFamily,
    /// Text decoration.
    pub text_decoration: TextDecoration,
    /// Whether this text participates in link behavior.
    pub is_link: bool,
    /// Link target for linked text.
    pub href: Option<String>,
    /// Stable DOM node id for the owning link element.
    pub link_node_id: Option<u64>,
}

/// A grid item's cell area: first column and row (0-based) and spans.
#[derive(Debug, Clone, Copy, PartialEq, Eq)]
pub struct GridPlacement {
    /// First column.
    pub column: usize,
    /// First row.
    pub row: usize,
    /// Columns spanned.
    pub column_span: usize,
    /// Rows spanned.
    pub row_span: usize,
}

/// `a + b`, capped at `usize::MAX`.
pub open spec fn sat_add(a: int, b: int) -> int {
    if a + b > usize::MAX {
        usize::MAX as int
    } else {
        a + b
    }
}

/// `n`, at least one.
pub open spec fn at_least_one(n: usize) -> int {
    if n == 0 {
        1
    } else {
        n as int
    }
}

/// Whether some cell of the area starting at (`column`, `row`) with the
/// given spans (at least one each; the end saturating at `usize::MAX`) is
/// listed in `occupied`.
pub open spec fn area_occupied(
    occupied: Seq<(usize, usize)>,
    column: usize,
    row: usize,
    column_span: usize,
    row_span: usize,
) -> bool {
    exists|k: int|
        0 <= k < occupied.len() && column <= (#[trigger] occupied[k]).0 < sat_add(
            column as int,
            at_least_one(column_span),
        ) && row <= occupied[k].1 < sat_add(row as int, at_least_one(row_span))
}

/// Whether the cell area is occupied.
pub fn grid_area_occupied(
    occupied: &[(usize, usize)],
    column: usize,
    row: usize,
    column_span: usize,
    row_span: usize,
) -> (b: bool)
    ensures
        b == area_occupied(occupied@, column, row, column_span, row_span),
{
    let cs: usize = if column_span == 0 {
        1
    } else {
        column_span
    };
    let rs: usize = if row_span == 0 {
        1
    } else {
        row_span
    };
    let c_end: usize = if column > usize::MAX - cs {
        usize::MAX
    } else {
        column + cs
    };
    let r_end: usize = if row > usize::MAX - rs {
        usize::MAX
    } else {
        row + rs
    };
    let mut k: usize = 0;
    while k < occupied.len()
        invariant
            k <= occupied@.len(),
            c_end == sat_add(column as int, at_least_one(column_span)),
            r_end == sat_add(row as int, at_least_one(row_span)),
            forall|j: int|
                0 <= j < k ==> !(column <= (#[trigger] occupied@[j]).0 < c_end && row
                    <= occupied@[j].1 < r_end),
        decreases occupied@.len() - k,
    {
        let (c, r) = occupied[k];
        if column <= c && c < c_end && row <= r && r < r_end {
            return true;
        }
        k += 1;
    }
    false
}

/// The first row, from 0 down, where the area at `column` is free.
pub fn first_free_row(
    occupied: &[(usize, usize)],
    column: usize,
    column_span: usize,
    row_span: usize,
) -> (r: usize)
    ensures
        !area_occupied(occupied@, column, r, column_span, row_span),
        forall|q: usize| q < r ==> area_occupied(occupied@, column, q, column_span, row_span),
        occupied@.len() == 0 ==> r == 0,
        r > 0 ==> exists|k: int| 0 <= k < occupied@.len() && (#[trigger] occupied@[k]).1 + 1 >= r,
{
    let mut row: usize = 0;
    while grid_area_occupied(occupied, column, row, column_span, row_span)
        invariant
            forall|q: usize| q < row ==> area_occupied(occupied@, column, q, column_span, row_span),
        decreases usize::MAX - row,
    {
        if row == usize::MAX {
            proof {
                let k = choose|k: int|
                    0 <= k < occupied@.len() && column <= (#[trigger] occupied@[k]).0 < sat_add(
                        column as int,
                        at_least_one(column_span),
                    ) && row <= occupied@[k].1 < sat_add(row as int, at_least_one(row_span));
            }
        }
        row = row + 1;
    }
    proof {
        if row > 0 {
            let prev = (row - 1) as usize;
            assert(area_occupied(occupied@, column, prev, column_span, row_span));
            let k = choose|k: int|
                0 <= k < occupied@.len() && column <= (#[trigger] occupied@[k]).0 < sat_add(
                    column as int,
                    at_least_one(column_span),
                ) && prev <= occupied@[k].1 < sat_add(prev as int, at_least_one(row_span));
            assert(occupied@[k].1 + 1 >= row);
        }
    }
    row
}

/// The first column, from 0 rightwards, where the area at `row` is free.
pub fn first_free_column(
    occupied: &[(usize, usize)],
    row: usize,
    column_span: usize,
    row_span: usize,
) -> (c: usize)
    ensures
        !area_occupied(occupied@, c, row, column_span, row_span),
        forall|q: usize| q < c ==> area_occupied(occupied@, q, row, column_span, row_span),
{
    let mut column: usize = 0;
    while grid_area_occupied(occupied, column, row, column_span, row_span)
        invariant
            forall|q: usize| q < column ==> area_occupied(occupied@, q, row, column_span, row_span),
        decreases usize::MAX - column,
    {
        if column == usize::MAX {
            proof {
                let k = choose|k: int|
                    0 <= k < occupied@.len() && column <= (#[trigger] occupied@[k]).0 < sat_add(
                        column as int,
                        at_least_one(column_span),
                    ) && row <= occupied@[k].1 < sat_add(row as int, at_least_one(row_span));
            }
        }
        column = column + 1;
    }
    column
}

/// The next cell in auto-placement order after (`column`, `row`): the next
/// column, wrapping to the next row at `auto_columns` (at least one).
pub open spec fn next_auto_cell(column: usize, row: usize, auto_columns: usize) -> (usize, usize) {
    let c = if column == usize::MAX {
        usize::MAX
    } else {
        (column + 1) as usize
    };
    if c >= at_least_one(auto_columns) {
        (0, if row == usize::MAX {
            usize::MAX
        } else {
            (row + 1) as usize
        })
    } else {
        (c, row)
    }
}

/// The cells auto-placement visits from (`column`, `row`), `n` steps on.
pub open spec fn auto_cell_after(column: usize, row: usize, auto_columns: usize, n: nat) -> (
    usize,
    usize,
)
    decreases n,
{
    if n == 0 {
        (column, row)
    } else {
        let (c, r) = auto_cell_after(column, row, auto_columns, (n - 1) as nat);
        next_auto_cell(c, r, auto_columns)
    }
}

/// The first free cell in auto-placement order from (`column`, `row`).
pub fn first_free_auto_cell(
    occupied: &[(usize, usize)],
    column: usize,
    row: usize,
    column_span: usize,
    row_span: usize,
    auto_columns: usize,
) -> (r: (usize, usize))
    ensures
        !area_occupied(occupied@, r.0, r.1, column_span, row_span),
        exists|n: nat|
            auto_cell_after(column, row, auto_columns, n) == r && forall|m: nat|
                m < n ==> #[trigger] area_occupied(
                    occupied@,
                    auto_cell_after(column, row, auto_columns, m).0,
                    auto_cell_after(column, row, auto_columns, m).1,
                    column_span,
                    row_span,
                ),
{
    let autos: usize = if auto_columns == 0 {
        1
    } else {
        auto_columns
    };
    let mut c = column;
    let mut r = row;
    let ghost mut n: nat = 0;
    while grid_area_occupied(occupied, c, r, column_span, row_span)
        invariant
            autos == at_least_one(auto_columns),
            auto_cell_after(column, row, auto_columns, n) == (c, r),
            forall|m: nat|
                m < n ==> #[trigger] area_occupied(
                    occupied@,
                    auto_cell_after(column, row, auto_columns, m).0,
                    auto_cell_after(column, row, auto_columns, m).1,
                    column_span,
                    row_span,
                ),
            c < autos || n == 0,
        decreases usize::MAX - r, usize::MAX - c,
    {
        if r == usize::MAX {
            proof {
                let k = choose|k: int|
                    0 <= k < occupied@.len() && c <= (#[trigger] occupied@[k]).0 < sat_add(
                        c as int,
                        at_least_one(column_span),
                    ) && r <= occupied@[k].1 < sat_add(r as int, at_least_one(row_span));
            }
        }
        let ghost old_c = c;
        let ghost old_r = r;
        c = if c == usize::MAX {
            usize::MAX
        } else {
            c + 1
        };
        if c >= autos {
            c = 0;
            r = r + 1;
        } else {
            proof {
                assert(old_c < usize::MAX);
            }
        }
        proof {
            n = n + 1;
        }
    }
    proof {
        assert(auto_cell_after(column, row, auto_columns, n) == (c, r));
    }
    (c, r)
}

/// Marks the cells of a placement as occupied.
pub fn mark_grid_cells(occupied: &mut Vec<(usize, usize)>, placement: GridPlacement)
    ensures
        final(occupied)@.len() >= old(occupied)@.len(),
        forall|k: int| 0 <= k < old(occupied)@.len() ==> final(occupied)@[k] == old(occupied)@[k],
        forall|c: usize, r: usize|
            placement.column <= c < sat_add(
                placement.column as int,
                at_least_one(placement.column_span),
            ) && placement.row <= r < sat_add(placement.row as int, at_least_one(placement.row_span))
                ==> #[trigger] final(occupied)@.contains((c, r)),
        forall|k: int|
            old(occupied)@.len() <= k < final(occupied)@.len() ==> {
                let (c, r) = #[trigger] final(occupied)@[k];
                placement.column <= c < sat_add(
                    placement.column as int,
                    at_least_one(placement.column_span),
                ) && placement.row <= r < sat_add(
                    placement.row as int,
                    at_least_one(placement.row_span),
                )
            },
{
    let cs: usize = if placement.column_span == 0 {
        1
    } else {
        placement.column_span
    };
    let rs: usize = if placement.row_span == 0 {
        1
    } else {
        placement.row_span
    };
    let c_end: usize = if placement.column > usize::MAX - cs {
        usize::MAX
    } else {
        placement.column + cs
    };
    let r_end: usize = if placement.row > usize::MAX - rs {
        usize::MAX
    } else {
        placement.row + rs
    };
    let ghost base = old(occupied)@;
    let mut c = placement.column;
    while c < c_end
        invariant
            placement.column <= c <= c_end,
            c_end == sat_add(placement.column as int, at_least_one(placement.column_span)),
            r_end == sat_add(placement.row as int, at_least_one(placement.row_span)),
            base == old(occupied)@,
            occupied@.len() >= base.len(),
            forall|k: int| 0 <= k < base.len() ==> occupied@[k] == base[k],
            forall|x: usize, y: usize|
                placement.column <= x < c && placement.row <= y < r_end ==> #[trigger] occupied@.contains(
                    (x, y),
                ),
            forall|k: int|
                base.len() <= k < occupied@.len() ==> {
                    let (x, y) = #[trigger] occupied@[k];
                    placement.column <= x < c_end && placement.row <= y < r_end
                },
        decreases c_end - c,
    {
        let mut r = placement.row;
        while r < r_end
            invariant
                placement.column <= c < c_end,
                placement.row <= r <= r_end,
                c_end == sat_add(placement.column as int, at_least_one(placement.column_span)),
                r_end == sat_add(placement.row as int, at_least_one(placement.row_span)),
                occupied@.len() >= base.len(),
                forall|k: int| 0 <= k < base.len() ==> occupied@[k] == base[k],
                forall|x: usize, y: usize|
                    placement.column <= x < c && placement.row <= y < r_end ==> #[trigger] occupied@.contains(
                        (x, y),
                    ),
                forall|y: usize| placement.row <= y < r ==> #[trigger] occupied@.contains((c, y)),
                forall|k: int|
                    base.len() <= k < occupied@.len() ==> {
                        let (x, y) = #[trigger] occupied@[k];
                        placement.column <= x < c_end && placement.row <= y < r_end
                    },
            decreases r_end - r,
        {
            let ghost before = occupied@;
            occupied.push((c, r));
            proof {
                assert(occupied@[occupied@.len() - 1] == (c, r));
                assert forall|x: usize, y: usize|
                    placement.column <= x < c && placement.row <= y < r_end implies #[trigger] occupied@.contains((x, y)) by {
                    assert(before.contains((x, y)));
                    let k = choose|k: int| 0 <= k < before.len() && before[k] == (x, y);
                    assert(occupied@[k] == (x, y));
                }
                assert forall|y: usize| placement.row <= y < r + 1 implies #[trigger] occupied@.contains((c, y)) by {
                    if y < r {
                        assert(before.contains((c, y)));
                        let k = choose|k: int| 0 <= k < before.len() && before[k] == (c, y);
                        assert(occupied@[k] == (c, y));
                    }
                }
            }
            r = r + 1;
        }
        c = c + 1;
    }
}

/// The 0-based first track of a line placement: its start line less one.
pub open spec fn line_start(p: crate::css::GridPlacement) -> Option<usize> {
    match p.start {
        Some(l) => Some(
            if l == 0 {
                0usize
            } else {
                (l - 1) as usize
            },
        ),
        None => None,
    }
}

/// The tracks a line placement spans: end less start when both are given
/// and the end is later, else one.
pub open spec fn line_span(p: crate::css::GridPlacement) -> usize {
    match (p.start, p.end) {
        (Some(s), Some(e)) => if e > s {
            (e - s) as usize
        } else {
            1
        },
        _ => 1,
    }
}

/// Whether cell (`c`, `r`) lies in the area of `p`.
pub open spec fn in_area(p: GridPlacement, c: usize, r: usize) -> bool {
    &&& p.column <= c < sat_add(p.column as int, at_least_one(p.column_span))
    &&& p.row <= r < sat_add(p.row as int, at_least_one(p.row_span))
}

/// Whether cell (`c`, `r`) lies in the area of some placement of `ps`.
pub open spec fn covered(ps: Seq<GridPlacement>, c: usize, r: usize) -> bool {
    exists|j: int| 0 <= j < ps.len() && in_area(#[trigger] ps[j], c, r)
}

/// Whether some cell of an area lies in the area of some placement of `ps`.
pub open spec fn area_covered(
    ps: Seq<GridPlacement>,
    column: usize,
    row: usize,
    column_span: usize,
    row_span: usize,
) -> bool {
    exists|c: usize, r: usize|
        column <= c < sat_add(column as int, at_least_one(column_span)) && row <= r < sat_add(
            row as int,
            at_least_one(row_span),
        ) && #[trigger] covered(ps, c, r)
}

/// Whether an item has neither a column nor a row start.
pub open spec fn auto_placed(item: (crate::css::GridPlacement, crate::css::GridPlacement)) -> bool {
    line_start(item.0) is None && line_start(item.1) is None
}

/// The auto-placement cursor after the placements `prev` of the first
/// items: just after the last auto-placed item, wrapped at the column
/// count (at least one); the origin before any.
pub open spec fn auto_cursor(
    items: Seq<(crate::css::GridPlacement, crate::css::GridPlacement)>,
    prev: Seq<GridPlacement>,
    auto_columns: usize,
) -> (usize, usize)
    decreases prev.len(),
{
    if prev.len() == 0 {
        (0, 0)
    } else if auto_placed(items[prev.len() - 1]) {
        let p = prev.last();
        let a = at_least_one(auto_columns);
        let c = sat_add(p.column as int, p.column_span as int);
        ((c % a) as usize, sat_add(p.row as int, c / a) as usize)
    } else {
        auto_cursor(items, prev.drop_last(), auto_columns)
    }
}

/// Whether `p` is where the item after the placements `prev` goes: its
/// spans are those of its lines; an explicit start is kept; a missing row
/// (column) is the first whose area no earlier item covers; an item with
/// neither goes to the first uncovered area in auto-placement order from
/// the cursor.
pub open spec fn placed_at(
    items: Seq<(crate::css::GridPlacement, crate::css::GridPlacement)>,
    prev: Seq<GridPlacement>,
    p: GridPlacement,
    auto_columns: usize,
) -> bool {
    let item = items[prev.len() as int];
    &&& p.column_span == line_span(item.0)
    &&& p.row_span == line_span(item.1)
    &&& match (line_start(item.0), line_start(item.1)) {
        (Some(c), Some(r)) => p.column == c && p.row == r,
        (Some(c), None) => p.column == c && !area_covered(
            prev,
            c,
            p.row,
            p.column_span,
            p.row_span,
        ) && forall|q: usize| q < p.row ==> #[trigger] area_covered(prev, c, q, p.column_span, p.row_span),
        (None, Some(r)) => p.row == r && !area_covered(
            prev,
            p.column,
            r,
            p.column_span,
            p.row_span,
        ) && forall|q: usize| q < p.column ==> #[trigger] area_covered(prev, q, r, p.column_span, p.row_span),
        (None, None) => {
            let (cc, cr) = auto_cursor(items, prev, auto_columns);
            &&& !area_covered(prev, p.column, p.row, p.column_span, p.row_span)
            &&& exists|n: nat|
                auto_cell_after(cc, cr, auto_columns, n) == (p.column, p.row) && forall|m: nat|
                    m < n ==> #[trigger] area_covered(
                        prev,
                        auto_cell_after(cc, cr, auto_columns, m).0,
                        auto_cell_after(cc, cr, auto_columns, m).1,
                        p.column_span,
                        p.row_span,
                    )
        },
    }
}

/// Listed cells and covered cells agree, so occupancy of an area does too.
proof fn lemma_area_occupied_covered(
    occupied: Seq<(usize, usize)>,
    ps: Seq<GridPlacement>,
    column: usize,
    row: usize,
    column_span: usize,
    row_span: usize,
)
    requires
        forall|c: usize, r: usize| occupied.contains((c, r)) <==> #[trigger] covered(ps, c, r),
    ensures
        area_occupied(occupied, column, row, column_span, row_span) == area_covered(
            ps,
            column,
            row,
            column_span,
            row_span,
        ),
{
    if area_occupied(occupied, column, row, column_span, row_span) {
        let k = choose|k: int|
            0 <= k < occupied.len() && column <= (#[trigger] occupied[k]).0 < sat_add(
                column as int,
                at_least_one(column_span),
            ) && row <= occupied[k].1 < sat_add(row as int, at_least_one(row_span));
        let (c, r) = occupied[k];
        assert(occupied.contains((c, r)));
        assert(covered(ps, c, r));
    }
    if area_covered(ps, column, row, column_span, row_span) {
        let (c, r) = choose|c: usize, r: usize|
            column <= c < sat_add(column as int, at_least_one(column_span)) && row <= r < sat_add(
                row as int,
                at_least_one(row_span),
            ) && #[trigger] covered(ps, c, r);
        assert(occupied.contains((c, r)));
        let k = choose|k: int| 0 <= k < occupied.len() && occupied[k] == (c, r);
        assert(column <= occupied[k].0 < sat_add(column as int, at_least_one(column_span)));
    }
}

/// `line_start` computed.
fn grid_start(p: crate::css::GridPlacement) -> (r: Option<usize>)
    ensures
        r == line_start(p),
{
    match p.start {
        Some(l) => Some(
            if l == 0 {
                0
            } else {
                l - 1
            },
        ),
        None => None,
    }
}

/// `line_span` computed.
fn grid_placement_span(p: crate::css::GridPlacement) -> (r: usize)
    ensures
        r == line_span(p),
{
    match (p.start, p.end) {
        (Some(s), Some(e)) => if e > s {
            e - s
        } else {
            1
        },
        _ => 1,
    }
}

/// The line after the last column (`columns`) or row of a placement.
pub open spec fn placement_end(p: GridPlacement, columns: bool) -> int {
    if columns {
        sat_add(p.column as int, p.column_span as int)
    } else {
        sat_add(p.row as int, p.row_span as int)
    }
}

/// Whether `r` is the number of columns (`columns`) or rows of a grid with
/// `template` tracks and the given placements: the largest of the template
/// size (at least one) and the end of every placement.
pub open spec fn is_grid_extent(r: int, template: usize, placements: Seq<GridPlacement>, columns: bool) -> bool {
    &&& at_least_one(template) <= r
    &&& forall|i: int| 0 <= i < placements.len() ==> placement_end(#[trigger] placements[i], columns) <= r
    &&& (r == at_least_one(template) || exists|i: int|
        0 <= i < placements.len() && r == placement_end(#[trigger] placements[i], columns))
}

/// Number of grid tracks along one axis.
fn grid_extent(template: usize, placements: &[GridPlacement], columns: bool) -> (r: usize)
    ensures
        is_grid_extent(r as int, template, placements@, columns),
{
    let mut r: usize = if template == 0 {
        1
    } else {
        template
    };
    let mut i: usize = 0;
    while i < placements.len()
        invariant
            i <= placements@.len(),
            at_least_one(template) <= r,
            forall|k: int| 0 <= k < i ==> placement_end(#[trigger] placements@[k], columns) <= r,
            r == at_least_one(template) || exists|k: int|
                0 <= k < i && r == placement_end(#[trigger] placements@[k], columns),
        decreases placements@.len() - i,
    {
        let p = placements[i];
        let end = if columns {
            p.column.saturating_add(p.column_span)
        } else {
            p.row.saturating_add(p.row_span)
        };
        proof {
            assert(end == placement_end(placements@[i as int], columns));
        }
        if end > r {
            r = end;
        }
        i += 1;
    }
    r
}

/// Number of grid columns: the template's (at least one), or more where a
/// placed item reaches further.
pub fn grid_column_count(template_columns: usize, placements: &[GridPlacement]) -> (r: usize)
    ensures
        is_grid_extent(r as int, template_columns, placements@, true),
{
    grid_extent(template_columns, placements, true)
}

/// Number of grid rows: the template's (at least one), or more where a
/// placed item reaches further.
pub fn grid_row_count(template_rows: usize, placements: &[GridPlacement]) -> (r: usize)
    ensures
        is_grid_extent(r as int, template_rows, placements@, false),
{
    grid_extent(template_rows, placements, false)
}

/// Places grid items given their column and row line placements: each
/// item at `placed_at` after the ones before it.
pub fn grid_placements(
    items: &[(crate::css::GridPlacement, crate::css::GridPlacement)],
    auto_columns: usize,
) -> (r: Vec<GridPlacement>)
    ensures
        r@.len() == items@.len(),
        forall|i: int| 0 <= i < r@.len() ==> placed_at(items@, r@.take(i), #[trigger] r@[i], auto_columns),
{
    let mut placements: Vec<GridPlacement> = Vec::new();
    let mut occupied: Vec<(usize, usize)> = Vec::new();
    let mut cursor_row: usize = 0;
    let mut cursor_column: usize = 0;
    let autos: usize = if auto_columns == 0 {
        1
    } else {
        auto_columns
    };
    let mut i: usize = 0;
    while i < items.len()
        invariant
            i <= items@.len(),
            placements@.len() == i,
            autos as int == at_least_one(auto_columns),
            forall|k: int|
                0 <= k < i ==> placed_at(items@, placements@.take(k), #[trigger] placements@[k], auto_columns),
            forall|c: usize, r: usize| occupied@.contains((c, r)) <==> #[trigger] covered(placements@, c, r),
            (cursor_column, cursor_row) == auto_cursor(items@, placements@, auto_columns),
        decreases items@.len() - i,
    {
        let item = items[i];
        let span0 = grid_placement_span(item.0);
        let span1 = grid_placement_span(item.1);
        let explicit_column = grid_start(item.0);
        let explicit_row = grid_start(item.1);
        let ghost prev = placements@;
        proof {
            assert(prev.take(i as int) =~= prev);
            assert(item == items@[prev.len() as int]);
        }
        let placement = match (explicit_column, explicit_row) {
            (Some(column), Some(row)) => GridPlacement { column, row, column_span: span0, row_span: span1 },
            (Some(column), None) => {
                let row = first_free_row(occupied.as_slice(), column, span0, span1);
                proof {
                    lemma_area_occupied_covered(occupied@, prev, column, row, span0, span1);
                    assert forall|q: usize| q < row implies #[trigger] area_covered(prev, column, q, span0, span1) by {
                        lemma_area_occupied_covered(occupied@, prev, column, q, span0, span1);
                    }
                    assert(placed_at(
                        items@,
                        prev,
                        GridPlacement { column, row, column_span: span0, row_span: span1 },
                        auto_columns,
                    ));
                }
                GridPlacement { column, row, column_span: span0, row_span: span1 }
            },
            (None, Some(row)) => {
                let column = first_free_column(occupied.as_slice(), row, span0, span1);
                proof {
                    lemma_area_occupied_covered(occupied@, prev, column, row, span0, span1);
                    assert forall|q: usize| q < column implies #[trigger] area_covered(prev, q, row, span0, span1) by {
                        lemma_area_occupied_covered(occupied@, prev, q, row, span0, span1);
                    }
                    assert(placed_at(
                        items@,
                        prev,
                        GridPlacement { column, row, column_span: span0, row_span: span1 },
                        auto_columns,
                    ));
                }
                GridPlacement { column, row, column_span: span0, row_span: span1 }
            },
            (None, None) => {
                let (column, row) = first_free_auto_cell(
                    occupied.as_slice(),
                    cursor_column,
                    cursor_row,
                    span0,
                    span1,
                    auto_columns,
                );
                proof {
                    lemma_area_occupied_covered(occupied@, prev, column, row, span0, span1);
                    let n = choose|n: nat|
                        auto_cell_after(cursor_column, cursor_row, auto_columns, n) == (column, row)
                            && forall|m: nat|
                            m < n ==> #[trigger] area_occupied(
                                occupied@,
                                auto_cell_after(cursor_column, cursor_row, auto_columns, m).0,
                                auto_cell_after(cursor_column, cursor_row, auto_columns, m).1,
                                span0,
                                span1,
                            );
                    assert forall|m: nat| m < n implies #[trigger] area_covered(
                        prev,
                        auto_cell_after(cursor_column, cursor_row, auto_columns, m).0,
                        auto_cell_after(cursor_column, cursor_row, auto_columns, m).1,
                        span0,
                        span1,
                    ) by {
                        let cell = auto_cell_after(cursor_column, cursor_row, auto_columns, m);
                        lemma_area_occupied_covered(occupied@, prev, cell.0, cell.1, span0, span1);
                    }
                    assert(auto_cursor(items@, prev, auto_columns) == (cursor_column, cursor_row));
                    assert(auto_cell_after(cursor_column, cursor_row, auto_columns, n) == (column, row));
                    let (cc, cr) = auto_cursor(items@, prev, auto_columns);
                    assert(exists|n: nat|
                        auto_cell_after(cc, cr, auto_columns, n) == (column, row) && forall|m: nat|
                            m < n ==> #[trigger] area_covered(
                                prev,
                                auto_cell_after(cc, cr, auto_columns, m).0,
                                auto_cell_after(cc, cr, auto_columns, m).1,
                                span0,
                                span1,
                            ));
                    assert(placed_at(
                        items@,
                        prev,
                        GridPlacement { column, row, column_span: span0, row_span: span1 },
                        auto_columns,
                    ));
                }
                let next_column: usize = if column > usize::MAX - span0 {
                    usize::MAX
                } else {
                    column + span0
                };
                let q = next_column / autos;
                cursor_row = if row > usize::MAX - q {
                    usize::MAX
                } else {
                    row + q
                };
                cursor_column = next_column % autos;
                GridPlacement { column, row, column_span: span0, row_span: span1 }
            },
        };
        proof {
            assert(placed_at(items@, prev, placement, auto_columns));
        }
        let ghost before = occupied@;
        mark_grid_cells(&mut occupied, placement);
        placements.push(placement);
        proof {
            let now = placements@;
            assert(now.take(i as int) =~= prev);
            assert(now.last() == placement);
            assert(now.drop_last() =~= prev);
            assert forall|k: int| 0 <= k < i + 1 implies placed_at(items@, now.take(k), #[trigger] now[k], auto_columns) by {
                if k < i {
                    assert(now.take(k) =~= prev.take(k));
                    assert(now[k] == prev[k]);
                } else {
                    assert(now.take(k) =~= prev);
                }
            }
            assert forall|c: usize, r: usize| occupied@.contains((c, r)) <==> #[trigger] covered(now, c, r) by {
                if occupied@.contains((c, r)) {
                    let k = choose|k: int| 0 <= k < occupied@.len() && occupied@[k] == (c, r);
                    if k < before.len() {
                        assert(before[k] == (c, r));
                        assert(before.contains((c, r)));
                        assert(covered(prev, c, r));
                        let j = choose|j: int| 0 <= j < prev.len() && in_area(#[trigger] prev[j], c, r);
                        assert(now[j] == prev[j]);
                    } else {
                        assert(in_area(now[i as int], c, r));
                    }
                }
                if covered(now, c, r) {
                    let j = choose|j: int| 0 <= j < now.len() && in_area(#[trigger] now[j], c, r);
                    if j < i {
                        assert(now[j] == prev[j]);
                        assert(covered(prev, c, r));
                        assert(before.contains((c, r)));
                        let k = choose|k: int| 0 <= k < before.len() && before[k] == (c, r);
                        assert(occupied@[k] == (c, r));
                    } else {
                        assert(in_area(placement, c, r));
                    }
                }
            }
        }
        i += 1;
    }
    proof {
        assert(placements@.take(items@.len() as int) =~= placements@);
    }
    placements
}

/// An item that lacks a column start, a row start or both shares no cell
/// with any item placed before it.
pub proof fn lemma_placed_items_do_not_overlap(
    items: Seq<(crate::css::GridPlacement, crate::css::GridPlacement)>,
    ps: Seq<GridPlacement>,
    auto_columns: usize,
    i: int,
    j: int,
    c: usize,
    r: usize,
)
    requires
        ps.len() == items.len(),
        forall|k: int| 0 <= k < ps.len() ==> placed_at(items, ps.take(k), #[trigger] ps[k], auto_columns),
        0 <= j < i < ps.len(),
        line_start(items[i].0) is None || line_start(items[i].1) is None,
        in_area(ps[i], c, r),
    ensures
        !in_area(ps[j], c, r),
{
    let prev = ps.take(i);
    assert(placed_at(items, prev, ps[i], auto_columns));
    assert(prev.len() == i);
    if in_area(ps[j], c, r) {
        assert(prev[j] == ps[j]);
        assert(covered(prev, c, r));
        assert(area_covered(prev, ps[i].column, ps[i].row, ps[i].column_span, ps[i].row_span));
    }
}

/// A hexadecimal digit repeated, as `#abc` colors read it.
pub open spec fn nibble_pair(c: char) -> Option<u8> {
    match crate::css::hex_digit_value(c) {
        Some(v) => Some((v * 16 + v) as u8),
        None => None,
    }
}

/// A hexadecimal digit repeated, as `#abc` colors read it.
pub fn hex_nibble_pair(c: char) -> (r: Option<u8>)
    ensures
        r == nibble_pair(c),
{
    match crate::css::hex_value(c) {
        Some(v) => Some(v * 16 + v),
        None => None,
    }
}

/// The byte of two hexadecimal digits.
pub fn hex_byte(high: char, low: char) -> (r: Option<u8>)
    ensures
        r == crate::css::hex_pair(high, low),
{
    crate::css::parse_hex_pair(high, low)
}

/// `#rgb` and `#rrggbb` colors of graphics.
pub open spec fn graphic_hex_color(v: Seq<char>) -> Option<VisualColor> {
    if v.len() == 4 && v[0] == '#' {
        match (nibble_pair(v[1]), nibble_pair(v[2]), nibble_pair(v[3])) {
            (Some(r), Some(g), Some(b)) => Some(VisualColor { r, g, b, a: 255 }),
            _ => None,
        }
    } else if v.len() == 7 && v[0] == '#' {
        match (
            crate::css::hex_pair(v[1], v[2]),
            crate::css::hex_pair(v[3], v[4]),
            crate::css::hex_pair(v[5], v[6]),
        ) {
            (Some(r), Some(g), Some(b)) => Some(VisualColor { r, g, b, a: 255 }),
            _ => None,
        }
    } else {
        None
    }
}

/// Parses `#rgb` or `#rrggbb`.
pub fn parse_hex_color(v: &Vec<char>) -> (r: Option<VisualColor>)
    ensures
        r == graphic_hex_color(v@),
{
    if v.len() == 4 && v[0] == '#' {
        match (hex_nibble_pair(v[1]), hex_nibble_pair(v[2]), hex_nibble_pair(v[3])) {
            (Some(r), Some(g), Some(b)) => Some(VisualColor { r, g, b, a: 255 }),
            _ => None,
        }
    } else if v.len() == 7 && v[0] == '#' {
        match (hex_byte(v[1], v[2]), hex_byte(v[3], v[4]), hex_byte(v[5], v[6])) {
            (Some(r), Some(g), Some(b)) => Some(VisualColor { r, g, b, a: 255 }),
            _ => None,
        }
    } else {
        None
    }
}

/// Colors of SVG/canvas paint attributes: `none`, a few names, or hex.
pub open spec fn graphic_color(v: Seq<char>) -> Option<VisualColor> {
    let k = lower(trim(v));
    if k == "none"@ {
        None
    } else if k == "black"@ {
        Some(VisualColor { r: 0, g: 0, b: 0, a: 255 })
    } else if k == "white"@ {
        Some(VisualColor { r: 255, g: 255, b: 255, a: 255 })
    } else if k == "red"@ {
        Some(VisualColor { r: 255, g: 0, b: 0, a: 255 })
    } else if k == "green"@ {
        Some(VisualColor { r: 0, g: 128, b: 0, a: 255 })
    } else if k == "blue"@ {
        Some(VisualColor { r: 0, g: 0, b: 255, a: 255 })
    } else {
        graphic_hex_color(k)
    }
}

/// Parses an SVG/canvas paint color.
pub fn parse_graphic_color(value: &str) -> (r: Option<VisualColor>)
    ensures
        r == graphic_color(value@),
{
    let k = crate::text::trimmed_lower_chars(value);
    if crate::text::vec_eq_str(&k, "none") {
        None
    } else if crate::text::vec_eq_str(&k, "black") {
        Some(VisualColor { r: 0, g: 0, b: 0, a: 255 })
    } else if crate::text::vec_eq_str(&k, "white") {
        Some(VisualColor { r: 255, g: 255, b: 255, a: 255 })
    } else if crate::text::vec_eq_str(&k, "red") {
        Some(VisualColor { r: 255, g: 0, b: 0, a: 255 })
    } else if crate::text::vec_eq_str(&k, "green") {
        Some(VisualColor { r: 0, g: 128, b: 0, a: 255 })
    } else if crate::text::vec_eq_str(&k, "blue") {
        Some(VisualColor { r: 0, g: 0, b: 255, a: 255 })
    } else {
        parse_hex_color(&k)
    }
}

/// The control type of an `input` element by its `type` (default `text`).
pub open spec fn input_type_of(raw: Option<Seq<char>>) -> FormControlType {
    let t = lower(
        match raw {
            Some(t) => t,
            None => "text"@,
        },
    );
    if t == "search"@ {
        FormControlType::Search
    } else if t == "password"@ {
        FormControlType::Password
    } else if t == "email"@ {
        FormControlType::Email
    } else if t == "checkbox"@ {
        FormControlType::Checkbox
    } else if t == "radio"@ {
        FormControlType::Radio
    } else if t == "submit"@ {
        FormControlType::Submit
    } else {
        FormControlType::Text
    }
}

/// The control type of an `input` element.
pub fn input_control_type(raw_type: Option<&str>) -> (r: FormControlType)
    ensures
        r == input_type_of(
            match raw_type {
                Some(t) => Some(t@),
                None => None,
            },
        ),
{
    let t = match raw_type {
        Some(t) => crate::text::lower_vec(&chars_of(t)),
        None => crate::text::lower_vec(&chars_of("text")),
    };
    if crate::text::vec_eq_str(&t, "search") {
        FormControlType::Search
    } else if crate::text::vec_eq_str(&t, "password") {
        FormControlType::Password
    } else if crate::text::vec_eq_str(&t, "email") {
        FormControlType::Email
    } else if crate::text::vec_eq_str(&t, "checkbox") {
        FormControlType::Checkbox
    } else if crate::text::vec_eq_str(&t, "radio") {
        FormControlType::Radio
    } else if crate::text::vec_eq_str(&t, "submit") {
        FormControlType::Submit
    } else {
        FormControlType::Text
    }
}

/// The control type of a `button` element by its `type` (default `submit`).
pub open spec fn button_type_of(raw: Option<Seq<char>>) -> FormControlType {
    let t = lower(
        match raw {
            Some(t) => t,
            None => "submit"@,
        },
    );
    if t == "button"@ {
        FormControlType::Button
    } else if t == "reset"@ {
        FormControlType::Reset
    } else {
        FormControlType::Submit
    }
}

/// The control type of a `button` element.
pub fn button_control_type(raw_type: Option<&str>) -> (r: FormControlType)
    ensures
        r == button_type_of(
            match raw_type {
                Some(t) => Some(t@),
                None => None,
            },
        ),
{
    let t = match raw_type {
        Some(t) => crate::text::lower_vec(&chars_of(t)),
        None => crate::text::lower_vec(&chars_of("submit")),
    };
    if crate::text::vec_eq_str(&t, "button") {
        FormControlType::Button
    } else if crate::text::vec_eq_str(&t, "reset") {
        FormControlType::Reset
    } else {
        FormControlType::Submit
    }
}

/// The index of the first option at or after `i` that `f` accepts.
pub open spec fn first_option(opts: Seq<FormOption>, f: spec_fn(FormOption) -> bool, i: int) -> Option<int>
    decreases opts.len() - i,
{
    if i < 0 || i >= opts.len() {
        None
    } else if f(opts[i]) {
        Some(i)
    } else {
        first_option(opts, f, i + 1)
    }
}

/// The first option that `f` accepts, computed.
fn find_option(opts: &[FormOption], f: Ghost<spec_fn(FormOption) -> bool>, want: u8, value: &Vec<char>) -> (r: Option<usize>)
    requires
        want == 0 ==> forall|o: FormOption| #[trigger] f@(o) == (o.value@ == value@),
        want == 1 ==> forall|o: FormOption| #[trigger] f@(o) == !o.disabled,
        want == 2 ==> forall|o: FormOption| #[trigger] f@(o) == (o.selected && !o.disabled),
        want <= 2,
    ensures
        match r {
            Some(k) => k < opts@.len() && first_option(opts@, f@, 0) == Some(k as int),
            None => first_option(opts@, f@, 0) is None,
        },
{
    let mut k: usize = 0;
    while k < opts.len()
        invariant
            k <= opts@.len(),
            want == 0 ==> forall|o: FormOption| #[trigger] f@(o) == (o.value@ == value@),
            want == 1 ==> forall|o: FormOption| #[trigger] f@(o) == !o.disabled,
            want == 2 ==> forall|o: FormOption| #[trigger] f@(o) == (o.selected && !o.disabled),
            want <= 2,
            first_option(opts@, f@, k as int) == first_option(opts@, f@, 0),
        decreases opts@.len() - k,
    {
        let o = &opts[k];
        let hit = if want == 0 {
            crate::text::vec_eq(&chars_of(o.value.as_str()), value)
        } else if want == 1 {
            !o.disabled
        } else {
            o.selected && !o.disabled
        };
        proof {
            assert(hit == f@(opts@[k as int]));
        }
        if hit {
            return Some(k);
        }
        k += 1;
    }
    None
}

/// Whether a control shows its value as text (text-like inputs and text
/// areas).
pub open spec fn text_like(t: FormControlType) -> bool {
    t == FormControlType::Text || t == FormControlType::Search || t == FormControlType::Password
        || t == FormControlType::Email || t == FormControlType::Textarea
}

/// The label a form control displays: a text-like control its value (a
/// password masked with one `*` per character) or else its placeholder; a
/// checkbox or radio its state; a select the label of the option with its
/// value, else of the first enabled option; a button its value, or its
/// kind's name when the value is empty.
pub open spec fn control_label_of(
    is_button: bool,
    t: FormControlType,
    value: Seq<char>,
    placeholder: Option<Seq<char>>,
    opts: Seq<FormOption>,
    checked: bool,
) -> Seq<char> {
    if text_like(t) {
        if value.len() == 0 {
            match placeholder {
                Some(p) => p,
                None => Seq::empty(),
            }
        } else if t == FormControlType::Password {
            Seq::new(value.len(), |i: int| '*')
        } else {
            value
        }
    } else if t == FormControlType::Checkbox {
        if checked {
            "[x]"@
        } else {
            "[ ]"@
        }
    } else if t == FormControlType::Radio {
        if checked {
            "(o)"@
        } else {
            "( )"@
        }
    } else if t == FormControlType::Select {
        match first_option(opts, |o: FormOption| o.value@ == value, 0) {
            Some(k) => opts[k].label@,
            None => match first_option(opts, |o: FormOption| !o.disabled, 0) {
                Some(k) => opts[k].label@,
                None => Seq::empty(),
            },
        }
    } else if is_button && value.len() > 0 {
        value
    } else if value.len() == 0 && t == FormControlType::Reset {
        "Reset"@
    } else if value.len() == 0 && t == FormControlType::Submit {
        "Submit"@
    } else if value.len() == 0 && t == FormControlType::Button {
        "Button"@
    } else {
        value
    }
}

/// The label a form control displays; `is_button` says whether it is a
/// `button` element.
pub fn control_label(
    is_button: bool,
    control_type: FormControlType,
    value: &str,
    placeholder: Option<&str>,
    options: &[FormOption],
    checked: bool,
) -> (r: String)
    ensures
        r@ == control_label_of(
            is_button,
            control_type,
            value@,
            crate::response::opt_str(placeholder),
            options@,
            checked,
        ),
{
    let v = chars_of(value);
    let empty = v.len() == 0;
    match control_type {
        FormControlType::Text
        | FormControlType::Search
        | FormControlType::Password
        | FormControlType::Email
        | FormControlType::Textarea => {
            if empty {
                return match placeholder {
                    Some(p) => crate::text::string_from(p),
                    None => String::new(),
                };
            }
            if matches!(control_type, FormControlType::Password) {
                let mut out: Vec<char> = Vec::new();
                let mut i: usize = 0;
                while i < v.len()
                    invariant
                        i <= v@.len(),
                        out@ == Seq::new(i as nat, |j: int| '*'),
                    decreases v@.len() - i,
                {
                    out.push('*');
                    proof {
                        assert(out@ =~= Seq::new((i + 1) as nat, |j: int| '*'));
                    }
                    i += 1;
                }
                proof {
                    assert(out@ =~= Seq::new(value@.len(), |j: int| '*'));
                }
                return crate::text::string_of(&out);
            }
            return crate::text::string_from(value);
        },
        FormControlType::Checkbox => {
            return if checked {
                crate::text::string_from("[x]")
            } else {
                crate::text::string_from("[ ]")
            };
        },
        FormControlType::Radio => {
            return if checked {
                crate::text::string_from("(o)")
            } else {
                crate::text::string_from("( )")
            };
        },
        FormControlType::Select => {
            let by_value = find_option(options, Ghost(|o: FormOption| o.value@ == value@), 0, &v);
            return match by_value {
                Some(k) => options[k].label.clone(),
                None => match find_option(options, Ghost(|o: FormOption| !o.disabled), 1, &v) {
                    Some(k) => options[k].label.clone(),
                    None => String::new(),
                },
            };
        },
        _ => {},
    }
    if is_button && !empty {
        return crate::text::string_from(value);
    }
    if empty {
        match control_type {
            FormControlType::Reset => {
                return crate::text::string_from("Reset");
            },
            FormControlType::Submit => {
                return crate::text::string_from("Submit");
            },
            FormControlType::Button => {
                return crate::text::string_from("Button");
            },
            _ => {},
        }
    }
    crate::text::string_from(value)
}

/// The value a form control submits: its `value` attribute; else a
/// button's text, joined by spaces and trimmed; else `on` for a checkbox
/// or radio, the value of the first selected enabled option (or of the
/// first enabled one) for a select, the text of a text area, or the kind's
/// name for submit, reset and plain buttons; else empty.
pub open spec fn control_value_of(
    value_attr: Option<Seq<char>>,
    is_button: bool,
    texts: Seq<Seq<char>>,
    t: FormControlType,
    opts: Seq<FormOption>,
) -> Seq<char> {
    match value_attr {
        Some(v) => v,
        None => if is_button {
            trim(crate::net::join_words(texts))
        } else if t == FormControlType::Checkbox || t == FormControlType::Radio {
            "on"@
        } else if t == FormControlType::Select {
            match first_option(opts, |o: FormOption| o.selected && !o.disabled, 0) {
                Some(k) => opts[k].value@,
                None => match first_option(opts, |o: FormOption| !o.disabled, 0) {
                    Some(k) => opts[k].value@,
                    None => Seq::empty(),
                },
            }
        } else if t == FormControlType::Textarea {
            texts.flatten_alt()
        } else if t == FormControlType::Submit {
            "Submit"@
        } else if t == FormControlType::Reset {
            "Reset"@
        } else if t == FormControlType::Button {
            "Button"@
        } else {
            Seq::empty()
        },
    }
}

/// The value a form control submits, given its `value` attribute, whether
/// it is a `button` element, the texts of its text children and its options.
pub fn control_value(
    value_attr: Option<&str>,
    is_button: bool,
    child_texts: &Vec<String>,
    control_type: FormControlType,
    options: &[FormOption],
) -> (r: String)
    ensures
        r@ == control_value_of(
            crate::response::opt_str(value_attr),
            is_button,
            crate::js::string_views(child_texts@),
            control_type,
            options@,
        ),
{
    if let Some(v) = value_attr {
        return crate::text::string_from(v);
    }
    let ghost texts = crate::js::string_views(child_texts@);
    if is_button {
        let mut joined: Vec<char> = Vec::new();
        let mut i: usize = 0;
        while i < child_texts.len()
            invariant
                i <= child_texts@.len(),
                texts == crate::js::string_views(child_texts@),
                joined@ == crate::net::join_words(texts.take(i as int)),
            decreases child_texts@.len() - i,
        {
            proof {
                assert(texts.take(i + 1).drop_last() =~= texts.take(i as int));
                assert(texts.take(i + 1).last() == child_texts@[i as int]@);
                reveal_strlit(" ");
                if i == 0 {
                    assert(texts.take(1).len() == 1);
                }
            }
            if i > 0 {
                joined.push(' ');
            }
            crate::text::append_str(&mut joined, child_texts[i].as_str());
            proof {
                if i == 0 {
                    assert(joined@ =~= texts.take(1)[0]);
                } else {
                    assert(joined@ =~= crate::net::join_words(texts.take(i as int)) + " "@ + texts.take(i + 1).last());
                }
            }
            i += 1;
        }
        proof {
            assert(texts.take(child_texts@.len() as int) =~= texts);
        }
        let t = crate::text::trim_vec(&joined);
        return crate::text::string_of(&t);
    }
    match control_type {
        FormControlType::Checkbox | FormControlType::Radio => crate::text::string_from("on"),
        FormControlType::Select => {
            let none: Vec<char> = Vec::new();
            match find_option(options, Ghost(|o: FormOption| o.selected && !o.disabled), 2, &none) {
                Some(k) => options[k].value.clone(),
                None => match find_option(options, Ghost(|o: FormOption| !o.disabled), 1, &none) {
                    Some(k) => options[k].value.clone(),
                    None => String::new(),
                },
            }
        },
        FormControlType::Textarea => {
            let mut out: Vec<char> = Vec::new();
            let mut i: usize = 0;
            while i < child_texts.len()
                invariant
                    i <= child_texts@.len(),
                    texts == crate::js::string_views(child_texts@),
                    out@ == texts.take(i as int).flatten_alt(),
                decreases child_texts@.len() - i,
            {
                proof {
                    assert(texts.take(i + 1).drop_last() =~= texts.take(i as int));
                    assert(texts.take(i + 1).last() == child_texts@[i as int]@);
                }
                crate::text::append_str(&mut out, child_texts[i].as_str());
                i += 1;
            }
            proof {
                assert(texts.take(child_texts@.len() as int) =~= texts);
            }
            crate::text::string_of(&out)
        },
        FormControlType::Submit => crate::text::string_from("Submit"),
        FormControlType::Reset => crate::text::string_from("Reset"),
        FormControlType::Button => crate::text::string_from("Button"),
        _ => String::new(),
    }
}

/// The dump name of a control type.
pub open spec fn control_type_text(t: FormControlType) -> Seq<char> {
    match t {
        FormControlType::Text => "text"@,
        FormControlType::Search => "search"@,
        FormControlType::Password => "password"@,
        FormControlType::Email => "email"@,
        FormControlType::Checkbox => "checkbox"@,
        FormControlType::Radio => "radio"@,
        FormControlType::Select => "select"@,
        FormControlType::Textarea => "textarea"@,
        FormControlType::Submit => "submit"@,
        FormControlType::Button => "button"@,
        FormControlType::Reset => "reset"@,
    }
}

/// The dump name of a control type.
pub fn control_type_name(control_type: FormControlType) -> (r: &'static str)
    ensures
        r@ == control_type_text(control_type),
{
    match control_type {
        FormControlType::Text => "text",
        FormControlType::Search => "search",
        FormControlType::Password => "password",
        FormControlType::Email => "email",
        FormControlType::Checkbox => "checkbox",
        FormControlType::Radio => "radio",
        FormControlType::Select => "select",
        FormControlType::Textarea => "textarea",
        FormControlType::Submit => "submit",
        FormControlType::Button => "button",
        FormControlType::Reset => "reset",
    }
}

/// `rgba(r,g,b,a)` with decimal channels.
pub open spec fn color_text(c: VisualColor) -> Seq<char> {
    "rgba("@ + crate::text::decimal(c.r as nat) + ","@ + crate::text::decimal(c.g as nat) + ","@
        + crate::text::decimal(c.b as nat) + ","@ + crate::text::decimal(c.a as nat) + ")"@
}

/// Formats a color as `rgba(r,g,b,a)`.
pub fn format_color(color: VisualColor) -> (r: String)
    ensures
        r@ == color_text(color),
{
    let mut out = crate::text::string_from("rgba(");
    crate::text::push_str(&mut out, crate::text::decimal_string(color.r as u64).as_str());
    crate::text::push_str(&mut out, ",");
    crate::text::push_str(&mut out, crate::text::decimal_string(color.g as u64).as_str());
    crate::text::push_str(&mut out, ",");
    crate::text::push_str(&mut out, crate::text::decimal_string(color.b as u64).as_str());
    crate::text::push_str(&mut out, ",");
    crate::text::push_str(&mut out, crate::text::decimal_string(color.a as u64).as_str());
    crate::text::push_str(&mut out, ")");
    out
}

/// Escapes backslashes, quotes and control characters for dumps.
pub fn escape_dump_string(input: &str) -> (r: String)
    ensures
        r@ == crate::extract::escape_dump(input@),
{
    crate::extract::escape_dump_string(input)
}

/// Texts joined by single spaces.
pub open spec fn joined(ws: Seq<Seq<char>>) -> Seq<char> {
    crate::net::join_words(ws)
}

/// The inspection metadata of an element with node id `node_id`: its `id`
/// attribute, and its `class` attribute split on ASCII whitespace.
pub fn element_metadata(node_id: u64, id: Option<&str>, class: Option<&str>) -> (r: ElementMetadata)
    ensures
        r.node_id == Some(node_id),
        crate::extract::opt_text(r.id) == crate::response::opt_str(id),
        crate::js::string_views(r.classes@) == match class {
            Some(c) => crate::text::words(c@, true),
            None => Seq::<Seq<char>>::empty(),
        },
{
    let id_text = match id {
        Some(i) => Some(crate::text::string_from(i)),
        None => None,
    };
    let mut classes: Vec<String> = Vec::new();
    match class {
        Some(c) => {
            let ws = crate::text::split_words(&chars_of(c), true);
            let mut k: usize = 0;
            while k < ws.len()
                invariant
                    k <= ws@.len(),
                    ws@.len() == crate::text::words(c@, true).len(),
                    forall|q: int| 0 <= q < ws@.len() ==> #[trigger] ws@[q]@ == crate::text::words(c@, true)[q],
                    crate::js::string_views(classes@) == crate::text::words(c@, true).take(k as int),
                decreases ws@.len() - k,
            {
                let w = crate::text::string_of(&ws[k]);
                let ghost before = classes@;
                let ghost wv = w@;
                classes.push(w);
                proof {
                    assert(ws@[k as int]@ == crate::text::words(c@, true)[k as int]);
                    assert(crate::js::string_views(before) == crate::text::words(c@, true).take(k as int));
                    assert(crate::text::words(c@, true).take(k as int).len() == k);
                    assert(crate::js::string_views(before).len() == before.len());
                    assert(before.len() == k);
                    assert(classes@[k as int]@ == wv);
                    assert(crate::js::string_views(classes@) =~= crate::text::words(c@, true).take(k + 1));
                }
                k += 1;
            }
            proof {
                assert(crate::text::words(c@, true).take(ws@.len() as int) =~= crate::text::words(c@, true));
            }
        },
        None => {
            proof {
                assert(crate::js::string_views(classes@) =~= Seq::<Seq<char>>::empty());
            }
        },
    }
    ElementMetadata { node_id: Some(node_id), id: id_text, classes }
}

/// The ` id="…"` and ` class="…"` suffix of a layout dump line.
pub open spec fn metadata_text(id: Option<Seq<char>>, classes: Seq<Seq<char>>) -> Seq<char> {
    (match id {
        Some(i) => " id=\""@ + crate::extract::escape_dump(i) + "\""@,
        None => Seq::empty(),
    }) + if classes.len() > 0 {
        " class=\""@ + crate::extract::escape_dump(joined(classes)) + "\""@
    } else {
        Seq::empty()
    }
}

/// Appends the id and classes of `metadata` to a dump line.
pub fn append_metadata(metadata: &ElementMetadata, output: &mut String)
    ensures
        final(output)@ == old(output)@ + metadata_text(
            crate::extract::opt_text(metadata.id),
            crate::js::string_views(metadata.classes@),
        ),
{
    let ghost start = output@;
    match &metadata.id {
        Some(id) => {
            crate::text::push_str(output, " id=\"");
            let e = escape_dump_string(id.as_str());
            crate::text::push_str(output, e.as_str());
            crate::text::push_str(output, "\"");
        },
        None => {},
    }
    let ghost mid = output@;
    let ghost cls = crate::js::string_views(metadata.classes@);
    if metadata.classes.len() > 0 {
        let mut joined_text: Vec<char> = Vec::new();
        let mut i: usize = 0;
        proof {
            assert(cls.take(0) =~= Seq::<Seq<char>>::empty());
        }
        while i < metadata.classes.len()
            invariant
                i <= metadata.classes@.len(),
                cls == crate::js::string_views(metadata.classes@),
                joined_text@ == crate::net::join_words(cls.take(i as int)),
            decreases metadata.classes@.len() - i,
        {
            proof {
                assert(cls.take(i + 1).drop_last() =~= cls.take(i as int));
                assert(cls.take(i + 1).last() == metadata.classes@[i as int]@);
            }
            if i > 0 {
                joined_text.push(' ');
            }
            crate::text::append_str(&mut joined_text, metadata.classes[i].as_str());
            proof {
                reveal_strlit(" ");
                assert(joined_text@ =~= crate::net::join_words(cls.take(i + 1)));
            }
            i += 1;
        }
        proof {
            assert(cls.take(cls.len() as int) =~= cls);
        }
        let s = crate::text::string_of(&joined_text);
        crate::text::push_str(output, " class=\"");
        let e = escape_dump_string(s.as_str());
        crate::text::push_str(output, e.as_str());
        crate::text::push_str(output, "\"");
    }
    proof {
        assert(output@ =~= start + metadata_text(crate::extract::opt_text(metadata.id), cls));
    }
}


} // verus!
