//! Image references of a document, decoding of image bytes, and the map of
//! decoded images keyed by `src`.

use vstd::prelude::*;
use crate::dom::{Document, KindModel, Node, NodeModel, models};
use crate::error::WebbyError;
use crate::text::chars_of;
use crate::weburl::{UrlModel, WebUrl, joined_url};

verus! {

/// A decoded image in RGBA8 pixels.
#[derive(Debug, PartialEq, Eq)]
pub struct DecodedImage {
    /// Intrinsic pixel width.
    pub width: u32,
    /// Intrinsic pixel height.
    pub height: u32,
    /// RGBA8 pixels in row-major order.
    pub pixels: Vec<u8>,
}

/// A decoded image resource associated with an HTML `src`.
#[derive(Debug, PartialEq, Eq)]
pub struct ImageResource {
    /// Source string as written in the HTML attribute.
    pub src: String,
    /// Final resolved URL after loading.
    pub final_url: String,
    /// Decoded image pixels and intrinsic dimensions.
    pub image: DecodedImage,
}

/// An image resource as plain values, without its key.
pub struct ImageModel {
    /// Final URL.
    pub final_url: Seq<char>,
    /// Width.
    pub width: u32,
    /// Height.
    pub height: u32,
    /// Pixels.
    pub pixels: Seq<u8>,
}

/// `r` as plain values.
pub open spec fn image_model(r: ImageResource) -> ImageModel {
    ImageModel {
        final_url: r.final_url@,
        width: r.image.width,
        height: r.image.height,
        pixels: r.image.pixels@,
    }
}

impl Clone for DecodedImage {
    fn clone(&self) -> (r: Self)
        ensures
            r.width == self.width,
            r.height == self.height,
            r.pixels@ == self.pixels@,
    {
        let pixels = self.pixels.clone();
        proof {
            assert(pixels@ =~= self.pixels@);
        }
        DecodedImage { width: self.width, height: self.height, pixels }
    }
}

impl Clone for ImageResource {
    fn clone(&self) -> (r: Self)
        ensures
            r.src@ == self.src@,
            image_model(r) == image_model(*self),
    {
        ImageResource {
            src: self.src.clone(),
            final_url: self.final_url.clone(),
            image: self.image.clone(),
        }
    }
}

/// Decoded images keyed by the exact `src` attribute value, in key order.
#[derive(Debug, PartialEq, Eq)]
pub struct ImageMap {
    images: Vec<ImageResource>,
}

impl ImageMap {
    #[verifier::type_invariant]
    spec fn well_formed(self) -> bool {
        crate::dom::names_sorted(self.entries())
    }

    /// The stored resources as (src, image) pairs in key order.
    pub closed spec fn entries(self) -> Seq<(Seq<char>, ImageModel)> {
        Seq::new(
            self.images@.len(),
            |i: int| (self.images@[i].src@, image_model(self.images@[i])),
        )
    }

    /// Creates an empty image map.
    pub fn empty() -> (m: Self)
        ensures
            m.entries() == Seq::<(Seq<char>, ImageModel)>::empty(),
    {
        let m = ImageMap { images: Vec::new() };
        proof {
            assert(m.entries() =~= Seq::<(Seq<char>, ImageModel)>::empty());
        }
        m
    }

    /// Number of decoded images.
    pub fn len(&self) -> (n: usize)
        ensures
            n == self.entries().len(),
    {
        self.images.len()
    }

    /// Whether the map is empty.
    pub fn is_empty(&self) -> (b: bool)
        ensures
            b == (self.entries().len() == 0),
    {
        self.images.len() == 0
    }

    /// The decoded resources in strictly increasing `src` order.
    pub fn iter(&self) -> (r: &[ImageResource])
        ensures
            r@.len() == self.entries().len(),
            forall|i: int|
                0 <= i < r@.len() ==> (#[trigger] r@[i]).src@ == self.entries()[i].0 && image_model(
                    r@[i],
                ) == self.entries()[i].1,
            crate::dom::names_sorted(self.entries()),
    {
        proof {
            use_type_invariant(self);
        }
        self.images.as_slice()
    }

    /// Returns the decoded image stored under an HTML `src` value.
    pub fn get(&self, src: &str) -> (r: Option<&ImageResource>)
        ensures
            match r {
                Some(x) => crate::dom::attr_lookup(self.entries(), src@) == Some(image_model(*x))
                    && x.src@ == src@,
                None => crate::dom::attr_lookup(self.entries(), src@) is None,
            },
    {
        let key = chars_of(src);
        let mut i: usize = 0;
        while i < self.images.len()
            invariant
                i <= self.images@.len(),
                key@ == src@,
                crate::dom::name_index_from(self.entries(), src@, i as int)
                    == crate::dom::name_index_from(self.entries(), src@, 0),
            decreases self.images@.len() - i,
        {
            let k = chars_of(self.images[i].src.as_str());
            if crate::text::vec_eq(&k, &key) {
                return Some(&self.images[i]);
            }
            i += 1;
        }
        None
    }

    /// Inserts a decoded resource under its `src`, replacing an earlier one:
    /// its `src` then gives it, other sources give what they gave, and the
    /// map grows by one exactly when the `src` was not stored.
    pub fn insert(&mut self, resource: ImageResource)
        ensures
            final(self).entries() == crate::dom::attr_insert(
                old(self).entries(),
                resource.src@,
                image_model(resource),
            ),
            crate::dom::attr_lookup(final(self).entries(), resource.src@) == Some(image_model(resource)),
            forall|k: Seq<char>|
                k != resource.src@ ==> #[trigger] crate::dom::attr_lookup(final(self).entries(), k)
                    == crate::dom::attr_lookup(old(self).entries(), k),
            final(self).entries().len() == old(self).entries().len() + if crate::dom::attr_lookup(
                old(self).entries(),
                resource.src@,
            ) is None {
                1int
            } else {
                0int
            },
    {
        proof {
            use_type_invariant(&*self);
            let p0 = self.entries();
            crate::dom::lemma_attr_insert_len(p0, resource.src@, image_model(resource));
            crate::dom::lemma_attr_insert_lookup(p0, resource.src@, image_model(resource), resource.src@);
            assert forall|k: Seq<char>| k != resource.src@ implies #[trigger] crate::dom::attr_lookup(
                crate::dom::attr_insert(p0, resource.src@, image_model(resource)),
                k,
            ) == crate::dom::attr_lookup(p0, k) by {
                crate::dom::lemma_attr_insert_lookup(p0, resource.src@, image_model(resource), k);
            }
        }
        let ghost p = self.entries();
        let ghost key = resource.src@;
        let ghost val = image_model(resource);
        let k = chars_of(resource.src.as_str());
        let mut i: usize = 0;
        while i < self.images.len() && crate::text::text_lt_exec(
            &chars_of(self.images[i].src.as_str()),
            &k,
        )
            invariant
                i <= self.images@.len(),
                p == self.entries(),
                k@ == key,
                crate::dom::insert_pos_from(p, key, i as int) == crate::dom::insert_pos_from(
                    p,
                    key,
                    0,
                ),
            decreases self.images@.len() - i,
        {
            i += 1;
        }
        proof {
            crate::dom::lemma_attr_insert_sorted(p, key, val);
        }
        let present = if i < self.images.len() {
            let w = chars_of(self.images[i].src.as_str());
            crate::text::vec_eq(&w, &k)
        } else {
            false
        };
        let mut images: Vec<ImageResource> = Vec::new();
        let mut j: usize = 0;
        while j < i
            invariant
                j <= i <= self.images@.len(),
                p == self.entries(),
                images@.len() == j,
                forall|q: int| 0 <= q < j ==> (#[trigger] images@[q]).src@ == p[q].0 && image_model(images@[q]) == p[q].1,
            decreases i - j,
        {
            images.push(self.images[j].clone());
            j += 1;
        }
        images.push(resource);
        let mut j: usize = if present {
            i + 1
        } else {
            i
        };
        let ghost start = j as int;
        while j < self.images.len()
            invariant
                0 <= start <= j <= self.images@.len(),
                start == (if present { i + 1 } else { i as int }),
                p == self.entries(),
                images@.len() == i + 1 + (j - start),
                forall|q: int| 0 <= q < i ==> (#[trigger] images@[q]).src@ == p[q].0 && image_model(images@[q]) == p[q].1,
                images@[i as int].src@ == key && image_model(images@[i as int]) == val,
                forall|q: int|
                    start <= q < j ==> (#[trigger] images@[i + 1 + q - start]).src@ == p[q].0
                        && image_model(images@[i + 1 + q - start]) == p[q].1,
            decreases self.images@.len() - j,
        {
            images.push(self.images[j].clone());
            j += 1;
        }
        proof {
            let newp = Seq::new(images@.len(), |q: int| (images@[q].src@, image_model(images@[q])));
            let qq = crate::dom::attr_insert(p, key, val);
            assert(present == (i < p.len() && p[i as int].0 == key));
            assert(newp.len() == qq.len());
            assert forall|q: int| 0 <= q < qq.len() implies newp[q] == qq[q] by {
                if q < i {
                } else if q == i {
                } else if present {
                    assert(images@[i + 1 + q - start] == images@[q]);
                } else {
                    assert(images@[i + 1 + (q - 1) - start] == images@[q]);
                }
            }
            assert(newp =~= qq);
        }
        self.images = images;
    }
}

/// An image reference collected from the DOM.
#[derive(Debug, Clone, PartialEq, Eq)]
pub struct ImageReference {
    /// Source string as written in the HTML attribute.
    pub src: String,
}

/// The nodes of `n` in document order over light children only.
pub open spec fn light_walk(n: NodeModel) -> Seq<NodeModel>
    decreases n, 0int,
{
    seq![n] + light_walk_from(n.children, 0)
}

/// The light walks of `s[i..]`, one after another.
pub open spec fn light_walk_from(s: Seq<NodeModel>, i: int) -> Seq<NodeModel>
    decreases s, s.len() - i,
{
    if i < 0 || i >= s.len() {
        Seq::empty()
    } else {
        light_walk(s[i]) + light_walk_from(s, i + 1)
    }
}

/// The image source of `n`: `src` of an `img`, `poster` of a `video`.
pub open spec fn image_source_of(n: NodeModel) -> Option<Seq<char>> {
    if crate::extract::is_element(n, "img"@) {
        crate::extract::attr_of(n, "src"@)
    } else if crate::extract::is_element(n, "video"@) {
        crate::extract::attr_of(n, "poster"@)
    } else {
        None
    }
}

/// The image sources of a document in light-tree document order.
pub open spec fn image_sources(root: NodeModel) -> Seq<Seq<char>> {
    crate::extract::gather(light_walk(root), |n: NodeModel| image_source_of(n))
}

/// Appends the image sources of `node` and its light descendants.
fn collect_from_node(node: &Node, references: &mut Vec<ImageReference>)
    ensures
        final(references)@.map_values(|r: ImageReference| r.src@) == old(references)@.map_values(
            |r: ImageReference| r.src@,
        ) + crate::extract::gather(light_walk(node@), |n: NodeModel| image_source_of(n)),
    decreases node,
{
    proof {
        crate::dom::lemma_children_models(*node);
        lemma_gather_concat(seq![node@], light_walk_from(node@.children, 0));
        assert(light_walk(node@) == seq![node@] + light_walk_from(node@.children, 0));
        assert(seq![node@].drop_last() =~= Seq::<NodeModel>::empty());
    }
    let ghost before = references@.map_values(|r: ImageReference| r.src@);
    let tag_img = chars_of("img");
    let tag_video = chars_of("video");
    let found = if crate::html::element_named(node, &tag_img) {
        attr_text(node, "src")
    } else if crate::html::element_named(node, &tag_video) {
        attr_text(node, "poster")
    } else {
        None
    };
    proof {
        assert(crate::extract::opt_text(found) == image_source_of(node@));
        let g1 = crate::extract::gather(seq![node@], |n: NodeModel| image_source_of(n));
        assert(seq![node@].last() == node@);
        assert(crate::extract::gather(Seq::<NodeModel>::empty(), |n: NodeModel| image_source_of(n))
            =~= Seq::<Seq<char>>::empty());
        match image_source_of(node@) {
            Some(x) => {
                assert(g1 =~= seq![x]);
            },
            None => {
                assert(g1 =~= Seq::<Seq<char>>::empty());
            },
        }
    }
    match found {
        Some(src) => {
            references.push(ImageReference { src });
            proof {
                assert(references@.map_values(|r: ImageReference| r.src@) =~= before.push(
                    references@.last().src@,
                ));
            }
        },
        None => {},
    }
    proof {
        assert(references@.map_values(|r: ImageReference| r.src@) =~= before
            + crate::extract::gather(seq![node@], |n: NodeModel| image_source_of(n)));
    }
    collect_from_all(&node.children, references);
    proof {
        assert(before + crate::extract::gather(seq![node@], |n: NodeModel| image_source_of(n))
            + crate::extract::gather(light_walk_from(node@.children, 0), |n: NodeModel| image_source_of(n))
            =~= before + crate::extract::gather(light_walk(node@), |n: NodeModel| image_source_of(n)));
    }
}

/// The value of attribute `name` of `node`, copied.
fn attr_text(node: &Node, name: &str) -> (r: Option<String>)
    ensures
        crate::extract::opt_text(r) == crate::extract::attr_of(node@, name@),
{
    match &node.kind {
        crate::dom::NodeKind::Element(e) => match e.attributes.get(name) {
            Some(v) => Some(v.clone()),
            None => None,
        },
        _ => None,
    }
}

/// Gathering distributes over concatenation.
pub proof fn lemma_gather_concat(a: Seq<NodeModel>, b: Seq<NodeModel>)
    ensures
        crate::extract::gather(a + b, |n: NodeModel| image_source_of(n)) == crate::extract::gather(
            a,
            |n: NodeModel| image_source_of(n),
        ) + crate::extract::gather(b, |n: NodeModel| image_source_of(n)),
    decreases b.len(),
{
    if b.len() == 0 {
        assert(a + b =~= a);
        assert(crate::extract::gather(a, |n: NodeModel| image_source_of(n)) + Seq::<Seq<char>>::empty()
            =~= crate::extract::gather(a, |n: NodeModel| image_source_of(n)));
    } else {
        lemma_gather_concat(a, b.drop_last());
        assert((a + b).drop_last() =~= a + b.drop_last());
        assert((a + b).last() == b.last());
        let ga = crate::extract::gather(a, |n: NodeModel| image_source_of(n));
        let gb = crate::extract::gather(b.drop_last(), |n: NodeModel| image_source_of(n));
        match image_source_of(b.last()) {
            Some(x) => {
                assert((ga + gb).push(x) =~= ga + gb.push(x));
            },
            None => {},
        }
    }
}

/// Appends the image sources of each of `nodes` and their light descendants.
fn collect_from_all(nodes: &Vec<Node>, references: &mut Vec<ImageReference>)
    ensures
        final(references)@.map_values(|r: ImageReference| r.src@) == old(references)@.map_values(
            |r: ImageReference| r.src@,
        ) + crate::extract::gather(light_walk_from(models(nodes@), 0), |n: NodeModel| image_source_of(n)),
    decreases nodes@,
{
    let ghost ms = models(nodes@);
    let ghost base = references@.map_values(|r: ImageReference| r.src@);
    let mut i: usize = 0;
    proof {
        assert(base + crate::extract::gather(light_walk_from(ms, 0), |n: NodeModel| image_source_of(n))
            =~= references@.map_values(|r: ImageReference| r.src@) + crate::extract::gather(
            light_walk_from(ms, 0),
            |n: NodeModel| image_source_of(n),
        ));
    }
    while i < nodes.len()
        invariant
            i <= nodes@.len(),
            ms == models(nodes@),
            references@.map_values(|r: ImageReference| r.src@) + crate::extract::gather(
                light_walk_from(ms, i as int),
                |n: NodeModel| image_source_of(n),
            ) == base + crate::extract::gather(light_walk_from(ms, 0), |n: NodeModel| image_source_of(n)),
        decreases nodes@.len() - i,
    {
        assert(decreases_to!(nodes@ => nodes@[i as int]));
        let ghost mid = references@.map_values(|r: ImageReference| r.src@);
        proof {
            assert(ms[i as int] == nodes@[i as int]@);
            lemma_gather_concat(light_walk(ms[i as int]), light_walk_from(ms, i + 1));
        }
        collect_from_node(&nodes[i], references);
        proof {
            assert(references@.map_values(|r: ImageReference| r.src@) + crate::extract::gather(
                light_walk_from(ms, i + 1),
                |n: NodeModel| image_source_of(n),
            ) =~= mid + crate::extract::gather(light_walk_from(ms, i as int), |n: NodeModel| image_source_of(n)));
        }
        i += 1;
    }
    proof {
        assert(light_walk_from(ms, i as int) =~= Seq::<NodeModel>::empty());
        assert(references@.map_values(|r: ImageReference| r.src@) + Seq::<Seq<char>>::empty()
            =~= references@.map_values(|r: ImageReference| r.src@));
    }
}

/// Collects image-bearing references (`img src`, `video poster`) from a
/// parsed document in DOM order, over light children.
pub fn collect_image_references(document: &Document) -> (r: Vec<ImageReference>)
    ensures
        r@.map_values(|x: ImageReference| x.src@) == image_sources(document.root@),
{
    let mut references: Vec<ImageReference> = Vec::new();
    proof {
        assert(references@.map_values(|r: ImageReference| r.src@) =~= Seq::<Seq<char>>::empty());
    }
    collect_from_node(&document.root, &mut references);
    proof {
        assert(Seq::<Seq<char>>::empty() + image_sources(document.root@) =~= image_sources(
            document.root@,
        ));
    }
    references
}

/// The byte sequences handed to the image decoder, in order.
pub struct DecodeLog {
    handed: Ghost<Seq<Seq<u8>>>,
}

impl DecodeLog {
    /// The bytes handed to the decoder.
    pub closed spec fn handed(&self) -> Seq<Seq<u8>> {
        self.handed@
    }

    /// A log of no decodings.
    pub fn new() -> (r: Self)
        ensures
            r.handed() == Seq::<Seq<u8>>::empty(),
    {
        DecodeLog { handed: Ghost(Seq::empty()) }
    }
}

/// `image::ImageReader::with_guessed_format`, `decode` and `to_rgba8` on
/// `bytes`: width, height and RGBA8 pixels, or whether guessing the format
/// failed and the error text. The contract records in `log` that `bytes`
/// were handed to the decoder. The crate consults decoding hooks that a
/// program may register process-wide, so the outcome is not a function of
/// the bytes; of it the contract states only what the crate documents of
/// RGBA8 buffers: four bytes per pixel.
#[verifier::external_body]
fn decode_rgba8(bytes: &[u8], log: &mut DecodeLog) -> (r: Result<(u32, u32, Vec<u8>), (bool, String)>)
    ensures
        final(log).handed() == old(log).handed().push(bytes@),
        r matches Ok((w, h, p)) ==> p@.len() == 4 * (w as int) * (h as int),
{
    let reader = match image::ImageReader::new(std::io::Cursor::new(bytes)).with_guessed_format() {
        Ok(reader) => reader,
        Err(error) => return Err((true, error.to_string())),
    };
    match reader.decode() {
        Ok(image) => {
            let rgba = image.to_rgba8();
            Ok((rgba.width(), rgba.height(), rgba.into_raw()))
        },
        Err(error) => Err((false, error.to_string())),
    }
}

/// The error message of a failed decoding: `guess` tells whether guessing
/// the format failed.
pub open spec fn decode_error_message(guess: bool, text: Seq<char>) -> Seq<char> {
    (if guess {
        "failed to guess image format: "@
    } else {
        "failed to decode image: "@
    }) + text
}

/// The decoded image, or the parse error, that a decoding outcome gives.
pub fn decoded_image(outcome: Result<(u32, u32, Vec<u8>), (bool, String)>) -> (r: Result<DecodedImage, WebbyError>)
    ensures
        match outcome {
            Ok((w, h, p)) => r matches Ok(d) && d.width == w && d.height == h && d.pixels@ == p@,
            Err((g, m)) => r == Err::<DecodedImage, WebbyError>(
                WebbyError::Parse { message: r->Err_0->Parse_message },
            ) && r->Err_0->Parse_message@ == decode_error_message(g, m@),
        },
{
    match outcome {
        Ok((width, height, pixels)) => Ok(DecodedImage { width, height, pixels }),
        Err((guess, text)) => {
            let mut message = if guess {
                crate::text::string_from("failed to guess image format: ")
            } else {
                crate::text::string_from("failed to decode image: ")
            };
            crate::text::push_str(&mut message, text.as_str());
            Err(WebbyError::Parse { message })
        },
    }
}

/// Decodes PNG or JPEG bytes into RGBA8 pixels: four bytes per pixel, or a
/// parse error that says whether the format could not be guessed.
pub fn decode_image(bytes: &[u8]) -> (r: Result<DecodedImage, WebbyError>)
    ensures
        match r {
            Ok(d) => d.pixels@.len() == 4 * (d.width as int) * (d.height as int),
            Err(e) => exists|g: bool, m: Seq<char>|
                e == WebbyError::Parse { message: e->Parse_message } && e->Parse_message@
                    == #[trigger] decode_error_message(g, m),
        },
{
    let mut log = DecodeLog::new();
    decode_image_logged(bytes, &mut log)
}

/// Decodes PNG or JPEG bytes as `decode_image` does, recording in `log`
/// that exactly `bytes` were handed to the decoder.
pub fn decode_image_logged(bytes: &[u8], log: &mut DecodeLog) -> (r: Result<DecodedImage, WebbyError>)
    ensures
        final(log).handed() == old(log).handed().push(bytes@),
        match r {
            Ok(d) => d.pixels@.len() == 4 * (d.width as int) * (d.height as int),
            Err(e) => exists|g: bool, m: Seq<char>|
                e == WebbyError::Parse { message: e->Parse_message } && e->Parse_message@
                    == #[trigger] decode_error_message(g, m),
        },
{
    let outcome = decode_rgba8(bytes, log);
    let ghost o = outcome;
    let r = decoded_image(outcome);
    proof {
        match o {
            Err((g, m)) => {
                assert(decode_error_message(g, m@) == r->Err_0->Parse_message@);
            },
            Ok(_) => {},
        }
    }
    r
}

/// The URL an image `src` resolves to against the URL whose text is
/// `base`: `None` for a blank `src` or one that does not join.
pub open spec fn image_target(base: Seq<char>, src: Seq<char>) -> Option<UrlModel> {
    if crate::text::trim(src).len() == 0 {
        None
    } else {
        match joined_url(base, crate::text::trim(src)) {
            Ok(m) => Some(m),
            Err(_) => None,
        }
    }
}

/// Resolves an image `src` against a document base URL.
pub fn resolve_image_url(base_url: &WebUrl, src: &str) -> (r: Result<WebUrl, WebbyError>)
    ensures
        crate::text::trim(src@).len() == 0 ==> (r matches Err(WebbyError::Url { message })
            && message@ == "image src is empty"@),
        crate::text::trim(src@).len() > 0 ==> match joined_url(base_url@.text, crate::text::trim(src@)) {
            Ok(m) => r matches Ok(u) && u@ == m,
            Err(t) => r matches Err(WebbyError::Url { message }) && message@ == "invalid image URL "@
                + crate::text::debug_quoted(src@) + ": "@ + t,
        },
{
    let trimmed = crate::text::trimmed_chars(src);
    if trimmed.len() == 0 {
        return Err(WebbyError::Url { message: crate::text::string_from("image src is empty") });
    }
    let t = crate::text::string_of(&trimmed);
    match base_url.join(t.as_str()) {
        Ok(u) => Ok(u),
        Err(text) => {
            let mut message = crate::text::string_from("invalid image URL ");
            let q = crate::text::debug_string(src);
            crate::text::push_str(&mut message, q.as_str());
            crate::text::push_str(&mut message, ": ");
            crate::text::push_str(&mut message, text.as_str());
            Err(WebbyError::Url { message })
        },
    }
}

/// An image map entry that loading can produce for a document: its key is
/// a non-blank image source of the document, and its pixels are four bytes
/// per pixel.
pub open spec fn loadable_entry(root: NodeModel, e: (Seq<char>, ImageModel)) -> bool {
    &&& image_sources(root).contains(e.0)
    &&& crate::text::trim(e.0).len() > 0
    &&& e.1.pixels.len() == 4 * (e.1.width as int) * (e.1.height as int)
}

/// What loading met for one image reference: the final URL's text and the
/// body of its response (none when the load failed), and the decoded image
/// (none when decoding failed).
pub struct ImageStep {
    /// Final URL text and body.
    pub response: Option<(Seq<char>, Seq<u8>)>,
    /// Width, height and pixels.
    pub decoded: Option<(u32, u32, Seq<u8>)>,
}

/// Whether a decoded image has four bytes per pixel.
pub open spec fn step_ok(st: ImageStep) -> bool {
    st.decoded matches Some((w, h, p)) ==> p.len() == 4 * (w as int) * (h as int)
}

/// The image map, the URLs handed to the loader and the bodies handed to
/// the decoder after the first `k` references (whose sources are `srcs`),
/// given what loading met for each: a source already in the map, or whose
/// URL does not resolve, is passed over; a `data:` URL is read from its
/// payload; any other URL is handed to the loader; the body of a response
/// is handed to the decoder; a source whose response and decoding succeed
/// is added with its response's final URL and the decoded image.
pub open spec fn images_after(srcs: Seq<Seq<char>>, base: Seq<char>, steps: Seq<ImageStep>, k: int) -> (
    Seq<(Seq<char>, ImageModel)>,
    Seq<Seq<char>>,
    Seq<Seq<u8>>,
)
    decreases k,
{
    if k <= 0 {
        (Seq::empty(), Seq::empty(), Seq::empty())
    } else {
        let (e, req, hd) = images_after(srcs, base, steps, k - 1);
        let s = srcs[k - 1];
        let st = steps[k - 1];
        if crate::dom::attr_lookup(e, s) is Some {
            (e, req, hd)
        } else {
            match image_target(base, s) {
                None => (e, req, hd),
                Some(m) => {
                    let data = m.scheme == "data"@;
                    let req2 = if data {
                        req
                    } else {
                        req.push(m.text)
                    };
                    let response = if data {
                        match crate::response::data_resource_of(m.text) {
                            Ok((_, b)) => Some((m.text, b)),
                            Err(_) => None,
                        }
                    } else {
                        st.response
                    };
                    match response {
                        None => (e, req2, hd),
                        Some((u, b)) => match st.decoded {
                            Some((w, h, p)) => (
                                crate::dom::attr_insert(
                                    e,
                                    s,
                                    ImageModel { final_url: u, width: w, height: h, pixels: p },
                                ),
                                req2,
                                hd.push(b),
                            ),
                            None => (e, req2, hd.push(b)),
                        },
                    }
                },
            }
        }
    }
}

/// Whether loading the `j`-th reference succeeds, were it tried: its URL
/// resolves, its body is read (from a `data:` payload, or as the loader
/// answered) and the body decodes.
pub open spec fn image_step_succeeds(srcs: Seq<Seq<char>>, base: Seq<char>, steps: Seq<ImageStep>, j: int) -> bool {
    match image_target(base, srcs[j]) {
        None => false,
        Some(m) => {
            &&& (if m.scheme == "data"@ {
                crate::response::data_resource_of(m.text) is Ok
            } else {
                steps[j].response is Some
            })
            &&& steps[j].decoded is Some
        },
    }
}

/// After the first `k` references, the map is sorted by source, and a
/// source is a key exactly when one of those references with that source
/// succeeded: every key is the source of a reference, and a source stays
/// out when all its loads or decodings failed.
pub proof fn lemma_images_after_keys(
    srcs: Seq<Seq<char>>,
    base: Seq<char>,
    steps: Seq<ImageStep>,
    k: int,
    s: Seq<char>,
)
    requires
        0 <= k <= srcs.len(),
        k <= steps.len(),
    ensures
        crate::dom::names_sorted(images_after(srcs, base, steps, k).0),
        crate::dom::attr_lookup(images_after(srcs, base, steps, k).0, s) is Some <==> exists|j: int|
            0 <= j < k && srcs[j] == s && #[trigger] image_step_succeeds(srcs, base, steps, j),
    decreases k,
{
    if k > 0 {
        lemma_images_after_keys(srcs, base, steps, k - 1, s);
        let (e, req, hd) = images_after(srcs, base, steps, k - 1);
        let t = srcs[k - 1];
        lemma_images_after_keys(srcs, base, steps, k - 1, t);
        let now = images_after(srcs, base, steps, k).0;
        if crate::dom::attr_lookup(e, t) is Some {
            assert(now == e);
            if s == t {
                let j = choose|j: int| 0 <= j < k - 1 && srcs[j] == t && #[trigger] image_step_succeeds(srcs, base, steps, j);
                assert(image_step_succeeds(srcs, base, steps, j));
            }
            if exists|j: int| 0 <= j < k && srcs[j] == s && #[trigger] image_step_succeeds(srcs, base, steps, j) {
                let j = choose|j: int| 0 <= j < k && srcs[j] == s && #[trigger] image_step_succeeds(srcs, base, steps, j);
                if j < k - 1 {
                    assert(image_step_succeeds(srcs, base, steps, j));
                }
            }
        } else if image_step_succeeds(srcs, base, steps, k - 1) {
            let m = image_target(base, t).unwrap();
            let st = steps[k - 1];
            let u = if m.scheme == "data"@ {
                m.text
            } else {
                st.response.unwrap().0
            };
            let (w, h, px) = st.decoded.unwrap();
            let v = ImageModel { final_url: u, width: w, height: h, pixels: px };
            assert(now == crate::dom::attr_insert(e, t, v));
            crate::dom::lemma_attr_insert_sorted(e, t, v);
            crate::dom::lemma_attr_insert_lookup(e, t, v, s);
            if s == t {
                assert(image_step_succeeds(srcs, base, steps, k - 1));
            } else {
                if exists|j: int| 0 <= j < k && srcs[j] == s && #[trigger] image_step_succeeds(srcs, base, steps, j) {
                    let j = choose|j: int| 0 <= j < k && srcs[j] == s && #[trigger] image_step_succeeds(srcs, base, steps, j);
                    assert(j < k - 1);
                    assert(image_step_succeeds(srcs, base, steps, j));
                }
                if crate::dom::attr_lookup(e, s) is Some {
                    let j = choose|j: int| 0 <= j < k - 1 && srcs[j] == s && #[trigger] image_step_succeeds(srcs, base, steps, j);
                    assert(image_step_succeeds(srcs, base, steps, j));
                }
            }
        } else {
            assert(now == e);
            if exists|j: int| 0 <= j < k && srcs[j] == s && #[trigger] image_step_succeeds(srcs, base, steps, j) {
                let j = choose|j: int| 0 <= j < k && srcs[j] == s && #[trigger] image_step_succeeds(srcs, base, steps, j);
                if j == k - 1 {
                    assert(false);
                }
                assert(image_step_succeeds(srcs, base, steps, j));
            }
            if crate::dom::attr_lookup(e, s) is Some {
                let j = choose|j: int| 0 <= j < k - 1 && srcs[j] == s && #[trigger] image_step_succeeds(srcs, base, steps, j);
                assert(image_step_succeeds(srcs, base, steps, j));
            }
        }
    } else {
        assert(images_after(srcs, base, steps, k).0 =~= Seq::<(Seq<char>, ImageModel)>::empty());
    }
}

/// `images_after` reads the steps of the first `k` references only.
proof fn lemma_images_after_prefix(
    srcs: Seq<Seq<char>>,
    base: Seq<char>,
    steps: Seq<ImageStep>,
    more: Seq<ImageStep>,
    k: int,
)
    requires
        k <= steps.len(),
    ensures
        images_after(srcs, base, steps + more, k) == images_after(srcs, base, steps, k),
    decreases k,
{
    if k > 0 {
        lemma_images_after_prefix(srcs, base, steps, more, k - 1);
        assert((steps + more)[k - 1] == steps[k - 1]);
    }
}

/// Adding a step for a later reference changes nothing before it.
proof fn lemma_images_after_push(srcs: Seq<Seq<char>>, base: Seq<char>, steps: Seq<ImageStep>, st: ImageStep, k: int)
    requires
        k <= steps.len(),
    ensures
        images_after(srcs, base, steps.push(st), k) == images_after(srcs, base, steps, k),
{
    lemma_images_after_prefix(srcs, base, steps, seq![st], k);
    assert(steps.push(st) =~= steps + seq![st]);
}

/// Loads and decodes the image references of a document, each source once,
/// recording in `log` the URLs handed to the loader and in `decodes` the
/// bodies handed to the decoder: `data:` URLs are read directly, others
/// through `loader`; a reference whose URL, load or decoding fails is
/// skipped.
pub fn load_images_logged<L: crate::response::ResourceLoader>(
    document: &Document,
    base_url: &WebUrl,
    loader: &L,
    log: &mut crate::response::LoadLog,
    decodes: &mut DecodeLog,
) -> (r: ImageMap)
    ensures
        forall|i: int|
            0 <= i < r.entries().len() ==> loadable_entry(document.root@, #[trigger] r.entries()[i]),
        exists|steps: Seq<ImageStep>|
            {
                &&& steps.len() == image_sources(document.root@).len()
                &&& forall|k: int| 0 <= k < steps.len() ==> step_ok(#[trigger] steps[k])
                &&& #[trigger] images_after(
                    image_sources(document.root@),
                    base_url@.text,
                    steps,
                    steps.len() as int,
                ) == (
                    r.entries(),
                    final(log).requested().skip(old(log).requested().len() as int),
                    final(decodes).handed().skip(old(decodes).handed().len() as int),
                )
                &&& old(log).requested().len() <= final(log).requested().len()
                &&& final(log).requested().take(old(log).requested().len() as int) == old(log).requested()
                &&& old(decodes).handed().len() <= final(decodes).handed().len()
                &&& final(decodes).handed().take(old(decodes).handed().len() as int) == old(decodes).handed()
            },
{
    let references = collect_image_references(document);
    let ghost srcs = image_sources(document.root@);
    let ghost base = base_url@.text;
    let ghost start = log.requested();
    let ghost dstart = decodes.handed();
    let ghost mut steps: Seq<ImageStep> = Seq::empty();
    let mut images = ImageMap::empty();
    let mut i: usize = 0;
    proof {
        assert(log.requested().skip(start.len() as int) =~= Seq::<Seq<char>>::empty());
        assert(log.requested().take(start.len() as int) =~= start);
        assert(decodes.handed().skip(dstart.len() as int) =~= Seq::<Seq<u8>>::empty());
        assert(decodes.handed().take(dstart.len() as int) =~= dstart);
    }
    while i < references.len()
        invariant
            i <= references@.len(),
            references@.map_values(|x: ImageReference| x.src@) == srcs,
            srcs == image_sources(document.root@),
            base == base_url@.text,
            steps.len() == i,
            forall|k: int| 0 <= k < steps.len() ==> step_ok(#[trigger] steps[k]),
            forall|k: int|
                0 <= k < images.entries().len() ==> loadable_entry(
                    document.root@,
                    #[trigger] images.entries()[k],
                ),
            start.len() <= log.requested().len(),
            log.requested().take(start.len() as int) == start,
            dstart.len() <= decodes.handed().len(),
            decodes.handed().take(dstart.len() as int) == dstart,
            images_after(srcs, base, steps, i as int) == (
                images.entries(),
                log.requested().skip(start.len() as int),
                decodes.handed().skip(dstart.len() as int),
            ),
        decreases references@.len() - i,
    {
        let src = &references[i].src;
        proof {
            assert(srcs[i as int] == src@);
            assert(srcs.contains(src@));
        }
        let ghost e0 = images.entries();
        let ghost req0 = log.requested();
        let ghost hd0 = decodes.handed();
        let ghost none_step = ImageStep { response: None, decoded: None };
        if images.get(src.as_str()).is_some() {
            proof {
                lemma_images_after_push(srcs, base, steps, none_step, i as int);
                steps = steps.push(none_step);
            }
            i += 1;
            continue;
        }
        let url = match resolve_image_url(base_url, src.as_str()) {
            Ok(u) => u,
            Err(_) => {
                proof {
                    lemma_images_after_push(srcs, base, steps, none_step, i as int);
                    steps = steps.push(none_step);
                }
                i += 1;
                continue;
            },
        };
        let ghost m = url@;
        proof {
            assert(image_target(base, src@) == Some(m));
        }
        let is_data = crate::text::vec_eq_str(&chars_of(url.scheme()), "data");
        let loaded = if is_data {
            crate::response::load_data_resource(&url)
        } else {
            crate::response::logged_load(loader, &url, log)
        };
        proof {
            if !is_data {
                assert(log.requested().skip(start.len() as int) =~= req0.skip(start.len() as int).push(m.text));
                assert(log.requested().take(start.len() as int) =~= req0.take(start.len() as int));
            }
        }
        let response = match loaded {
            Ok(resp) => resp,
            Err(_) => {
                proof {
                    lemma_images_after_push(srcs, base, steps, none_step, i as int);
                    steps = steps.push(none_step);
                }
                i += 1;
                continue;
            },
        };
        let ghost got = Some((response.final_url@.text, response.bytes@));

        let outcome = decode_image_logged(response.bytes.as_slice(), decodes);
        proof {
            assert(decodes.handed().skip(dstart.len() as int) =~= hd0.skip(dstart.len() as int).push(response.bytes@));
            assert(decodes.handed().take(dstart.len() as int) =~= hd0.take(dstart.len() as int));
        }
        let decoded = match outcome {
            Ok(d) => d,
            Err(_) => {
                proof {
                    lemma_images_after_push(srcs, base, steps, ImageStep { response: got, decoded: None }, i as int);
                    steps = steps.push(ImageStep { response: got, decoded: None });
                }
                i += 1;
                continue;
            },
        };
        let resource = ImageResource {
            src: src.clone(),
            final_url: crate::text::string_from(response.final_url.as_str()),
            image: decoded,
        };
        let ghost before = images.entries();
        let ghost e = (resource.src@, image_model(resource));
        proof {
            crate::dom::lemma_attr_insert_members(before, e.0, e.1);
            lemma_images_after_push(
                srcs,
                base,
                steps,
                ImageStep {
                    response: got,
                    decoded: Some((resource.image.width, resource.image.height, resource.image.pixels@)),
                },
                i as int,
            );
            steps = steps.push(
                ImageStep {
                    response: got,
                    decoded: Some((resource.image.width, resource.image.height, resource.image.pixels@)),
                },
            );
        }
        images.insert(resource);
        proof {
            let after = images.entries();
            assert forall|k: int| 0 <= k < after.len() implies loadable_entry(
                document.root@,
                #[trigger] after[k],
            ) by {
                if after[k] != e {
                    let j = choose|j: int| 0 <= j < before.len() && before[j] == after[k];
                    assert(loadable_entry(document.root@, before[j]));
                }
            }
        }
        i += 1;
    }
    proof {
        assert(srcs.len() == references@.len());
    }
    images
}

/// Loads and decodes the image references of a document, each source once:
/// `data:` URLs directly, others through `loader`. A reference whose URL,
/// load or decoding fails is skipped.
pub fn load_images<L: crate::response::ResourceLoader>(
    document: &Document,
    base_url: &WebUrl,
    loader: &L,
) -> (r: ImageMap)
    ensures
        forall|i: int|
            0 <= i < r.entries().len() ==> loadable_entry(document.root@, #[trigger] r.entries()[i]),
        exists|steps: Seq<ImageStep>|
            {
                &&& steps.len() == image_sources(document.root@).len()
                &&& forall|k: int| 0 <= k < steps.len() ==> step_ok(#[trigger] steps[k])
                &&& #[trigger] images_after(
                    image_sources(document.root@),
                    base_url@.text,
                    steps,
                    steps.len() as int,
                ).0 == r.entries()
            },
{
    let mut log = crate::response::LoadLog::new();
    let mut decodes = DecodeLog::new();
    let r = load_images_logged(document, base_url, loader, &mut log, &mut decodes);
    proof {
        let srcs = image_sources(document.root@);
        let steps = choose|steps: Seq<ImageStep>|
            {
                &&& steps.len() == srcs.len()
                &&& forall|k: int| 0 <= k < steps.len() ==> step_ok(#[trigger] steps[k])
                &&& #[trigger] images_after(srcs, base_url@.text, steps, steps.len() as int) == (
                    r.entries(),
                    log.requested().skip(0),
                    decodes.handed().skip(0),
                )
                &&& 0 <= log.requested().len()
                &&& log.requested().take(0) == Seq::<Seq<char>>::empty()
                &&& 0 <= decodes.handed().len()
                &&& decodes.handed().take(0) == Seq::<Seq<u8>>::empty()
            };
        assert(images_after(srcs, base_url@.text, steps, steps.len() as int).0 == r.entries());
    }
    r
}

/// An image model of this module as a layout image model.
pub open spec fn to_layout_model(m: ImageModel) -> crate::layout::ImageModel {
    crate::layout::ImageModel {
        final_url: m.final_url,
        width: m.width,
        height: m.height,
        pixels: m.pixels,
    }
}

/// Converting every value of a keyed list keeps where each key is found.
proof fn lemma_converted_index(
    p: Seq<(Seq<char>, ImageModel)>,
    q: Seq<(Seq<char>, crate::layout::ImageModel)>,
    s: Seq<char>,
    i: int,
)
    requires
        0 <= i,
        q == Seq::new(p.len(), |k: int| (p[k].0, to_layout_model(p[k].1))),
    ensures
        crate::dom::name_index_from(q, s, i) == crate::dom::name_index_from(p, s, i),
    decreases p.len() - i,
{
    if i < p.len() && p[i].0 != s {
        lemma_converted_index(p, q, s, i + 1);
    }
}

/// Converts decoded resources into layout-facing image metadata: the same
/// sources, URLs and pixels.
pub fn to_layout_image_map(decoded: &ImageMap) -> (r: crate::layout::ImageMap)
    ensures
        r.entries() == Seq::new(
            decoded.entries().len(),
            |i: int| (decoded.entries()[i].0, to_layout_model(decoded.entries()[i].1)),
        ),
        forall|s: Seq<char>|
            #[trigger] crate::dom::attr_lookup(r.entries(), s) == match crate::dom::attr_lookup(
                decoded.entries(),
                s,
            ) {
                Some(m) => Some(to_layout_model(m)),
                None => None,
            },
        forall|i: int|
            0 <= i < decoded.entries().len() ==> #[trigger] crate::dom::attr_lookup(
                r.entries(),
                decoded.entries()[i].0,
            ) == Some(to_layout_model(decoded.entries()[i].1)),
{
    proof {
        use_type_invariant(decoded);
        assert forall|i: int| 0 <= i < decoded.entries().len() implies #[trigger] crate::dom::attr_lookup(
            decoded.entries(),
            decoded.entries()[i].0,
        ) == Some(decoded.entries()[i].1) by {
            crate::dom::lemma_attr_lookup_entry(decoded.entries(), i);
        }
    }
    let ghost e = decoded.entries();
    let ghost want = Seq::new(e.len(), |i: int| (e[i].0, to_layout_model(e[i].1)));
    let mut images = crate::layout::ImageMap::empty();
    let all = decoded.iter();
    let mut i: usize = 0;
    proof {
        assert(want.take(0) =~= Seq::<(Seq<char>, crate::layout::ImageModel)>::empty());
    }
    while i < all.len()
        invariant
            i <= all@.len(),
            all@.len() == e.len(),
            e == decoded.entries(),
            crate::dom::names_sorted(e),
            want == Seq::new(e.len(), |i: int| (e[i].0, to_layout_model(e[i].1))),
            forall|k: int|
                0 <= k < all@.len() ==> (#[trigger] all@[k]).src@ == e[k].0 && image_model(all@[k])
                    == e[k].1,
            images.entries() == want.take(i as int),
        decreases all@.len() - i,
    {
        let resource = &all[i];
        let converted = crate::layout::ImageResource {
            src: resource.src.clone(),
            final_url: resource.final_url.clone(),
            image: crate::layout::DecodedImage {
                width: resource.image.width,
                height: resource.image.height,
                pixels: resource.image.pixels.clone(),
            },
        };
        proof {
            assert(converted.image.pixels@ =~= resource.image.pixels@);
            assert(all@[i as int].src@ == e[i as int].0);
            let p = images.entries();
            assert forall|j: int| 0 <= j < p.len() implies crate::text::text_lt(#[trigger] p[j].0, e[i as int].0) by {
                assert(p[j].0 == e[j].0);
            }
            crate::dom::lemma_insert_pos(p, e[i as int].0, 0);
            assert(crate::dom::insert_pos_from(p, e[i as int].0, 0) == p.len());
            assert(crate::layout::image_model(converted) == to_layout_model(e[i as int].1));
            assert(want.take(i + 1) =~= p.insert(p.len() as int, (e[i as int].0, to_layout_model(e[i as int].1))));
        }
        images.insert(converted);
        i += 1;
    }
    proof {
        assert(want.take(e.len() as int) =~= want);
        assert forall|s: Seq<char>|
            #[trigger] crate::dom::attr_lookup(images.entries(), s) == match crate::dom::attr_lookup(e, s) {
                Some(m) => Some(to_layout_model(m)),
                None => None,
            } by {
            lemma_converted_index(e, images.entries(), s, 0);
            crate::dom::lemma_name_index_bounds(e, s, 0);
        }
    }
    images
}

} // verus!
