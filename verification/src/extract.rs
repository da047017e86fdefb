//! Queries over a parsed document: links, scripts, iframes, the title,
//! visible text and a deterministic dump.
//!
//! Every collector walks the tree in document order: a node, then its
//! light children, then its shadow children ([`walk`]).

use vstd::prelude::*;
use crate::dom::{Document, KindModel, Node, NodeKind, NodeModel, attr_lookup, models};
use crate::html::element_name;
use crate::text::{chars_of, ends_with, eq_ignore_case, lower, words};

verus! {

/// `Option<String>` as an optional text.
pub open spec fn opt_text(o: Option<String>) -> Option<Seq<char>> {
    match o {
        Some(s) => Some(s@),
        None => None,
    }
}

/// Whether `n` is an element named `name`.
pub open spec fn is_element(n: NodeModel, name: Seq<char>) -> bool {
    element_name(n) == Some(name)
}

/// The value of attribute `k` of `n`, if `n` is an element that has it.
pub open spec fn attr_of(n: NodeModel, k: Seq<char>) -> Option<Seq<char>> {
    match n.kind {
        KindModel::Element { attrs, .. } => attr_lookup(attrs, k),
        _ => None,
    }
}

/// Whether the walk stops below `n`.
pub open spec fn stops_at(n: NodeModel, stop: Option<Seq<char>>) -> bool {
    match stop {
        Some(t) => is_element(n, t),
        None => false,
    }
}

/// The nodes of `n` in document order: `n`, then the walk of each light
/// child, then of each shadow child. Below an element named `stop` the walk
/// does not descend.
pub open spec fn walk(n: NodeModel, stop: Option<Seq<char>>) -> Seq<NodeModel>
    decreases n, 0int,
{
    if stops_at(n, stop) {
        seq![n]
    } else {
        seq![n] + walk_from(n.children, stop, 0) + walk_from(n.shadow, stop, 0)
    }
}

/// The walks of `s[i..]`, one after another.
pub open spec fn walk_from(s: Seq<NodeModel>, stop: Option<Seq<char>>, i: int) -> Seq<NodeModel>
    decreases s, s.len() - i,
{
    if i < 0 || i >= s.len() {
        Seq::empty()
    } else {
        walk(s[i], stop) + walk_from(s, stop, i + 1)
    }
}

/// Models of a sequence of node references.
pub open spec fn ref_models(s: Seq<&Node>) -> Seq<NodeModel> {
    Seq::new(s.len(), |i: int| s[i]@)
}

/// Appends the walk of `node` to `out`.
fn walk_into<'a>(node: &'a Node, stop: Option<&str>, out: &mut Vec<&'a Node>)
    ensures
        ref_models(final(out)@) == ref_models(old(out)@) + walk(
            node@,
            match stop {
                Some(t) => Some(t@),
                None => None,
            },
        ),
    decreases node,
{
    let ghost st = match stop {
        Some(t) => Some(t@),
        None => None,
    };
    proof {
        crate::dom::lemma_children_models(*node);
    }
    let ghost before = ref_models(out@);
    out.push(node);
    proof {
        assert(ref_models(out@) =~= before + seq![node@]);
    }
    let stopped = match stop {
        Some(t) => {
            let name = chars_of(t);
            crate::html::element_named(node, &name)
        },
        None => false,
    };
    if stopped {
        return;
    }
    walk_all_into(&node.children, stop, out);
    walk_all_into(&node.shadow_children, stop, out);
    proof {
        assert(ref_models(out@) =~= before + walk(node@, st));
    }
}

/// Appends the walks of all of `nodes` to `out`.
fn walk_all_into<'a>(nodes: &'a Vec<Node>, stop: Option<&str>, out: &mut Vec<&'a Node>)
    ensures
        ref_models(final(out)@) == ref_models(old(out)@) + walk_from(
            models(nodes@),
            match stop {
                Some(t) => Some(t@),
                None => None,
            },
            0,
        ),
    decreases nodes@,
{
    let ghost st = match stop {
        Some(t) => Some(t@),
        None => None,
    };
    let ghost ms = models(nodes@);
    let ghost base = ref_models(out@);
    let mut i: usize = 0;
    proof {
        assert(base + walk_from(ms, st, 0) =~= ref_models(out@) + walk_from(ms, st, 0));
    }
    while i < nodes.len()
        invariant
            i <= nodes@.len(),
            ms == models(nodes@),
            st == match stop {
                Some(t) => Some(t@),
                None => None,
            },
            ref_models(out@) + walk_from(ms, st, i as int) == base + walk_from(ms, st, 0),
        decreases nodes@.len() - i,
    {
        assert(decreases_to!(nodes@ => nodes@[i as int]));
        let ghost mid = ref_models(out@);
        let nd = &nodes[i];
        walk_into(nd, stop, out);
        proof {

            assert(ms[i as int] == nodes@[i as int]@);
            assert(ref_models(out@) == mid + walk(ms[i as int], st));
            assert(walk_from(ms, st, i as int) == walk(ms[i as int], st) + walk_from(
                ms,
                st,
                i + 1,
            ));
            assert(ref_models(out@) + walk_from(ms, st, i + 1) =~= mid + walk_from(
                ms,
                st,
                i as int,
            ));
        }
        i += 1;
    }
    proof {
        assert(ref_models(out@) + Seq::<NodeModel>::empty() =~= ref_models(out@));
    }
}

/// The nodes of `node` in document order (see [`walk`]).
pub fn walk_nodes<'a>(node: &'a Node, stop: Option<&str>) -> (out: Vec<&'a Node>)
    ensures
        ref_models(out@) == walk(
            node@,
            match stop {
                Some(t) => Some(t@),
                None => None,
            },
        ),
{
    let mut out: Vec<&'a Node> = Vec::new();
    walk_into(node, stop, &mut out);
    proof {
        assert(ref_models(Seq::<&Node>::empty()) =~= Seq::<NodeModel>::empty());
        assert(Seq::<NodeModel>::empty() + walk(
            node@,
            match stop {
                Some(t) => Some(t@),
                None => None,
            },
        ) =~= walk(
            node@,
            match stop {
                Some(t) => Some(t@),
                None => None,
            },
        ));
    }
    out
}

/// The value of attribute `name` of `node`, if it is an element with it.
fn attr_exec<'a>(node: &'a Node, name: &str) -> (r: Option<&'a String>)
    ensures
        opt_text(
            match r {
                Some(v) => Some(*v),
                None => None,
            },
        ) == attr_of(node@, name@),
{
    match &node.kind {
        NodeKind::Element(e) => e.attributes.get(name),
        _ => None,
    }
}

/// A copy of the value of attribute `name` of `node`.
fn attr_owned(node: &Node, name: &str) -> (r: Option<String>)
    ensures
        opt_text(r) == attr_of(node@, name@),
{
    match attr_exec(node, name) {
        Some(v) => Some(v.clone()),
        None => None,
    }
}

/// Whether `node` is an element named `name`.
fn is_element_exec(node: &Node, name: &str) -> (b: bool)
    ensures
        b == is_element(node@, name@),
{
    let n = chars_of(name);
    crate::html::element_named(node, &n)
}

/// Which `rel` keywords a collector looks for.
#[derive(Clone, Copy, Debug, PartialEq, Eq)]
pub enum RelKind {
    /// `stylesheet`.
    Stylesheet,
    /// `icon` or any keyword ending in `-icon`.
    Icon,
    /// `preload` or `preconnect`.
    Hint,
}

/// Whether one `rel` keyword is of kind `k` (ASCII case-insensitive).
pub open spec fn rel_word_is(w: Seq<char>, k: RelKind) -> bool {
    match k {
        RelKind::Stylesheet => eq_ignore_case(w, "stylesheet"@),
        RelKind::Icon => eq_ignore_case(w, "icon"@) || ends_with(lower(w), "-icon"@),
        RelKind::Hint => eq_ignore_case(w, "preload"@) || eq_ignore_case(w, "preconnect"@),
    }
}

/// Whether some ASCII-whitespace-separated keyword of `rel` is of kind `k`.
pub open spec fn rel_has(rel: Seq<char>, k: RelKind) -> bool {
    exists|j: int| 0 <= j < words(rel, true).len() && rel_word_is(#[trigger] words(rel, true)[j], k)
}

/// `rel_word_is` computed.
fn rel_word_is_exec(w: &Vec<char>, k: RelKind) -> (b: bool)
    ensures
        b == rel_word_is(w@, k),
{
    match k {
        RelKind::Stylesheet => crate::text::vec_eq_ignore_case(w, "stylesheet"),
        RelKind::Icon => {
            if crate::text::vec_eq_ignore_case(w, "icon") {
                true
            } else {
                let l = crate::text::lower_vec(w);
                ends_with_exec(&l, "-icon")
            }
        },
        RelKind::Hint => crate::text::vec_eq_ignore_case(w, "preload")
            || crate::text::vec_eq_ignore_case(w, "preconnect"),
    }
}

/// Whether `v` ends with `p`.
pub fn ends_with_exec(v: &Vec<char>, p: &str) -> (b: bool)
    ensures
        b == ends_with(v@, p@),
{
    let w = chars_of(p);
    if w.len() > v.len() {
        return false;
    }
    let tail = crate::text::slice_of(v, v.len() - w.len(), v.len());
    crate::text::vec_eq(&tail, &w)
}

/// `rel_has` computed.
pub fn rel_has_exec(rel: &str, k: RelKind) -> (b: bool)
    ensures
        b == rel_has(rel@, k),
{
    let v = chars_of(rel);
    let ws = crate::text::split_words(&v, true);
    let mut j: usize = 0;
    while j < ws.len()
        invariant
            j <= ws@.len(),
            ws@.len() == words(rel@, true).len(),
            forall|q: int| 0 <= q < ws@.len() ==> #[trigger] ws@[q]@ == words(rel@, true)[q],
            forall|q: int| 0 <= q < j ==> !rel_word_is(#[trigger] words(rel@, true)[q], k),
        decreases ws@.len() - j,
    {
        if rel_word_is_exec(&ws[j], k) {
            proof {
                assert(ws@[j as int]@ == words(rel@, true)[j as int]);
            }
            return true;
        }
        j += 1;
    }
    false
}

/// `f` applied to each of `s` in order, keeping the present results.
pub open spec fn gather<A>(s: Seq<NodeModel>, f: spec_fn(NodeModel) -> Option<A>) -> Seq<A>
    decreases s.len(),
{
    if s.len() == 0 {
        Seq::empty()
    } else {
        let r = gather(s.drop_last(), f);
        match f(s.last()) {
            Some(a) => r.push(a),
            None => r,
        }
    }
}

/// Extending the walked prefix by one node.
pub proof fn lemma_gather_step<A>(s: Seq<NodeModel>, i: int, f: spec_fn(NodeModel) -> Option<A>)
    requires
        0 <= i < s.len(),
    ensures
        gather(s.take(i + 1), f) == match f(s[i]) {
            Some(a) => gather(s.take(i), f).push(a),
            None => gather(s.take(i), f),
        },
{
    assert(s.take(i + 1).drop_last() =~= s.take(i));
}

/// Stylesheet link metadata collected from the DOM in document order.
#[derive(Debug, Clone, PartialEq, Eq)]
pub struct StylesheetLink {
    /// Link target exactly as preserved in the DOM.
    pub href: String,
    /// Original `rel` attribute value.
    pub rel: String,
}

impl View for StylesheetLink {
    type V = (Seq<char>, Seq<char>);

    open spec fn view(&self) -> (Seq<char>, Seq<char>) {
        (self.href@, self.rel@)
    }
}

/// Favicon/icon link metadata collected from the DOM in document order.
#[derive(Debug, Clone, PartialEq, Eq)]
pub struct IconLink {
    /// Link target exactly as preserved in the DOM.
    pub href: String,
    /// Original `rel` attribute value.
    pub rel: String,
    /// Optional `sizes` attribute.
    pub sizes: Option<String>,
    /// Optional `type` attribute.
    pub media_type: Option<String>,
}

/// `IconLink` as plain values.
pub struct IconModel {
    /// Link target.
    pub href: Seq<char>,
    /// `rel` value.
    pub rel: Seq<char>,
    /// `sizes` value.
    pub sizes: Option<Seq<char>>,
    /// `type` value.
    pub media_type: Option<Seq<char>>,
}

impl View for IconLink {
    type V = IconModel;

    open spec fn view(&self) -> IconModel {
        IconModel {
            href: self.href@,
            rel: self.rel@,
            sizes: opt_text(self.sizes),
            media_type: opt_text(self.media_type),
        }
    }
}

/// Resource hint metadata for no-op diagnostics.
#[derive(Debug, Clone, PartialEq, Eq)]
pub struct ResourceHint {
    /// Original `rel` attribute value.
    pub rel: String,
    /// Optional `href` attribute.
    pub href: Option<String>,
}

impl View for ResourceHint {
    type V = (Seq<char>, Option<Seq<char>>);

    open spec fn view(&self) -> (Seq<char>, Option<Seq<char>>) {
        (self.rel@, opt_text(self.href))
    }
}

/// Iframe metadata collected from the DOM in document order.
#[derive(Debug, Clone, PartialEq, Eq)]
pub struct IframeElement {
    /// Source URL exactly as preserved in the DOM.
    pub src: Option<String>,
    /// Optional browsing-context name.
    pub name: Option<String>,
    /// Optional width attribute.
    pub width: Option<String>,
    /// Optional height attribute.
    pub height: Option<String>,
    /// Optional sandbox attribute.
    pub sandbox: Option<String>,
}

/// `IframeElement` as plain values.
pub struct IframeModel {
    /// `src` value.
    pub src: Option<Seq<char>>,
    /// `name` value.
    pub name: Option<Seq<char>>,
    /// `width` value.
    pub width: Option<Seq<char>>,
    /// `height` value.
    pub height: Option<Seq<char>>,
    /// `sandbox` value.
    pub sandbox: Option<Seq<char>>,
}

impl View for IframeElement {
    type V = IframeModel;

    open spec fn view(&self) -> IframeModel {
        IframeModel {
            src: opt_text(self.src),
            name: opt_text(self.name),
            width: opt_text(self.width),
            height: opt_text(self.height),
            sandbox: opt_text(self.sandbox),
        }
    }
}

/// The stylesheet link of `n`: a `link` element with `href` and a `rel`
/// holding the keyword `stylesheet`.
pub open spec fn stylesheet_link_of(n: NodeModel) -> Option<(Seq<char>, Seq<char>)> {
    if is_element(n, "link"@) && attr_of(n, "rel"@) is Some && attr_of(n, "href"@) is Some
        && rel_has(attr_of(n, "rel"@).unwrap(), RelKind::Stylesheet) {
        Some((attr_of(n, "href"@).unwrap(), attr_of(n, "rel"@).unwrap()))
    } else {
        None
    }
}

/// The icon link of `n`: a `link` element with `href` and an icon `rel`.
pub open spec fn icon_link_of(n: NodeModel) -> Option<IconModel> {
    if is_element(n, "link"@) && attr_of(n, "rel"@) is Some && attr_of(n, "href"@) is Some
        && rel_has(attr_of(n, "rel"@).unwrap(), RelKind::Icon) {
        Some(
            IconModel {
                href: attr_of(n, "href"@).unwrap(),
                rel: attr_of(n, "rel"@).unwrap(),
                sizes: attr_of(n, "sizes"@),
                media_type: attr_of(n, "type"@),
            },
        )
    } else {
        None
    }
}

/// The resource hint of `n`: a `link` element whose `rel` holds
/// `preload` or `preconnect`.
pub open spec fn resource_hint_of(n: NodeModel) -> Option<(Seq<char>, Option<Seq<char>>)> {
    if is_element(n, "link"@) && attr_of(n, "rel"@) is Some && rel_has(
        attr_of(n, "rel"@).unwrap(),
        RelKind::Hint,
    ) {
        Some((attr_of(n, "rel"@).unwrap(), attr_of(n, "href"@)))
    } else {
        None
    }
}

/// The iframe metadata of `n`, if it is an `iframe` element.
pub open spec fn iframe_of(n: NodeModel) -> Option<IframeModel> {
    if is_element(n, "iframe"@) {
        Some(
            IframeModel {
                src: attr_of(n, "src"@),
                name: attr_of(n, "name"@),
                width: attr_of(n, "width"@),
                height: attr_of(n, "height"@),
                sandbox: attr_of(n, "sandbox"@),
            },
        )
    } else {
        None
    }
}

/// Stylesheet links of the document, in document order.
pub open spec fn stylesheet_links(root: NodeModel) -> Seq<(Seq<char>, Seq<char>)> {
    gather(walk(root, None), |n: NodeModel| stylesheet_link_of(n))
}

/// Icon links of the document, in document order.
pub open spec fn icon_links(root: NodeModel) -> Seq<IconModel> {
    gather(walk(root, None), |n: NodeModel| icon_link_of(n))
}

/// Resource hints of the document, in document order.
pub open spec fn resource_hints(root: NodeModel) -> Seq<(Seq<char>, Option<Seq<char>>)> {
    gather(walk(root, None), |n: NodeModel| resource_hint_of(n))
}

/// Iframes of the document, in document order.
pub open spec fn iframes(root: NodeModel) -> Seq<IframeModel> {
    gather(walk(root, None), |n: NodeModel| iframe_of(n))
}

/// The stylesheet link of one node.
fn stylesheet_link_exec(node: &Node) -> (r: Option<StylesheetLink>)
    ensures
        match r {
            Some(l) => stylesheet_link_of(node@) == Some(l@),
            None => stylesheet_link_of(node@) is None,
        },
{
    if !is_element_exec(node, "link") {
        return None;
    }
    match (attr_exec(node, "rel"), attr_exec(node, "href")) {
        (Some(rel), Some(href)) => {
            if rel_has_exec(rel.as_str(), RelKind::Stylesheet) {
                Some(StylesheetLink { href: href.clone(), rel: rel.clone() })
            } else {
                None
            }
        },
        _ => None,
    }
}

/// The icon link of one node.
fn icon_link_of_exec(node: &Node) -> (r: Option<IconLink>)
    ensures
        match r {
            Some(l) => icon_link_of(node@) == Some(l@),
            None => icon_link_of(node@) is None,
        },
{
    if !is_element_exec(node, "link") {
        return None;
    }
    match (attr_exec(node, "rel"), attr_exec(node, "href")) {
        (Some(rel), Some(href)) => {
            if rel_has_exec(rel.as_str(), RelKind::Icon) {
                Some(
                    IconLink {
                        href: href.clone(),
                        rel: rel.clone(),
                        sizes: attr_owned(node, "sizes"),
                        media_type: attr_owned(node, "type"),
                    },
                )
            } else {
                None
            }
        },
        _ => None,
    }
}

/// The resource hint of one node.
fn resource_hint_of_exec(node: &Node) -> (r: Option<ResourceHint>)
    ensures
        match r {
            Some(h) => resource_hint_of(node@) == Some(h@),
            None => resource_hint_of(node@) is None,
        },
{
    if !is_element_exec(node, "link") {
        return None;
    }
    match attr_exec(node, "rel") {
        Some(rel) => {
            if rel_has_exec(rel.as_str(), RelKind::Hint) {
                Some(ResourceHint { rel: rel.clone(), href: attr_owned(node, "href") })
            } else {
                None
            }
        },
        None => None,
    }
}

/// The iframe metadata of one node.
fn iframe_of_exec(node: &Node) -> (r: Option<IframeElement>)
    ensures
        match r {
            Some(f) => iframe_of(node@) == Some(f@),
            None => iframe_of(node@) is None,
        },
{
    if !is_element_exec(node, "iframe") {
        return None;
    }
    Some(
        IframeElement {
            src: attr_owned(node, "src"),
            name: attr_owned(node, "name"),
            width: attr_owned(node, "width"),
            height: attr_owned(node, "height"),
            sandbox: attr_owned(node, "sandbox"),
        },
    )
}


/// Collects stylesheet links in document order.
pub fn collect_stylesheet_links(document: &Document) -> (r: Vec<StylesheetLink>)
    ensures
        r@.map_values(|l: StylesheetLink| l@) == stylesheet_links(document.root@),
{
    let nodes = walk_nodes(&document.root, None);
    let ghost ms = ref_models(nodes@);
    let mut out: Vec<StylesheetLink> = Vec::new();
    let mut i: usize = 0;
    proof {
        assert(ms.take(0) =~= Seq::<NodeModel>::empty());
        assert(out@.map_values(|l: StylesheetLink| l@) =~= Seq::<(Seq<char>, Seq<char>)>::empty());
    }
    while i < nodes.len()
        invariant
            i <= nodes@.len(),
            ms == ref_models(nodes@),
            ms == walk(document.root@, None),
            out@.map_values(|l: StylesheetLink| l@) == gather(
                ms.take(i as int),
                |n: NodeModel| stylesheet_link_of(n),
            ),
        decreases nodes@.len() - i,
    {
        proof {
            lemma_gather_step(ms, i as int, |n: NodeModel| stylesheet_link_of(n));
        }
        let ghost before = out@;
        match stylesheet_link_exec(nodes[i]) {
            Some(l) => {
                out.push(l);
                proof {
                    assert(out@.map_values(|l: StylesheetLink| l@) =~= before.map_values(
                        |l: StylesheetLink| l@,
                    ).push(l@));
                }
            },
            None => {},
        }
        i += 1;
    }
    proof {
        assert(ms.take(ms.len() as int) =~= ms);
    }
    out
}


/// Collects favicon/icon links in document order.
pub fn collect_icon_links(document: &Document) -> (r: Vec<IconLink>)
    ensures
        r@.map_values(|l: IconLink| l@) == icon_links(document.root@),
{
    let nodes = walk_nodes(&document.root, None);
    let ghost ms = ref_models(nodes@);
    let mut out: Vec<IconLink> = Vec::new();
    let mut i: usize = 0;
    proof {
        assert(ms.take(0) =~= Seq::<NodeModel>::empty());
        assert(out@.map_values(|l: IconLink| l@) =~= Seq::<IconModel>::empty());
    }
    while i < nodes.len()
        invariant
            i <= nodes@.len(),
            ms == ref_models(nodes@),
            ms == walk(document.root@, None),
            out@.map_values(|l: IconLink| l@) == gather(
                ms.take(i as int),
                |n: NodeModel| icon_link_of(n),
            ),
        decreases nodes@.len() - i,
    {
        proof {
            lemma_gather_step(ms, i as int, |n: NodeModel| icon_link_of(n));
        }
        let ghost before = out@;
        match icon_link_of_exec(nodes[i]) {
            Some(l) => {
                out.push(l);
                proof {
                    assert(out@.map_values(|l: IconLink| l@) =~= before.map_values(
                        |l: IconLink| l@,
                    ).push(l@));
                }
            },
            None => {},
        }
        i += 1;
    }
    proof {
        assert(ms.take(ms.len() as int) =~= ms);
    }
    out
}

/// Collects preload/preconnect hints in document order.
pub fn collect_resource_hints(document: &Document) -> (r: Vec<ResourceHint>)
    ensures
        r@.map_values(|l: ResourceHint| l@) == resource_hints(document.root@),
{
    let nodes = walk_nodes(&document.root, None);
    let ghost ms = ref_models(nodes@);
    let mut out: Vec<ResourceHint> = Vec::new();
    let mut i: usize = 0;
    proof {
        assert(ms.take(0) =~= Seq::<NodeModel>::empty());
        assert(out@.map_values(|l: ResourceHint| l@) =~= Seq::<(Seq<char>, Option<Seq<char>>)>::empty());
    }
    while i < nodes.len()
        invariant
            i <= nodes@.len(),
            ms == ref_models(nodes@),
            ms == walk(document.root@, None),
            out@.map_values(|l: ResourceHint| l@) == gather(
                ms.take(i as int),
                |n: NodeModel| resource_hint_of(n),
            ),
        decreases nodes@.len() - i,
    {
        proof {
            lemma_gather_step(ms, i as int, |n: NodeModel| resource_hint_of(n));
        }
        let ghost before = out@;
        match resource_hint_of_exec(nodes[i]) {
            Some(l) => {
                out.push(l);
                proof {
                    assert(out@.map_values(|l: ResourceHint| l@) =~= before.map_values(
                        |l: ResourceHint| l@,
                    ).push(l@));
                }
            },
            None => {},
        }
        i += 1;
    }
    proof {
        assert(ms.take(ms.len() as int) =~= ms);
    }
    out
}

/// Collects iframe elements in document order.
pub fn collect_iframes(document: &Document) -> (r: Vec<IframeElement>)
    ensures
        r@.map_values(|l: IframeElement| l@) == iframes(document.root@),
{
    let nodes = walk_nodes(&document.root, None);
    let ghost ms = ref_models(nodes@);
    let mut out: Vec<IframeElement> = Vec::new();
    let mut i: usize = 0;
    proof {
        assert(ms.take(0) =~= Seq::<NodeModel>::empty());
        assert(out@.map_values(|l: IframeElement| l@) =~= Seq::<IframeModel>::empty());
    }
    while i < nodes.len()
        invariant
            i <= nodes@.len(),
            ms == ref_models(nodes@),
            ms == walk(document.root@, None),
            out@.map_values(|l: IframeElement| l@) == gather(
                ms.take(i as int),
                |n: NodeModel| iframe_of(n),
            ),
        decreases nodes@.len() - i,
    {
        proof {
            lemma_gather_step(ms, i as int, |n: NodeModel| iframe_of(n));
        }
        let ghost before = out@;
        match iframe_of_exec(nodes[i]) {
            Some(l) => {
                out.push(l);
                proof {
                    assert(out@.map_values(|l: IframeElement| l@) =~= before.map_values(
                        |l: IframeElement| l@,
                    ).push(l@));
                }
            },
            None => {},
        }
        i += 1;
    }
    proof {
        assert(ms.take(ms.len() as int) =~= ms);
    }
    out
}

/// The text payload of `n`: its text if it is a text node, else nothing.
pub open spec fn text_payload(n: NodeModel) -> Seq<char> {
    match n.kind {
        KindModel::Text(t) => t,
        _ => Seq::empty(),
    }
}

/// The text payloads of `s`, concatenated in order.
pub open spec fn texts(s: Seq<NodeModel>) -> Seq<char>
    decreases s.len(),
{
    if s.len() == 0 {
        Seq::empty()
    } else {
        texts(s.drop_last()) + text_payload(s.last())
    }
}

/// The text content of `n`: every text node below it (itself included), in
/// document order.
pub open spec fn text_content(n: NodeModel) -> Seq<char> {
    texts(walk(n, None))
}

/// The text content of `node`.
fn node_text_content(node: &Node) -> (r: String)
    ensures
        r@ == text_content(node@),
{
    let nodes = walk_nodes(node, None);
    let ghost ms = ref_models(nodes@);
    let mut out = String::new();
    let mut i: usize = 0;
    proof {
        assert(ms.take(0) =~= Seq::<NodeModel>::empty());
    }
    while i < nodes.len()
        invariant
            i <= nodes@.len(),
            ms == ref_models(nodes@),
            ms == walk(node@, None),
            out@ == texts(ms.take(i as int)),
        decreases nodes@.len() - i,
    {
        proof {
            assert(ms.take(i + 1).drop_last() =~= ms.take(i as int));
        }
        let ghost before = out@;
        match &nodes[i].kind {
            NodeKind::Text(t) => {
                crate::text::push_str(&mut out, t.as_str());
            },
            _ => {
                proof {
                    assert(before + Seq::<char>::empty() =~= before);
                }
            },
        }
        i += 1;
    }
    proof {
        assert(ms.take(ms.len() as int) =~= ms);
    }
    out
}

/// The first node of `s` that is an element named `name`.
pub open spec fn first_element(s: Seq<NodeModel>, name: Seq<char>) -> Option<NodeModel>
    decreases s.len(),
{
    if s.len() == 0 {
        None
    } else if is_element(s[0], name) {
        Some(s[0])
    } else {
        first_element(s.drop_first(), name)
    }
}

/// The document title: the trimmed text content of the first `title`
/// element in document order, or empty.
pub open spec fn document_title(root: NodeModel) -> Seq<char> {
    match first_element(walk(root, None), "title"@) {
        Some(t) => crate::text::trim(text_content(t)),
        None => Seq::empty(),
    }
}

/// Extracts the first document title as trimmed text.
pub fn extract_document_title(document: &Document) -> (r: String)
    ensures
        r@ == document_title(document.root@),
{
    let nodes = walk_nodes(&document.root, None);
    let ghost ms = ref_models(nodes@);
    let mut i: usize = 0;
    proof {
        assert(ms.skip(0) =~= ms);
    }
    while i < nodes.len()
        invariant
            i <= nodes@.len(),
            ms == ref_models(nodes@),
            first_element(ms.skip(i as int), "title"@) == first_element(
                walk(document.root@, None),
                "title"@,
            ),
        decreases nodes@.len() - i,
    {
        proof {
            assert(ms.skip(i as int).drop_first() =~= ms.skip(i + 1));
            assert(ms.skip(i as int)[0] == ms[i as int]);
        }
        if is_element_exec(nodes[i], "title") {
            let t = node_text_content(nodes[i]);
            let v = crate::text::trimmed_chars(t.as_str());
            return crate::text::string_of(&v);
        }
        i += 1;
    }
    proof {
        assert(ms.skip(ms.len() as int).len() == 0);
    }
    String::new()
}

/// Script payload collected from the DOM in document order.
#[derive(Debug, Clone, PartialEq, Eq)]
pub enum ScriptContent {
    /// Inline script text.
    Inline(String),
    /// External script source URL exactly as preserved in the DOM.
    External(String),
}

/// `ScriptContent` as plain values.
pub enum ContentModel {
    /// Inline text.
    Inline(Seq<char>),
    /// External source.
    External(Seq<char>),
}

impl View for ScriptContent {
    type V = ContentModel;

    open spec fn view(&self) -> ContentModel {
        match self {
            ScriptContent::Inline(t) => ContentModel::Inline(t@),
            ScriptContent::External(s) => ContentModel::External(s@),
        }
    }
}

/// Script metadata collected from the DOM in document order.
#[derive(Debug, Clone, PartialEq, Eq)]
pub struct ScriptElement {
    /// Deterministic script label for diagnostics.
    pub label: String,
    /// Script payload.
    pub content: ScriptContent,
    /// Optional `type` attribute exactly as preserved in the DOM.
    pub script_type: Option<String>,
    /// Whether the `defer` attribute is present.
    pub defer: bool,
    /// Whether the `async` attribute is present.
    pub async_attr: bool,
}

/// `ScriptElement` as plain values.
pub struct ScriptModel {
    /// Label.
    pub label: Seq<char>,
    /// Payload.
    pub content: ContentModel,
    /// `type` value.
    pub script_type: Option<Seq<char>>,
    /// `defer` present.
    pub defer: bool,
    /// `async` present.
    pub async_attr: bool,
}

impl View for ScriptElement {
    type V = ScriptModel;

    open spec fn view(&self) -> ScriptModel {
        ScriptModel {
            label: self.label@,
            content: self.content@,
            script_type: opt_text(self.script_type),
            defer: self.defer,
            async_attr: self.async_attr,
        }
    }
}

/// Inline script metadata collected from the DOM in document order.
#[derive(Debug, Clone, PartialEq, Eq)]
pub struct ScriptBlock {
    /// Deterministic script label for diagnostics.
    pub label: String,
    /// Raw script text exactly as preserved in the DOM after entity decoding.
    pub text: String,
}

impl View for ScriptBlock {
    type V = (Seq<char>, Seq<char>);

    open spec fn view(&self) -> (Seq<char>, Seq<char>) {
        (self.label@, self.text@)
    }
}

/// External script metadata collected from the DOM in document order.
#[derive(Debug, Clone, PartialEq, Eq)]
pub struct ScriptReference {
    /// Deterministic script label for diagnostics.
    pub label: String,
    /// Script source exactly as preserved in the DOM.
    pub src: String,
}

impl View for ScriptReference {
    type V = (Seq<char>, Seq<char>);

    open spec fn view(&self) -> (Seq<char>, Seq<char>) {
        (self.label@, self.src@)
    }
}

/// Number of `script` elements in `s` with (`external`) or without a `src`.
pub open spec fn script_count(s: Seq<NodeModel>, external: bool) -> nat
    decreases s.len(),
{
    if s.len() == 0 {
        0
    } else {
        script_count(s.drop_last(), external) + if is_element(s.last(), "script"@) && (attr_of(
            s.last(),
            "src"@,
        ) is Some) == external {
            1nat
        } else {
            0nat
        }
    }
}

/// Script counts never exceed the number of nodes.
pub proof fn lemma_script_count_bound(s: Seq<NodeModel>, external: bool)
    ensures
        script_count(s, external) <= s.len(),
    decreases s.len(),
{
    if s.len() > 0 {
        lemma_script_count_bound(s.drop_last(), external);
    }
}

/// The script metadata of the last node of `s`, numbered by the scripts of
/// its kind in `s`.
pub open spec fn script_of(s: Seq<NodeModel>) -> Option<ScriptModel> {
    let n = s.last();
    if s.len() > 0 && is_element(n, "script"@) {
        let content = match attr_of(n, "src"@) {
            Some(src) => ContentModel::External(src),
            None => ContentModel::Inline(text_content(n)),
        };
        let label = match attr_of(n, "src"@) {
            Some(_) => "external script "@ + crate::text::decimal(script_count(s, true)),
            None => "inline script "@ + crate::text::decimal(script_count(s, false)),
        };
        Some(
            ScriptModel {
                label,
                content,
                script_type: attr_of(n, "type"@),
                defer: attr_of(n, "defer"@) is Some,
                async_attr: attr_of(n, "async"@) is Some,
            },
        )
    } else {
        None
    }
}

/// The scripts among `s`, in order.
pub open spec fn scripts_in(s: Seq<NodeModel>) -> Seq<ScriptModel>
    decreases s.len(),
{
    if s.len() == 0 {
        Seq::empty()
    } else {
        let r = scripts_in(s.drop_last());
        match script_of(s) {
            Some(m) => r.push(m),
            None => r,
        }
    }
}

/// The scripts of a document: the walk does not descend below `script`
/// elements.
pub open spec fn scripts(root: NodeModel) -> Seq<ScriptModel> {
    scripts_in(walk(root, Some("script"@)))
}

/// Collects all script elements in document order.
pub fn collect_scripts(document: &Document) -> (r: Vec<ScriptElement>)
    ensures
        r@.map_values(|e: ScriptElement| e@) == scripts(document.root@),
{
    let nodes = walk_nodes(&document.root, Some("script"));
    let ghost ms = ref_models(nodes@);
    let mut out: Vec<ScriptElement> = Vec::new();
    let mut inline: usize = 0;
    let mut external: usize = 0;
    let mut i: usize = 0;
    proof {
        assert(ms.take(0) =~= Seq::<NodeModel>::empty());
        assert(out@.map_values(|e: ScriptElement| e@) =~= Seq::<ScriptModel>::empty());
        reveal_strlit("script");
    }
    while i < nodes.len()
        invariant
            i <= nodes@.len(),
            ms == ref_models(nodes@),
            ms == walk(document.root@, Some("script"@)),
            inline == script_count(ms.take(i as int), false),
            external == script_count(ms.take(i as int), true),
            out@.map_values(|e: ScriptElement| e@) == scripts_in(ms.take(i as int)),
        decreases nodes@.len() - i,
    {
        let ghost pre = ms.take(i + 1);
        proof {
            assert(pre.drop_last() =~= ms.take(i as int));
            assert(pre.last() == ms[i as int]);
            lemma_script_count_bound(pre, true);
            lemma_script_count_bound(pre, false);
        }
        let ghost before = out@;
        let node = nodes[i];
        if is_element_exec(node, "script") {
            let (content, label) = match attr_exec(node, "src") {
                Some(src) => {
                    external += 1;
                    let mut label = crate::text::string_from("external script ");
                    let n = crate::text::decimal_string(external as u64);
                    crate::text::push_str(&mut label, n.as_str());
                    (ScriptContent::External(src.clone()), label)
                },
                None => {
                    inline += 1;
                    let text = node_text_content(node);
                    let mut label = crate::text::string_from("inline script ");
                    let n = crate::text::decimal_string(inline as u64);
                    crate::text::push_str(&mut label, n.as_str());
                    (ScriptContent::Inline(text), label)
                },
            };
            let e = ScriptElement {
                label,
                content,
                script_type: attr_owned(node, "type"),
                defer: has_attr(node, "defer"),
                async_attr: has_attr(node, "async"),
            };
            out.push(e);
            proof {
                assert(script_of(pre) == Some(e@));
                assert(out@.map_values(|e: ScriptElement| e@) =~= before.map_values(
                    |e: ScriptElement| e@,
                ).push(e@));
            }
        }
        i += 1;
    }
    proof {
        assert(ms.take(ms.len() as int) =~= ms);
    }
    out
}

/// Whether `node` is an element with attribute `name`.
fn has_attr(node: &Node, name: &str) -> (b: bool)
    ensures
        b == (attr_of(node@, name@) is Some),
{
    attr_exec(node, name).is_some()
}

/// The inline scripts among `s`, as (label, text).
pub open spec fn inline_blocks(s: Seq<ScriptModel>) -> Seq<(Seq<char>, Seq<char>)>
    decreases s.len(),
{
    if s.len() == 0 {
        Seq::empty()
    } else {
        let r = inline_blocks(s.drop_last());
        match s.last().content {
            ContentModel::Inline(t) => r.push((s.last().label, t)),
            ContentModel::External(_) => r,
        }
    }
}

/// The external scripts among `s`, as (label, source).
pub open spec fn external_refs(s: Seq<ScriptModel>) -> Seq<(Seq<char>, Seq<char>)>
    decreases s.len(),
{
    if s.len() == 0 {
        Seq::empty()
    } else {
        let r = external_refs(s.drop_last());
        match s.last().content {
            ContentModel::External(src) => r.push((s.last().label, src)),
            ContentModel::Inline(_) => r,
        }
    }
}

/// Collects inline script blocks in document order.
pub fn collect_inline_scripts(document: &Document) -> (r: Vec<ScriptBlock>)
    ensures
        r@.map_values(|b: ScriptBlock| b@) == inline_blocks(scripts(document.root@)),
{
    let all = collect_scripts(document);
    let ghost ms = all@.map_values(|e: ScriptElement| e@);
    let mut out: Vec<ScriptBlock> = Vec::new();
    let mut i: usize = 0;
    proof {
        assert(ms.take(0) =~= Seq::<ScriptModel>::empty());
        assert(out@.map_values(|b: ScriptBlock| b@) =~= Seq::<(Seq<char>, Seq<char>)>::empty());
    }
    while i < all.len()
        invariant
            i <= all@.len(),
            ms == all@.map_values(|e: ScriptElement| e@),
            out@.map_values(|b: ScriptBlock| b@) == inline_blocks(ms.take(i as int)),
        decreases all@.len() - i,
    {
        proof {
            assert(ms.take(i + 1).drop_last() =~= ms.take(i as int));
            assert(ms.take(i + 1).last() == all@[i as int]@);
        }
        let ghost before = out@;
        match &all[i].content {
            ScriptContent::Inline(text) => {
                let b = ScriptBlock { label: all[i].label.clone(), text: text.clone() };
                out.push(b);
                proof {
                    assert(out@.map_values(|b: ScriptBlock| b@) =~= before.map_values(
                        |b: ScriptBlock| b@,
                    ).push(b@));
                }
            },
            ScriptContent::External(_) => {},
        }
        i += 1;
    }
    proof {
        assert(ms.take(ms.len() as int) =~= ms);
    }
    out
}

/// Collects external script references in document order.
pub fn collect_external_scripts(document: &Document) -> (r: Vec<ScriptReference>)
    ensures
        r@.map_values(|b: ScriptReference| b@) == external_refs(scripts(document.root@)),
{
    let all = collect_scripts(document);
    let ghost ms = all@.map_values(|e: ScriptElement| e@);
    let mut out: Vec<ScriptReference> = Vec::new();
    let mut i: usize = 0;
    proof {
        assert(ms.take(0) =~= Seq::<ScriptModel>::empty());
        assert(out@.map_values(|b: ScriptReference| b@) =~= Seq::<(Seq<char>, Seq<char>)>::empty());
    }
    while i < all.len()
        invariant
            i <= all@.len(),
            ms == all@.map_values(|e: ScriptElement| e@),
            out@.map_values(|b: ScriptReference| b@) == external_refs(ms.take(i as int)),
        decreases all@.len() - i,
    {
        proof {
            assert(ms.take(i + 1).drop_last() =~= ms.take(i as int));
            assert(ms.take(i + 1).last() == all@[i as int]@);
        }
        let ghost before = out@;
        match &all[i].content {
            ScriptContent::External(src) => {
                let b = ScriptReference { label: all[i].label.clone(), src: src.clone() };
                out.push(b);
                proof {
                    assert(out@.map_values(|b: ScriptReference| b@) =~= before.map_values(
                        |b: ScriptReference| b@,
                    ).push(b@));
                }
            },
            ScriptContent::Inline(_) => {},
        }
        i += 1;
    }
    proof {
        assert(ms.take(ms.len() as int) =~= ms);
    }
    out
}

/// State of visible-text extraction as plain values: the text so far,
/// whether a space is pending, and how many line breaks are pending.
pub struct TextState {
    /// Text so far.
    pub out: Seq<char>,
    /// A space is pending.
    pub space: bool,
    /// Pending line breaks.
    pub newlines: nat,
}

/// The initial state.
pub open spec fn text_start() -> TextState {
    TextState { out: Seq::empty(), space: false, newlines: 0 }
}

/// Whether a word written after `o` needs a separating space: `o` ends in a
/// non-whitespace character.
pub open spec fn needs_space_before(o: Seq<char>) -> bool {
    o.len() > 0 && !crate::text::is_ws(o.last())
}

/// Whether `w` starts with punctuation that attaches to the previous word.
pub open spec fn attaches_to_previous(w: Seq<char>) -> bool {
    w.len() > 0 && (w[0] == '.' || w[0] == ',' || w[0] == '!' || w[0] == '?' || w[0] == ';'
        || w[0] == ':' || w[0] == ')' || w[0] == ']')
}

/// `o` without its trailing `' '` characters.
pub open spec fn trim_spaces_end(o: Seq<char>) -> Seq<char>
    decreases o.len(),
{
    if o.len() > 0 && o.last() == ' ' {
        trim_spaces_end(o.drop_last())
    } else {
        o
    }
}

/// Number of trailing line breaks of `o`.
pub open spec fn trailing_newlines(o: Seq<char>) -> nat
    decreases o.len(),
{
    if o.len() > 0 && o.last() == '\n' {
        trailing_newlines(o.drop_last()) + 1
    } else {
        0
    }
}

/// `n` line breaks.
pub open spec fn newlines(n: nat) -> Seq<char> {
    Seq::new(n, |i: int| '\n')
}

/// Writes pending line breaks: trailing spaces go, and breaks are added
/// until the text ends in as many as are pending.
pub open spec fn flush(st: TextState) -> TextState {
    if st.newlines > 0 {
        let t = trim_spaces_end(st.out);
        let e = trailing_newlines(t);
        let add: nat = if e < st.newlines {
            (st.newlines - e) as nat
        } else {
            0
        };
        TextState { out: t + newlines(add), space: false, newlines: 0 }
    } else {
        st
    }
}

/// Writes one word.
pub open spec fn push_word(st: TextState, w: Seq<char>) -> TextState {
    let s1 = flush(st);
    let o1 = if s1.space && needs_space_before(s1.out) && !attaches_to_previous(w) {
        s1.out.push(' ')
    } else {
        s1.out
    };
    let o2 = if needs_space_before(o1) && !attaches_to_previous(w) {
        o1.push(' ')
    } else {
        o1
    };
    TextState { out: o2 + w, space: true, newlines: s1.newlines }
}

/// Writes words in order.
pub open spec fn push_words(st: TextState, ws: Seq<Seq<char>>) -> TextState
    decreases ws.len(),
{
    if ws.len() == 0 {
        st
    } else {
        push_word(push_words(st, ws.drop_last()), ws.last())
    }
}

/// A pending space, once there is text.
pub open spec fn push_space(st: TextState) -> TextState {
    if st.out.len() > 0 {
        TextState { space: true, ..st }
    } else {
        st
    }
}

/// At least `c` pending line breaks, once there is text.
pub open spec fn push_newlines(st: TextState, c: nat) -> TextState {
    if st.out.len() > 0 {
        TextState {
            out: st.out,
            space: false,
            newlines: if st.newlines < c {
                c
            } else {
                st.newlines
            },
        }
    } else {
        st
    }
}

/// Elements whose content is never visible text.
pub open spec fn is_hidden(t: Seq<char>) -> bool {
    t == "head"@ || t == "title"@ || t == "script"@ || t == "style"@ || t == "noscript"@
}

/// Elements that start and end a paragraph of visible text.
pub open spec fn is_block(t: Seq<char>) -> bool {
    t == "html"@ || t == "body"@ || t == "div"@ || t == "p"@ || t == "h1"@ || t == "h2"@ || t
        == "h3"@ || t == "h4"@ || t == "h5"@ || t == "h6"@
}

/// Visible text of `n` written after state `st`, walking the children used
/// for rendering (shadow children when there are any).
pub open spec fn visit(st: TextState, n: NodeModel) -> TextState
    decreases n, 0int,
{
    match n.kind {
        KindModel::Text(t) => push_words(st, words(t, false)),
        KindModel::Element { tag, .. } => {
            if is_hidden(tag) {
                st
            } else if tag == "br"@ {
                push_newlines(st, 1)
            } else {
                let s1 = if is_block(tag) {
                    push_newlines(st, 2)
                } else {
                    st
                };
                let s2 = if n.shadow.len() == 0 {
                    visit_from(s1, n.children, 0)
                } else {
                    visit_from(s1, n.shadow, 0)
                };
                if is_block(tag) {
                    push_newlines(s2, 2)
                } else {
                    push_space(s2)
                }
            }
        },
        KindModel::Document => {
            if n.shadow.len() == 0 {
                visit_from(st, n.children, 0)
            } else {
                visit_from(st, n.shadow, 0)
            }
        },
    }
}

/// Visible text of `s[i..]` in order.
pub open spec fn visit_from(st: TextState, s: Seq<NodeModel>, i: int) -> TextState
    decreases s, s.len() - i,
{
    if i < 0 || i >= s.len() {
        st
    } else {
        visit_from(visit(st, s[i]), s, i + 1)
    }
}

/// The visible text of a document, trimmed.
pub open spec fn visible_text(root: NodeModel) -> Seq<char> {
    crate::text::trim(visit(text_start(), root).out)
}

/// Whether `n` is an element whose content is never shown: `head`,
/// `title`, `script`, `style` or `noscript`.
pub open spec fn hidden_element(n: NodeModel) -> bool {
    n.kind matches KindModel::Element { tag, .. } && (tag == "head"@ || tag == "title"@ || tag
        == "script"@ || tag == "style"@ || tag == "noscript"@)
}

/// A `head`, `title`, `script`, `style` or `noscript` element adds nothing
/// to the visible text, whatever it holds.
pub proof fn lemma_hidden_element_adds_nothing(st: TextState, n: NodeModel)
    requires
        hidden_element(n),
    ensures
        visit(st, n) == st,
{
}

/// Dropping `s[k]` shifts the later children down by one.
proof fn lemma_visit_from_removed(st: TextState, s: Seq<NodeModel>, k: int, j: int)
    requires
        0 <= k <= j,
        k < s.len(),
    ensures
        visit_from(st, s.remove(k), j) == visit_from(st, s, j + 1),
    decreases s.len() - j,
{
    if j + 1 < s.len() {
        assert(s.remove(k)[j] == s[j + 1]);
        lemma_visit_from_removed(visit(st, s[j + 1]), s, k, j + 1);
    }
}

/// Removing a hidden element from a list of children leaves their visible
/// text as it is.
pub proof fn lemma_hidden_removal(st: TextState, s: Seq<NodeModel>, k: int, i: int)
    requires
        0 <= i <= k < s.len(),
        hidden_element(s[k]),
    ensures
        visit_from(st, s, i) == visit_from(st, s.remove(k), i),
    decreases k - i,
{
    if i == k {
        lemma_hidden_element_adds_nothing(st, s[k]);
        lemma_visit_from_removed(st, s, k, k);
    } else {
        assert(s.remove(k)[i] == s[i]);
        lemma_hidden_removal(visit(st, s[i]), s, k, i + 1);
    }
}

/// The visible text of a document does not depend on its hidden elements:
/// removing a `head`, `title`, `script`, `style` or `noscript` element
/// from the document's children, with all it holds, leaves the text as it
/// is.
pub proof fn lemma_visible_text_ignores_hidden(root: NodeModel, k: int)
    requires
        root.kind is Document,
        root.shadow.len() == 0,
        0 <= k < root.children.len(),
        hidden_element(root.children[k]),
    ensures
        visible_text(root) == visible_text(NodeModel { children: root.children.remove(k), ..root }),
{
    lemma_hidden_removal(text_start(), root.children, k, 0);
}

/// Whether `n` is an element that makes a paragraph of its own: `html`,
/// `body`, `div`, `p` and the headings `h1` to `h6`.
pub open spec fn paragraph_element(n: NodeModel) -> bool {
    n.kind matches KindModel::Element { tag, .. } && (tag == "html"@ || tag == "body"@ || tag == "div"@ || tag == "p"@ || tag == "h1"@ || tag == "h2"@ || tag == "h3"@ || tag == "h4"@ || tag == "h5"@ || tag == "h6"@)
}

/// A paragraph element ends its paragraph: once there is text, at least
/// two line breaks are pending after it, and no space. A `br` element
/// leaves at least one line break pending.
pub proof fn lemma_paragraph_breaks(st: TextState, n: NodeModel)
    ensures
        paragraph_element(n) && visit(st, n).out.len() > 0 ==> visit(st, n).newlines >= 2 && !visit(
            st,
            n,
        ).space,
        n.kind matches KindModel::Element { tag, .. } && tag == "br"@ && st.out.len() > 0 ==> visit(
            st,
            n,
        ).newlines >= 1,
{
    reveal_strlit("html");
    reveal_strlit("body");
    reveal_strlit("div");
    reveal_strlit("p");
    reveal_strlit("h1");
    reveal_strlit("h2");
    reveal_strlit("h3");
    reveal_strlit("h4");
    reveal_strlit("h5");
    reveal_strlit("h6");
    reveal_strlit("head");
    reveal_strlit("title");
    reveal_strlit("script");
    reveal_strlit("style");
    reveal_strlit("noscript");
    reveal_strlit("br");
    if let KindModel::Element { tag, .. } = n.kind {
        if tag == "html"@ {
            assert("html"@[1] != "head"@[1] && "html"@.len() != "title"@.len() && "html"@.len() != "script"@.len() && "html"@.len() != "style"@.len() && "html"@.len() != "noscript"@.len() && "html"@.len() != "br"@.len());
        }
        if tag == "body"@ {
            assert("body"@[0] != "head"@[0] && "body"@.len() != "title"@.len() && "body"@.len() != "script"@.len() && "body"@.len() != "style"@.len() && "body"@.len() != "noscript"@.len() && "body"@.len() != "br"@.len());
        }
        if tag == "div"@ {
            assert("div"@.len() != "head"@.len() && "div"@.len() != "title"@.len() && "div"@.len() != "script"@.len() && "div"@.len() != "style"@.len() && "div"@.len() != "noscript"@.len() && "div"@.len() != "br"@.len());
        }
        if tag == "p"@ {
            assert("p"@.len() != "head"@.len() && "p"@.len() != "title"@.len() && "p"@.len() != "script"@.len() && "p"@.len() != "style"@.len() && "p"@.len() != "noscript"@.len() && "p"@.len() != "br"@.len());
        }
        if tag == "h1"@ {
            assert("h1"@.len() != "head"@.len() && "h1"@.len() != "title"@.len() && "h1"@.len() != "script"@.len() && "h1"@.len() != "style"@.len() && "h1"@.len() != "noscript"@.len() && "h1"@[0] != "br"@[0]);
        }
        if tag == "h2"@ {
            assert("h2"@.len() != "head"@.len() && "h2"@.len() != "title"@.len() && "h2"@.len() != "script"@.len() && "h2"@.len() != "style"@.len() && "h2"@.len() != "noscript"@.len() && "h2"@[0] != "br"@[0]);
        }
        if tag == "h3"@ {
            assert("h3"@.len() != "head"@.len() && "h3"@.len() != "title"@.len() && "h3"@.len() != "script"@.len() && "h3"@.len() != "style"@.len() && "h3"@.len() != "noscript"@.len() && "h3"@[0] != "br"@[0]);
        }
        if tag == "h4"@ {
            assert("h4"@.len() != "head"@.len() && "h4"@.len() != "title"@.len() && "h4"@.len() != "script"@.len() && "h4"@.len() != "style"@.len() && "h4"@.len() != "noscript"@.len() && "h4"@[0] != "br"@[0]);
        }
        if tag == "h5"@ {
            assert("h5"@.len() != "head"@.len() && "h5"@.len() != "title"@.len() && "h5"@.len() != "script"@.len() && "h5"@.len() != "style"@.len() && "h5"@.len() != "noscript"@.len() && "h5"@[0] != "br"@[0]);
        }
        if tag == "h6"@ {
            assert("h6"@.len() != "head"@.len() && "h6"@.len() != "title"@.len() && "h6"@.len() != "script"@.len() && "h6"@.len() != "style"@.len() && "h6"@.len() != "noscript"@.len() && "h6"@[0] != "br"@[0]);
        }
        if tag == "br"@ {
            assert("br"@.len() != "head"@.len() && "br"@.len() != "title"@.len() && "br"@.len() != "script"@.len() && "br"@.len() != "style"@.len() && "br"@.len() != "noscript"@.len());
        }
    }
}

/// Visible-text builder.
struct VisibleText {
    output: Vec<char>,
    pending_space: bool,
    pending_newlines: usize,
}

impl VisibleText {
    /// The state as plain values.
    closed spec fn state(&self) -> TextState {
        TextState {
            out: self.output@,
            space: self.pending_space,
            newlines: self.pending_newlines as nat,
        }
    }

    fn needs_space(&self) -> (b: bool)
        ensures
            b == needs_space_before(self.output@),
    {
        if self.output.len() == 0 {
            false
        } else {
            !crate::text::char_is_ws(self.output[self.output.len() - 1])
        }
    }

    fn flush_pending_newlines(&mut self)
        requires
            old(self).pending_newlines <= 2,
        ensures
            final(self).state() == flush(old(self).state()),
    {
        if self.pending_newlines > 0 {
            while self.output.len() > 0 && self.output[self.output.len() - 1] == ' '
                invariant
                    trim_spaces_end(self.output@) == trim_spaces_end(old(self).output@),
                    self.pending_newlines == old(self).pending_newlines,
                    self.pending_space == old(self).pending_space,
                decreases self.output@.len(),
            {
                self.output.pop();
            }
            let ghost t = self.output@;
            proof {
                assert(t == trim_spaces_end(old(self).output@));
            }
            let mut existing: usize = 0;
            proof {
                assert(t.take(t.len() as int) =~= t);
            }
            while existing < self.output.len() && self.output[self.output.len() - 1 - existing]
                == '\n'
                invariant
                    existing <= self.output@.len(),
                    self.output@ == t,
                    trailing_newlines(t.take(t.len() - existing)) + existing == trailing_newlines(t),
                decreases self.output@.len() - existing,
            {
                proof {
                    assert(t.take(t.len() - existing).drop_last() =~= t.take(t.len() - existing - 1));
                }
                existing += 1;
            }
            proof {
                if existing < t.len() {
                    assert(t.take(t.len() - existing).last() == t[t.len() - 1 - existing]);
                }
                assert(trailing_newlines(t.take(t.len() - existing)) == 0);
            }
            let mut k = existing;
            let ghost want: nat = if existing < self.pending_newlines {
                (self.pending_newlines - existing) as nat
            } else {
                0
            };
            while k < self.pending_newlines
                invariant
                    existing <= k,
                    existing < self.pending_newlines ==> k <= self.pending_newlines,
                    existing >= self.pending_newlines ==> k == existing,
                    self.output@ == t + newlines(
                        if existing < k {
                            (k - existing) as nat
                        } else {
                            0
                        },
                    ),
                    self.pending_newlines == old(self).pending_newlines,
                    self.pending_newlines <= 2,
                decreases self.pending_newlines - k,
            {
                let ghost before = self.output@;
                self.output.push('\n');
                proof {
                    assert(self.output@ =~= t + newlines((k + 1 - existing) as nat));
                }
                k += 1;
            }
            proof {
                if existing < self.pending_newlines {
                    assert(k == self.pending_newlines);
                } else {
                    assert(k == existing);
                }
                assert(self.output@ =~= t + newlines(want));
            }
            self.pending_newlines = 0;
            self.pending_space = false;
        }
    }

    fn push_word(&mut self, w: &Vec<char>)
        requires
            old(self).pending_newlines <= 2,
        ensures
            final(self).state() == push_word(old(self).state(), w@),
            final(self).pending_newlines <= 2,
    {
        self.flush_pending_newlines();
        let attaches = w.len() > 0 && (w[0] == '.' || w[0] == ',' || w[0] == '!' || w[0] == '?'
            || w[0] == ';' || w[0] == ':' || w[0] == ')' || w[0] == ']');
        if self.pending_space && self.needs_space() && !attaches {
            self.output.push(' ');
        }
        self.pending_space = false;
        if self.needs_space() && !attaches {
            self.output.push(' ');
        }
        let ghost before = self.output@;
        let mut i: usize = 0;
        while i < w.len()
            invariant
                i <= w@.len(),
                self.output@ == before + w@.take(i as int),
                self.pending_newlines == 0,
                self.pending_space == false,
            decreases w@.len() - i,
        {
            self.output.push(w[i]);
            proof {
                assert(w@.take(i + 1) =~= w@.take(i as int).push(w@[i as int]));
            }
            i += 1;
        }
        proof {
            assert(w@.take(w@.len() as int) =~= w@);
        }
        self.pending_space = true;
    }

    fn push_text(&mut self, text: &str)
        requires
            old(self).pending_newlines <= 2,
        ensures
            final(self).state() == push_words(old(self).state(), words(text@, false)),
            final(self).pending_newlines <= 2,
    {
        let v = chars_of(text);
        let ws = crate::text::split_words(&v, false);
        let ghost all = words(text@, false);
        let mut i: usize = 0;
        proof {
            assert(all.take(0) =~= Seq::<Seq<char>>::empty());
        }
        while i < ws.len()
            invariant
                i <= ws@.len(),
                ws@.len() == all.len(),
                forall|q: int| 0 <= q < ws@.len() ==> #[trigger] ws@[q]@ == all[q],
                self.state() == push_words(old(self).state(), all.take(i as int)),
                self.pending_newlines <= 2,
            decreases ws@.len() - i,
        {
            proof {
                assert(all.take(i + 1).drop_last() =~= all.take(i as int));
                assert(ws@[i as int]@ == all[i as int]);
            }
            self.push_word(&ws[i]);
            i += 1;
        }
        proof {
            assert(all.take(all.len() as int) =~= all);
        }
    }

    fn push_space(&mut self)
        ensures
            final(self).state() == push_space(old(self).state()),
            final(self).pending_newlines == old(self).pending_newlines,
    {
        if self.output.len() > 0 {
            self.pending_space = true;
        }
    }

    fn push_newlines(&mut self, count: usize)
        requires
            old(self).pending_newlines <= 2,
            count <= 2,
        ensures
            final(self).state() == push_newlines(old(self).state(), count as nat),
            final(self).pending_newlines <= 2,
    {
        if self.output.len() > 0 {
            self.pending_space = false;
            if self.pending_newlines < count {
                self.pending_newlines = count;
            }
        }
    }
}

/// `is_hidden` computed.
fn is_hidden_exec(t: &Vec<char>) -> (b: bool)
    ensures
        b == is_hidden(t@),
{
    crate::text::vec_eq_str(t, "head") || crate::text::vec_eq_str(t, "title")
        || crate::text::vec_eq_str(t, "script") || crate::text::vec_eq_str(t, "style")
        || crate::text::vec_eq_str(t, "noscript")
}

/// `is_block` computed.
fn is_block_exec(t: &Vec<char>) -> (b: bool)
    ensures
        b == is_block(t@),
{
    crate::text::vec_eq_str(t, "html") || crate::text::vec_eq_str(t, "body")
        || crate::text::vec_eq_str(t, "div") || crate::text::vec_eq_str(t, "p")
        || crate::text::vec_eq_str(t, "h1") || crate::text::vec_eq_str(t, "h2")
        || crate::text::vec_eq_str(t, "h3") || crate::text::vec_eq_str(t, "h4")
        || crate::text::vec_eq_str(t, "h5") || crate::text::vec_eq_str(t, "h6")
}

/// Writes the visible text of `node`.
fn collect_visible_text(node: &Node, output: &mut VisibleText)
    requires
        old(output).pending_newlines <= 2,
    ensures
        final(output).state() == visit(old(output).state(), node@),
        final(output).pending_newlines <= 2,
    decreases node,
{
    proof {
        crate::dom::lemma_children_models(*node);
    }
    match &node.kind {
        NodeKind::Text(t) => output.push_text(t.as_str()),
        NodeKind::Element(e) => {
            let tag = chars_of(e.tag_name.as_str());
            if is_hidden_exec(&tag) {
            } else if crate::text::vec_eq_str(&tag, "br") {
                output.push_newlines(1);
            } else {
                let block = is_block_exec(&tag);
                if block {
                    output.push_newlines(2);
                }
                if node.shadow_children.len() == 0 {
                    collect_visible_text_all(&node.children, output);
                } else {
                    collect_visible_text_all(&node.shadow_children, output);
                }
                if block {
                    output.push_newlines(2);
                } else {
                    output.push_space();
                }
            }
        },
        NodeKind::Document => {
            if node.shadow_children.len() == 0 {
                collect_visible_text_all(&node.children, output);
            } else {
                collect_visible_text_all(&node.shadow_children, output);
            }
        },
    }
}

/// Writes the visible text of each of `nodes` in order.
fn collect_visible_text_all(nodes: &Vec<Node>, output: &mut VisibleText)
    requires
        old(output).pending_newlines <= 2,
    ensures
        final(output).state() == visit_from(old(output).state(), models(nodes@), 0),
        final(output).pending_newlines <= 2,
    decreases nodes@,
{
    let ghost ms = models(nodes@);
    let mut i: usize = 0;
    while i < nodes.len()
        invariant
            i <= nodes@.len(),
            ms == models(nodes@),
            visit_from(output.state(), ms, i as int) == visit_from(old(output).state(), ms, 0),
            output.pending_newlines <= 2,
        decreases nodes@.len() - i,
    {
        assert(decreases_to!(nodes@ => nodes@[i as int]));
        proof {
            assert(ms[i as int] == nodes@[i as int]@);
        }
        collect_visible_text(&nodes[i], output);
        i += 1;
    }
}

/// Extracts visible text from an existing DOM tree.
pub fn extract_visible_text(document: &Document) -> (r: String)
    ensures
        r@ == visible_text(document.root@),
{
    let mut output = VisibleText { output: Vec::new(), pending_space: false, pending_newlines: 0 };
    proof {
        assert(output.state() == text_start());
    }
    collect_visible_text(&document.root, &mut output);
    let t = crate::text::trim_vec(&output.output);
    crate::text::string_of(&t)
}

/// The dump escape of one character.
pub open spec fn escape_char(c: char) -> Seq<char> {
    if c == '\\' {
        "\\\\"@
    } else if c == '"' {
        "\\\""@
    } else if c == '\n' {
        "\\n"@
    } else if c == '\r' {
        "\\r"@
    } else if c == '\t' {
        "\\t"@
    } else if crate::text::is_control(c) {
        "\\u{"@ + crate::text::hex((c as u32) as nat) + "}"@
    } else {
        seq![c]
    }
}

/// `s` with backslashes, quotes and control characters escaped.
pub open spec fn escape_dump(s: Seq<char>) -> Seq<char>
    decreases s.len(),
{
    if s.len() == 0 {
        Seq::empty()
    } else {
        escape_dump(s.drop_last()) + escape_char(s.last())
    }
}

/// Appends the escape of `text` to `out`.
fn escape_dump_into(out: &mut Vec<char>, text: &str)
    ensures
        final(out)@ == old(out)@ + escape_dump(text@),
{
    let v = chars_of(text);
    let ghost before = out@;
    let mut i: usize = 0;
    proof {
        assert(v@.take(0) =~= Seq::<char>::empty());
        assert(before + Seq::<char>::empty() =~= before);
    }
    while i < v.len()
        invariant
            i <= v@.len(),
            v@ == text@,
            out@ == before + escape_dump(v@.take(i as int)),
        decreases v@.len() - i,
    {
        let c = v[i];
        let ghost mid = out@;
        proof {
            assert(v@.take(i + 1).drop_last() =~= v@.take(i as int));
            assert(v@.take(i + 1).last() == c);
        }
        if c == '\\' {
            crate::text::append_str(out, "\\\\");
        } else if c == '"' {
            crate::text::append_str(out, "\\\"");
        } else if c == '\n' {
            crate::text::append_str(out, "\\n");
        } else if c == '\r' {
            crate::text::append_str(out, "\\r");
        } else if c == '\t' {
            crate::text::append_str(out, "\\t");
        } else if crate::text::char_is_control(c) {
            crate::text::append_str(out, "\\u{");
            let u: u32 = c as u32;
            let h = crate::text::numeral_exec(u as u64, 16);
            crate::text::append_chars(out, &h);
            crate::text::append_str(out, "}");
        } else {
            out.push(c);
        }
        proof {
            assert(out@ =~= mid + escape_char(c));
            assert(before + escape_dump(v@.take(i + 1)) =~= before + escape_dump(v@.take(i as int))
                + escape_char(c));
        }
        i += 1;
    }
    proof {
        assert(v@.take(v@.len() as int) =~= v@);
    }
}

/// Escapes backslashes, quotes and control characters of `input`.
pub fn escape_dump_string(input: &str) -> (r: String)
    ensures
        r@ == escape_dump(input@),
{
    let mut v: Vec<char> = Vec::new();
    escape_dump_into(&mut v, input);
    proof {
        assert(Seq::<char>::empty() + escape_dump(input@) =~= escape_dump(input@));
    }
    crate::text::string_of(&v)
}

/// `d` levels of two-space indentation.
pub open spec fn indent(d: nat) -> Seq<char> {
    Seq::new(2 * d, |i: int| ' ')
}

/// The dump of attribute pairs: ` name="value"` for each, in key order.
pub open spec fn dump_attrs(p: crate::dom::AttrPairs) -> Seq<char>
    decreases p.len(),
{
    if p.len() == 0 {
        Seq::empty()
    } else {
        dump_attrs(p.drop_last()) + " "@ + p.last().0 + "=\""@ + escape_dump(p.last().1) + "\""@
    }
}

/// The dump line of `n` at depth `d`.
pub open spec fn dump_line(n: NodeModel, d: nat) -> Seq<char> {
    match n.kind {
        KindModel::Document => "#document\n"@,
        KindModel::Element { tag, attrs } => indent(d) + "<"@ + tag + dump_attrs(attrs) + ">\n"@,
        KindModel::Text(t) => indent(d) + "\""@ + escape_dump(t) + "\"\n"@,
    }
}

/// The dump of `n` at depth `d`: its line, its light children one level
/// deeper, then, if it has shadow children, a `#shadow-root` line and
/// those children one level deeper.
pub open spec fn dump(n: NodeModel, d: nat) -> Seq<char>
    decreases n, 0int,
{
    dump_line(n, d) + dump_from(n.children, d + 1, 0) + if n.shadow.len() > 0 {
        indent(d) + "#shadow-root\n"@ + dump_from(n.shadow, d + 1, 0)
    } else {
        Seq::empty()
    }
}

/// The dumps of `s[i..]` at depth `d`, in order.
pub open spec fn dump_from(s: Seq<NodeModel>, d: nat, i: int) -> Seq<char>
    decreases s, s.len() - i,
{
    if i < 0 || i >= s.len() {
        Seq::empty()
    } else {
        dump(s[i], d) + dump_from(s, d, i + 1)
    }
}

/// Appends the dump of `node` at the depth whose indentation is `ind`.
fn dump_node(node: &Node, ind: &Vec<char>, Ghost(d): Ghost<nat>, out: &mut Vec<char>)
    requires
        ind@ == indent(d),
    ensures
        final(out)@ == old(out)@ + dump(node@, d),
    decreases node,
{
    proof {
        crate::dom::lemma_children_models(*node);
    }
    let ghost before = out@;
    match &node.kind {
        NodeKind::Document => {
            crate::text::append_str(out, "#document\n");
        },
        NodeKind::Element(e) => {
            crate::text::append_chars(out, ind);
            crate::text::append_str(out, "<");
            crate::text::append_str(out, e.tag_name.as_str());
            let ghost p = e.attributes.pairs();
            let mut k: usize = 0;
            let ghost head = out@;
            proof {
                assert(p.take(0) =~= crate::dom::AttrPairs::empty());
                assert(head + dump_attrs(p.take(0)) =~= head);
            }
            while k < e.attributes.len()
                invariant
                    k <= p.len(),
                    p == e.attributes.pairs(),
                    out@ == head + dump_attrs(p.take(k as int)),
                decreases p.len() - k,
            {
                let (name, value) = e.attributes.entry(k);
                crate::text::append_str(out, " ");
                crate::text::append_str(out, name.as_str());
                crate::text::append_str(out, "=\"");
                escape_dump_into(out, value.as_str());
                crate::text::append_str(out, "\"");
                proof {
                    assert(p.take(k + 1).drop_last() =~= p.take(k as int));
                    assert(out@ =~= head + dump_attrs(p.take(k + 1)));
                }
                k += 1;
            }
            proof {
                assert(p.take(p.len() as int) =~= p);
            }
            crate::text::append_str(out, ">\n");
        },
        NodeKind::Text(t) => {
            crate::text::append_chars(out, ind);
            crate::text::append_str(out, "\"");
            escape_dump_into(out, t.as_str());
            crate::text::append_str(out, "\"\n");
        },
    }
    proof {
        assert(out@ =~= before + dump_line(node@, d));
    }
    let mut deeper = ind.clone();
    deeper.push(' ');
    deeper.push(' ');
    proof {
        assert(deeper@ =~= indent(d + 1));
    }
    dump_all(&node.children, &deeper, Ghost(d + 1), out);
    if node.shadow_children.len() > 0 {
        crate::text::append_chars(out, ind);
        crate::text::append_str(out, "#shadow-root\n");
        dump_all(&node.shadow_children, &deeper, Ghost(d + 1), out);
    }
    proof {
        assert(out@ =~= before + dump(node@, d));
    }
}

/// Appends the dumps of all of `nodes` at depth `d`.
fn dump_all(nodes: &Vec<Node>, ind: &Vec<char>, Ghost(d): Ghost<nat>, out: &mut Vec<char>)
    requires
        ind@ == indent(d),
    ensures
        final(out)@ == old(out)@ + dump_from(models(nodes@), d, 0),
    decreases nodes@,
{
    let ghost ms = models(nodes@);
    let ghost base = out@;
    let mut i: usize = 0;
    proof {
        assert(base + dump_from(ms, d, 0) =~= out@ + dump_from(ms, d, 0));
    }
    while i < nodes.len()
        invariant
            i <= nodes@.len(),
            ms == models(nodes@),
            ind@ == indent(d),
            out@ + dump_from(ms, d, i as int) == base + dump_from(ms, d, 0),
        decreases nodes@.len() - i,
    {
        assert(decreases_to!(nodes@ => nodes@[i as int]));
        let ghost mid = out@;
        proof {
            assert(ms[i as int] == nodes@[i as int]@);
        }
        dump_node(&nodes[i], ind, Ghost(d), out);
        proof {
            assert(out@ + dump_from(ms, d, i + 1) =~= mid + dump_from(ms, d, i as int));
        }
        i += 1;
    }
    proof {
        assert(out@ + Seq::<char>::empty() =~= out@);
    }
}

/// Formats a DOM tree for deterministic debug output.
pub fn dump_dom(document: &Document) -> (r: String)
    ensures
        r@ == dump(document.root@, 0),
{
    let mut out: Vec<char> = Vec::new();
    let ind: Vec<char> = Vec::new();
    proof {
        assert(ind@ =~= indent(0));
    }
    dump_node(&document.root, &ind, Ghost(0), &mut out);
    proof {
        assert(out@ =~= dump(document.root@, 0));
    }
    crate::text::string_of(&out)
}
} // verus!
