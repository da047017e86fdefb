//! Document tree data structures.
//!
//! A [`Node`] is viewed as a [`NodeModel`]: its id, its kind, and the models
//! of its light children and shadow-root children. Tree lookups and edits
//! are stated over those models.

use vstd::prelude::*;
use vstd::multiset::Multiset;
use crate::text::{
    chars_of, lower, lower_string, string_from, lemma_text_lt_irreflexive, lemma_text_lt_total, lemma_text_lt_transitive, text_lt,
    text_lt_exec, vec_eq,
};

verus! {

/// Stable DOM node identifier assigned in deterministic tree order.
pub type NodeId = u64;

/// Attribute name/value pairs of an element, kept sorted by name with no
/// name twice, so iteration is in deterministic key order.
#[derive(Debug, PartialEq, Eq)]
pub struct AttributeMap {
    entries: Vec<(String, String)>,
}

/// The pairs of an attribute map as texts.
pub type AttrPairs = Seq<(Seq<char>, Seq<char>)>;

/// Names strictly increase along the pairs.
pub open spec fn names_sorted<V>(p: Seq<(Seq<char>, V)>) -> bool {
    forall|i: int, j: int| 0 <= i < j < p.len() ==> text_lt(#[trigger] p[i].0, #[trigger] p[j].0)
}

/// Index of the pair named `k` at or after `i`, or `-1`.
pub open spec fn name_index_from<V>(p: Seq<(Seq<char>, V)>, k: Seq<char>, i: int) -> int
    decreases p.len() - i,
{
    if i < 0 || i >= p.len() {
        -1
    } else if p[i].0 == k {
        i
    } else {
        name_index_from(p, k, i + 1)
    }
}

/// The value stored under name `k`.
pub open spec fn attr_lookup<V>(p: Seq<(Seq<char>, V)>, k: Seq<char>) -> Option<V> {
    let i = name_index_from(p, k, 0);
    if i >= 0 {
        Some(p[i].1)
    } else {
        None
    }
}

/// The position where name `k` belongs: the first pair whose name is not
/// below `k`.
pub open spec fn insert_pos_from<V>(p: Seq<(Seq<char>, V)>, k: Seq<char>, i: int) -> int
    decreases p.len() - i,
{
    if i < 0 || i >= p.len() {
        p.len() as int
    } else if !text_lt(p[i].0, k) {
        i
    } else {
        insert_pos_from(p, k, i + 1)
    }
}

/// The pairs after storing `v` under `k`: replace the value if the name is
/// present, otherwise insert the pair at its sorted position.
pub open spec fn attr_insert<V>(p: Seq<(Seq<char>, V)>, k: Seq<char>, v: V) -> Seq<(Seq<char>, V)> {
    let pos = insert_pos_from(p, k, 0);
    if 0 <= pos < p.len() && p[pos].0 == k {
        p.update(pos, (k, v))
    } else {
        p.insert(pos, (k, v))
    }
}

impl Clone for AttributeMap {
    fn clone(&self) -> (m: Self)
        ensures
            m.pairs() == self.pairs(),
    {
        proof {
            use_type_invariant(self);
        }
        let mut entries: Vec<(String, String)> = Vec::new();
        let mut i: usize = 0;
        while i < self.entries.len()
            invariant
                i <= self.entries@.len(),
                entries@ =~= self.entries@.take(i as int),
            decreases self.entries@.len() - i,
        {
            let e = &self.entries[i];
            entries.push((e.0.clone(), e.1.clone()));
            i += 1;
        }
        proof {
            assert(self.entries@.take(self.entries@.len() as int) =~= self.entries@);
        }
        let m = AttributeMap { entries };
        proof {
            assert(m.pairs() =~= self.pairs());
        }
        m
    }
}

impl AttributeMap {
    #[verifier::type_invariant]
    spec fn well_formed(self) -> bool {
        names_sorted(self.pairs())
    }

    /// The pairs in iteration order.
    pub closed spec fn pairs(self) -> AttrPairs {
        Seq::new(self.entries@.len(), |i: int| (self.entries@[i].0@, self.entries@[i].1@))
    }

    /// Creates an empty map.
    pub fn new() -> (m: Self)
        ensures
            m.pairs() == Seq::<(Seq<char>, Seq<char>)>::empty(),
    {
        let m = AttributeMap { entries: Vec::new() };
        proof {
            assert(m.pairs() =~= Seq::<(Seq<char>, Seq<char>)>::empty());
        }
        m
    }

    /// Number of attributes.
    pub fn len(&self) -> (n: usize)
        ensures
            n == self.pairs().len(),
    {
        self.entries.len()
    }

    /// Whether the map holds no attribute.
    pub fn is_empty(&self) -> (b: bool)
        ensures
            b == (self.pairs().len() == 0),
    {
        self.entries.len() == 0
    }

    /// The name and value at position `i` in key order.
    pub fn entry(&self, i: usize) -> (r: (&String, &String))
        requires
            i < self.pairs().len(),
        ensures
            r.0@ == self.pairs()[i as int].0,
            r.1@ == self.pairs()[i as int].1,
    {
        let e = &self.entries[i];
        (&e.0, &e.1)
    }

    /// Position of `name`, if present.
    fn index_of(&self, name: &Vec<char>) -> (r: Option<usize>)
        ensures
            r matches Some(i) ==> i == name_index_from(self.pairs(), name@, 0) && i < self.pairs().len(),
            r is None ==> name_index_from(self.pairs(), name@, 0) == -1,
    {
        let mut i: usize = 0;
        while i < self.entries.len()
            invariant
                i <= self.entries@.len(),
                name_index_from(self.pairs(), name@, i as int) == name_index_from(
                    self.pairs(),
                    name@,
                    0,
                ),
            decreases self.entries@.len() - i,
        {
            let k = chars_of(self.entries[i].0.as_str());
            if vec_eq(&k, name) {
                return Some(i);
            }
            i += 1;
        }
        None
    }

    /// The value stored under `name`.
    pub fn get(&self, name: &str) -> (r: Option<&String>)
        ensures
            r matches Some(v) ==> attr_lookup(self.pairs(), name@) == Some(v@),
            r is None ==> attr_lookup(self.pairs(), name@) is None,
    {
        let key = chars_of(name);
        match self.index_of(&key) {
            Some(i) => Some(&self.entries[i].1),
            None => None,
        }
    }

    /// Whether `name` is present.
    pub fn contains_key(&self, name: &str) -> (b: bool)
        ensures
            b == attr_lookup(self.pairs(), name@) is Some,
    {
        let key = chars_of(name);
        self.index_of(&key).is_some()
    }

    /// Position where `key` belongs in key order.
    fn insert_pos(&self, key: &Vec<char>) -> (r: usize)
        ensures
            r == insert_pos_from(self.pairs(), key@, 0),
            r <= self.pairs().len(),
    {
        let mut i: usize = 0;
        while i < self.entries.len()
            invariant
                i <= self.entries@.len(),
                insert_pos_from(self.pairs(), key@, i as int) == insert_pos_from(
                    self.pairs(),
                    key@,
                    0,
                ),
            decreases self.entries@.len() - i,
        {
            let k = chars_of(self.entries[i].0.as_str());
            if !text_lt_exec(&k, key) {
                return i;
            }
            i += 1;
        }
        i
    }

    /// Stores `value` under `name`, replacing an earlier value.
    pub fn insert(&mut self, name: String, value: String)
        ensures
            final(self).pairs() == attr_insert(old(self).pairs(), name@, value@),
    {
        proof {
            use_type_invariant(&*self);
        }
        let key = chars_of(name.as_str());
        let ghost p = self.pairs();
        let i = self.insert_pos(&key);
        let ghost pos = i as int;
        let present = if i < self.entries.len() {
            let k = chars_of(self.entries[i].0.as_str());
            vec_eq(&k, &key)
        } else {
            false
        };
        proof {
            lemma_attr_insert_sorted(p, name@, value@);
        }
        let mut entries: Vec<(String, String)> = Vec::new();
        let mut j: usize = 0;
        while j < i
            invariant
                j <= i <= self.entries@.len(),
                entries@ =~= self.entries@.take(j as int),
            decreases i - j,
        {
            let e = &self.entries[j];
            entries.push((e.0.clone(), e.1.clone()));
            j += 1;
        }
        entries.push((name, value));
        let ghost head = entries@;
        let mut j: usize = if present { i + 1 } else { i };
        let ghost start = j as int;
        while j < self.entries.len()
            invariant
                0 <= start <= j <= self.entries@.len(),
                head.len() == i + 1,
                entries@.len() == head.len() + (j - start),
                forall|k: int| 0 <= k < head.len() ==> entries@[k] == head[k],
                forall|k: int|
                    start <= k < j ==> entries@[head.len() + k - start] == #[trigger] self.entries@[k],
            decreases self.entries@.len() - j,
        {
            let e = &self.entries[j];
            entries.push((e.0.clone(), e.1.clone()));
            j += 1;
        }
        proof {
            let newp = Seq::new(entries@.len(), |k: int| (entries@[k].0@, entries@[k].1@));
            let q = attr_insert(p, key@, value@);
            assert(present == (i < p.len() && p[i as int].0 == key@));
            assert(newp.len() == q.len());
            assert forall|k: int| 0 <= k < q.len() implies newp[k] == q[k] by {
                if k < i {
                    assert(entries@[k] == head[k]);
                    assert(head[k] == self.entries@[k]);
                } else if k == i {
                    assert(entries@[k] == head[k]);
                } else if present {
                    assert(entries@[head.len() + k - start] == self.entries@[k]);
                } else {
                    assert(entries@[head.len() + (k - 1) - start] == self.entries@[k - 1]);
                }
            }
            assert(newp =~= q);
        }
        self.entries = entries;
    }
}

/// `insert_pos_from` lands between the names below `k` and the rest.
pub proof fn lemma_insert_pos<V>(p: Seq<(Seq<char>, V)>, k: Seq<char>, i: int)
    requires
        0 <= i <= p.len(),
        forall|j: int| 0 <= j < i ==> text_lt(#[trigger] p[j].0, k),
    ensures
        i <= insert_pos_from(p, k, i) <= p.len(),
        forall|j: int| 0 <= j < insert_pos_from(p, k, i) ==> text_lt(#[trigger] p[j].0, k),
        insert_pos_from(p, k, i) < p.len() ==> !text_lt(p[insert_pos_from(p, k, i)].0, k),
    decreases p.len() - i,
{
    if i < p.len() && text_lt(p[i].0, k) {
        lemma_insert_pos(p, k, i + 1);
    }
}

/// Every pair after an insertion is the inserted pair or a pair from
/// before.
pub proof fn lemma_attr_insert_members<V>(p: Seq<(Seq<char>, V)>, k: Seq<char>, v: V)
    ensures
        forall|i: int|
            0 <= i < attr_insert(p, k, v).len() ==> #[trigger] attr_insert(p, k, v)[i] == (k, v)
                || p.contains(attr_insert(p, k, v)[i]),
{
    lemma_insert_pos(p, k, 0);
    let q = attr_insert(p, k, v);
    let pos = insert_pos_from(p, k, 0);
    assert forall|i: int| 0 <= i < q.len() implies #[trigger] q[i] == (k, v) || p.contains(q[i]) by {
        if 0 <= pos < p.len() && p[pos].0 == k {
            if i != pos {
                assert(q[i] == p[i]);
            }
        } else {
            if i < pos {
                assert(q[i] == p[i]);
            } else if i > pos {
                assert(q[i] == p[i - 1]);
            }
        }
    }
}

/// Storing a value keeps the names sorted.
pub proof fn lemma_attr_insert_sorted<V>(p: Seq<(Seq<char>, V)>, k: Seq<char>, v: V)
    requires
        names_sorted(p),
    ensures
        names_sorted(attr_insert(p, k, v)),
{
    lemma_insert_pos(p, k, 0);
    let pos = insert_pos_from(p, k, 0);
    let q = attr_insert(p, k, v);
    if 0 <= pos < p.len() && p[pos].0 == k {
        assert forall|i: int, j: int| 0 <= i < j < q.len() implies text_lt(
            #[trigger] q[i].0,
            #[trigger] q[j].0,
        ) by {
            assert(q[i].0 == p[i].0);
            assert(q[j].0 == p[j].0);
        }
    } else {
        assert forall|i: int, j: int| 0 <= i < j < q.len() implies text_lt(
            #[trigger] q[i].0,
            #[trigger] q[j].0,
        ) by {
            if j < pos {
                assert(q[i] == p[i] && q[j] == p[j]);
            } else if j == pos {
                assert(q[i] == p[i]);
            } else if i == pos {
                assert(q[j] == p[j - 1]);
                lemma_text_lt_total(p[pos].0, k);
                if j - 1 > pos {
                    assert(text_lt(p[pos].0, p[j - 1].0));
                    lemma_text_lt_transitive(k, p[pos].0, p[j - 1].0);
                }
            } else if i < pos {
                assert(q[i] == p[i] && q[j] == p[j - 1]);
                if i < j - 1 {
                } else {
                    assert(false);
                }
            } else {
                assert(q[i] == p[i - 1] && q[j] == p[j - 1]);
            }
        }
    }
}

/// Reading a name right after storing it gives the stored value, and other
/// names keep their values.
pub proof fn lemma_attr_insert_lookup<V>(p: Seq<(Seq<char>, V)>, k: Seq<char>, v: V, other: Seq<char>)
    requires
        names_sorted(p),
    ensures
        attr_lookup(attr_insert(p, k, v), k) == Some(v),
        other != k ==> attr_lookup(attr_insert(p, k, v), other) == attr_lookup(p, other),
{
    lemma_attr_insert_sorted(p, k, v);
    let q = attr_insert(p, k, v);
    lemma_insert_pos(p, k, 0);
    let pos = insert_pos_from(p, k, 0);
    assert(q[pos].0 == k);
    lemma_name_index_sorted(q, k, pos);
    let oi = name_index_from(p, other, 0);
    lemma_name_index_bounds(p, other, 0);
    lemma_name_index_bounds(q, other, 0);
    if other != k {
        if oi >= 0 {
            let qi = if oi < pos || (0 <= pos < p.len() && p[pos].0 == k) {
                oi
            } else {
                oi + 1
            };
            assert(q[qi] == p[oi]);
            lemma_name_index_sorted(q, other, qi);
        } else {
            if name_index_from(q, other, 0) >= 0 {
                let qi = name_index_from(q, other, 0);
                assert(q[qi].0 == other);
                if 0 <= pos < p.len() && p[pos].0 == k {
                    assert(p[qi].0 == other);
                    lemma_name_index_sorted(p, other, qi);
                } else if qi < pos {
                    assert(p[qi].0 == other);
                    lemma_name_index_sorted(p, other, qi);
                } else if qi > pos {
                    assert(p[qi - 1].0 == other);
                    lemma_name_index_sorted(p, other, qi - 1);
                }
            }
        }
    }
}

/// Storing a value adds a pair exactly when the name was not stored.
pub proof fn lemma_attr_insert_len<V>(p: Seq<(Seq<char>, V)>, k: Seq<char>, v: V)
    requires
        names_sorted(p),
    ensures
        attr_insert(p, k, v).len() == p.len() + if attr_lookup(p, k) is None {
            1int
        } else {
            0int
        },
{
    lemma_insert_pos(p, k, 0);
    let pos = insert_pos_from(p, k, 0);
    lemma_name_index_bounds(p, k, 0);
    let f = name_index_from(p, k, 0);
    if 0 <= pos < p.len() && p[pos].0 == k {
        lemma_name_index_sorted(p, k, pos);
    } else if f >= 0 {
        if f < pos {
            assert(text_lt(p[f].0, k));
            lemma_text_lt_irreflexive(k);
        } else if f > pos {
            assert(text_lt(p[pos].0, p[f].0));
        }
    }
}

/// In sorted pairs, each stored name reads back its own value.
pub proof fn lemma_attr_lookup_entry<V>(p: Seq<(Seq<char>, V)>, i: int)
    requires
        names_sorted(p),
        0 <= i < p.len(),
    ensures
        attr_lookup(p, p[i].0) == Some(p[i].1),
{
    lemma_name_index_sorted(p, p[i].0, i);
}

/// Facts about the result range of `name_index_from`.
pub proof fn lemma_name_index_bounds<V>(p: Seq<(Seq<char>, V)>, k: Seq<char>, i: int)
    requires
        0 <= i,
    ensures
        name_index_from(p, k, i) == -1 || (i <= name_index_from(p, k, i) < p.len()
            && p[name_index_from(p, k, i)].0 == k),
        name_index_from(p, k, i) == -1 ==> forall|j: int| i <= j < p.len() ==> #[trigger] p[j].0 != k,
    decreases p.len() - i,
{
    if i < p.len() && p[i].0 != k {
        lemma_name_index_bounds(p, k, i + 1);
    }
}

/// In sorted pairs, the name found at `i` is the one `name_index_from` finds.
pub proof fn lemma_name_index_sorted<V>(p: Seq<(Seq<char>, V)>, k: Seq<char>, i: int)
    requires
        names_sorted(p),
        0 <= i < p.len(),
        p[i].0 == k,
    ensures
        name_index_from(p, k, 0) == i,
{
    lemma_name_index_bounds(p, k, 0);
    let f = name_index_from(p, k, 0);
    if f != i && f >= 0 {
        if f < i {
            assert(text_lt(p[f].0, p[i].0));
        } else {
            assert(text_lt(p[i].0, p[f].0));
        }
        lemma_text_lt_irreflexive(k);
    }
}


/// Element name and attributes.
#[derive(Debug, PartialEq, Eq)]
pub struct ElementData {
    /// Lowercase tag name.
    pub tag_name: String,
    /// Attributes sorted by key for deterministic tests and dumps.
    pub attributes: AttributeMap,
}

/// Node payload.
#[derive(Debug, PartialEq, Eq)]
pub enum NodeKind {
    /// Synthetic document root.
    Document,
    /// HTML element.
    Element(ElementData),
    /// Text content.
    Text(String),
}

/// A DOM node with stable child traversal order.
#[derive(Debug, PartialEq, Eq)]
pub struct Node {
    /// Stable node identifier.
    pub id: NodeId,
    /// Node payload.
    pub kind: NodeKind,
    /// Child nodes in source/tree order.
    pub children: Vec<Node>,
    /// Shadow-root children in tree order. When present, these are the
    /// render-facing children of the scoped Shadow DOM subset.
    pub shadow_children: Vec<Node>,
}

/// Parsed document root.
#[derive(Debug, PartialEq, Eq)]
pub struct Document {
    /// Root document node.
    pub root: Node,
}

/// The payload of a node as plain values.
#[verifier::ext_equal]
pub enum KindModel {
    /// The document root.
    Document,
    /// An element with its tag name and its attribute pairs in key order.
    Element { tag: Seq<char>, attrs: AttrPairs },
    /// A text node.
    Text(Seq<char>),
}

/// A node as plain values.
#[verifier::ext_equal]
pub struct NodeModel {
    /// Node id.
    pub id: u64,
    /// Payload.
    pub kind: KindModel,
    /// Light children.
    pub children: Seq<NodeModel>,
    /// Shadow-root children.
    pub shadow: Seq<NodeModel>,
}

/// The payload of `k` as plain values.
pub open spec fn kind_model(k: NodeKind) -> KindModel {
    match k {
        NodeKind::Document => KindModel::Document,
        NodeKind::Element(e) => KindModel::Element { tag: e.tag_name@, attrs: e.attributes.pairs() },
        NodeKind::Text(t) => KindModel::Text(t@),
    }
}

/// The placeholder model used out of range.
pub open spec fn empty_model() -> NodeModel {
    NodeModel { id: 0, kind: KindModel::Document, children: Seq::empty(), shadow: Seq::empty() }
}

/// `n` as plain values.
pub open spec fn node_model(n: Node) -> NodeModel
    decreases n,
{
    NodeModel {
        id: n.id,
        kind: kind_model(n.kind),
        children: Seq::new(
            n.children@.len(),
            |i: int|
                if 0 <= i < n.children@.len() {
                    node_model(n.children@[i])
                } else {
                    empty_model()
                },
        ),
        shadow: Seq::new(
            n.shadow_children@.len(),
            |i: int|
                if 0 <= i < n.shadow_children@.len() {
                    node_model(n.shadow_children@[i])
                } else {
                    empty_model()
                },
        ),
    }
}

/// Models of a sequence of nodes.
pub open spec fn models(s: Seq<Node>) -> Seq<NodeModel> {
    Seq::new(s.len(), |i: int| node_model(s[i]))
}

impl View for Node {
    type V = NodeModel;

    open spec fn view(&self) -> NodeModel {
        node_model(*self)
    }
}

/// The models of `n`'s light children are the models of its child nodes.
pub proof fn lemma_children_models(n: Node)
    ensures
        node_model(n).children == models(n.children@),
        node_model(n).shadow == models(n.shadow_children@),
        node_model(n).id == n.id,
        node_model(n).kind == kind_model(n.kind),
{
    assert(node_model(n).children =~= models(n.children@));
    assert(node_model(n).shadow =~= models(n.shadow_children@));
}

/// The first node with `id` in pre-order: the node itself, then its light
/// children in order, then its shadow children in order.
pub open spec fn find(n: NodeModel, id: u64) -> Option<NodeModel>
    decreases n, 0int,
{
    if n.id == id {
        Some(n)
    } else if find_from(n.children, id, 0) is Some {
        find_from(n.children, id, 0)
    } else {
        find_from(n.shadow, id, 0)
    }
}

/// The first node with `id` within `s[i..]`.
pub open spec fn find_from(s: Seq<NodeModel>, id: u64, i: int) -> Option<NodeModel>
    decreases s, s.len() - i,
{
    if i < 0 || i >= s.len() {
        None
    } else if find(s[i], id) is Some {
        find(s[i], id)
    } else {
        find_from(s, id, i + 1)
    }
}

/// Index of the first subtree of `s[i..]` holding `id`, or `-1`.
pub open spec fn hit_from(s: Seq<NodeModel>, id: u64, i: int) -> int
    decreases s.len() - i,
{
    if i < 0 || i >= s.len() {
        -1
    } else if find(s[i], id) is Some {
        i
    } else {
        hit_from(s, id, i + 1)
    }
}

/// `n` with the first node holding `id` replaced by `m`.
pub open spec fn replace(n: NodeModel, id: u64, m: NodeModel) -> NodeModel
    decreases n, 0int,
{
    if n.id == id {
        m
    } else if find_from(n.children, id, 0) is Some {
        NodeModel { children: replace_from(n.children, id, m, 0), ..n }
    } else if find_from(n.shadow, id, 0) is Some {
        NodeModel { shadow: replace_from(n.shadow, id, m, 0), ..n }
    } else {
        n
    }
}

/// `s` with the first node holding `id` within `s[i..]` replaced by `m`.
pub open spec fn replace_from(s: Seq<NodeModel>, id: u64, m: NodeModel, i: int) -> Seq<
    NodeModel,
>
    decreases s, s.len() - i,
{
    if i < 0 || i >= s.len() {
        s
    } else if find(s[i], id) is Some {
        s.update(i, replace(s[i], id, m))
    } else {
        replace_from(s, id, m, i + 1)
    }
}

/// `hit_from` finds the subtree that `find_from` and `replace_from` use.
pub broadcast proof fn lemma_hit_from(s: Seq<NodeModel>, id: u64, i: int, m: NodeModel)
    requires
        0 <= i,
    ensures
        #![trigger replace_from(s, id, m, i)]
        hit_from(s, id, i) == -1 ==> find_from(s, id, i) is None && replace_from(s, id, m, i) == s,
        hit_from(s, id, i) != -1 ==> {
            let k = hit_from(s, id, i);
            &&& i <= k < s.len()
            &&& find(s[k], id) is Some
            &&& find_from(s, id, i) == find(s[k], id)
            &&& replace_from(s, id, m, i) == s.update(k, replace(s[k], id, m))
        },
    decreases s.len() - i,
{
    if i < s.len() && find(s[i], id) is None {
        lemma_hit_from(s, id, i + 1, m);
    }
}

/// Finds the first node holding `id` (pre-order).
pub fn find_node(node: &Node, id: NodeId) -> (r: Option<&Node>)
    ensures
        r matches Some(f) ==> find(node@, id) == Some(f@),
        r is None ==> find(node@, id) is None,
    decreases node,
{
    proof {
        lemma_children_models(*node);
    }
    if node.id == id {
        return Some(node);
    }
    match find_node_in(&node.children, id) {
        Some(f) => Some(f),
        None => find_node_in(&node.shadow_children, id),
    }
}

/// Finds the first node holding `id` among the subtrees of `nodes`.
fn find_node_in(nodes: &Vec<Node>, id: NodeId) -> (r: Option<&Node>)
    ensures
        r matches Some(f) ==> find_from(models(nodes@), id, 0) == Some(f@),
        r is None ==> find_from(models(nodes@), id, 0) is None,
    decreases nodes@,
{
    let ghost s = models(nodes@);
    let mut i: usize = 0;
    while i < nodes.len()
        invariant
            i <= nodes@.len(),
            s == models(nodes@),
            find_from(s, id, i as int) == find_from(s, id, 0),
        decreases nodes@.len() - i,
    {
        assert(decreases_to!(nodes@ => nodes@[i as int]));
        let r = find_node(&nodes[i], id);
        if r.is_some() {
            return r;
        }
        i += 1;
    }
    None
}


impl Clone for ElementData {
    fn clone(&self) -> (r: Self)
        ensures
            r.tag_name@ == self.tag_name@,
            r.attributes.pairs() == self.attributes.pairs(),
    {
        ElementData { tag_name: self.tag_name.clone(), attributes: self.attributes.clone() }
    }
}

impl Clone for NodeKind {
    fn clone(&self) -> (r: Self)
        ensures
            kind_model(r) == kind_model(*self),
    {
        match self {
            NodeKind::Document => NodeKind::Document,
            NodeKind::Element(e) => NodeKind::Element(e.clone()),
            NodeKind::Text(t) => NodeKind::Text(t.clone()),
        }
    }
}

/// A copy of `node` and all its descendants.
pub fn deep_clone(node: &Node) -> (r: Node)
    ensures
        r@ == node@,
    decreases node,
{
    let children = clone_nodes(&node.children);
    let shadow = clone_nodes(&node.shadow_children);
    let r = Node { id: node.id, kind: node.kind.clone(), children, shadow_children: shadow };
    proof {
        lemma_children_models(r);
        lemma_children_models(*node);
        assert(r@.children =~= node@.children);
        assert(r@.shadow =~= node@.shadow);
    }
    r
}

/// Copies of `nodes`.
fn clone_nodes(nodes: &Vec<Node>) -> (r: Vec<Node>)
    ensures
        models(r@) == models(nodes@),
    decreases nodes@,
{
    let mut out: Vec<Node> = Vec::new();
    let mut i: usize = 0;
    while i < nodes.len()
        invariant
            i <= nodes@.len(),
            models(out@) =~= models(nodes@).take(i as int),
        decreases nodes@.len() - i,
    {
        assert(decreases_to!(nodes@ => nodes@[i as int]));
        let c = deep_clone(&nodes[i]);
        let ghost prev = out@;
        out.push(c);
        proof {
            assert(models(out@) =~= models(prev).push(node_model(c)));
            assert(models(nodes@).take(i + 1) =~= models(nodes@).take(i as int).push(
                node_model(nodes@[i as int]),
            ));
        }
        i += 1;
    }
    out
}

impl Clone for Node {
    fn clone(&self) -> (r: Self)
        ensures
            r@ == self@,
    {
        deep_clone(self)
    }
}

impl Clone for Document {
    fn clone(&self) -> (r: Self)
        ensures
            r.root@ == self.root@,
    {
        Document { root: deep_clone(&self.root) }
    }
}


/// Index of the first subtree of `nodes` holding `id`.
fn hit_index(nodes: &Vec<Node>, id: NodeId) -> (r: Option<usize>)
    ensures
        r matches Some(k) ==> k == hit_from(models(nodes@), id, 0),
        r is None ==> hit_from(models(nodes@), id, 0) == -1,
{
    let ghost s = models(nodes@);
    let mut i: usize = 0;
    while i < nodes.len()
        invariant
            i <= nodes@.len(),
            s == models(nodes@),
            hit_from(s, id, i as int) == hit_from(s, id, 0),
        decreases nodes@.len() - i,
    {
        if find_node(&nodes[i], id).is_some() {
            return Some(i);
        }
        i += 1;
    }
    None
}

/// Replacing the found node by itself changes nothing.
pub proof fn lemma_replace_same(n: NodeModel, id: u64)
    requires
        find(n, id) is Some,
    ensures
        replace(n, id, find(n, id).unwrap()) == n,
    decreases n, 0int,
{
    let m = find(n, id).unwrap();
    if n.id != id {
        if find_from(n.children, id, 0) is Some {
            lemma_hit_from(n.children, id, 0, m);
            let k = hit_from(n.children, id, 0);
            lemma_replace_same(n.children[k], id);
            assert(n.children.update(k, n.children[k]) =~= n.children);
        } else {
            lemma_hit_from(n.children, id, 0, m);
            lemma_hit_from(n.shadow, id, 0, m);
            let k = hit_from(n.shadow, id, 0);
            lemma_replace_same(n.shadow[k], id);
            assert(n.shadow.update(k, n.shadow[k]) =~= n.shadow);
        }
    }
}

/// After replacing the first node holding `id` by `m` (which keeps `id`),
/// looking `id` up finds `m`.
pub proof fn lemma_find_replace(n: NodeModel, id: u64, m: NodeModel)
    requires
        find(n, id) is Some,
        m.id == id,
    ensures
        find(replace(n, id, m), id) == Some(m),
    decreases n, 0int,
{
    if n.id != id {
        lemma_hit_from(n.children, id, 0, m);
        if find_from(n.children, id, 0) is Some {
            let k = hit_from(n.children, id, 0);
            lemma_find_replace(n.children[k], id, m);
            let s2 = n.children.update(k, replace(n.children[k], id, m));
            lemma_hit_prefix(n.children, s2, id, k);
            lemma_hit_from(s2, id, 0, m);
        } else {
            lemma_hit_from(n.shadow, id, 0, m);
            let k = hit_from(n.shadow, id, 0);
            lemma_find_replace(n.shadow[k], id, m);
            let s2 = n.shadow.update(k, replace(n.shadow[k], id, m));
            lemma_hit_prefix(n.shadow, s2, id, k);
            lemma_hit_from(s2, id, 0, m);
            lemma_hit_from(n.children, id, 0, m);
        }
    }
}

/// Two sequences agreeing before `k`, where `s` has its first hit at `k`
/// and `t[k]` is a hit, have the same first hit.
proof fn lemma_hit_prefix(s: Seq<NodeModel>, t: Seq<NodeModel>, id: u64, k: int)
    requires
        hit_from(s, id, 0) == k,
        0 <= k < s.len(),
        s.len() == t.len(),
        forall|j: int| 0 <= j < k ==> s[j] == t[j],
        find(t[k], id) is Some,
    ensures
        hit_from(t, id, 0) == k,
{
    lemma_hit_prefix_from(s, t, id, k, 0);
}

proof fn lemma_hit_prefix_from(s: Seq<NodeModel>, t: Seq<NodeModel>, id: u64, k: int, i: int)
    requires
        hit_from(s, id, i) == k,
        0 <= i <= k < s.len(),
        s.len() == t.len(),
        forall|j: int| 0 <= j < k ==> s[j] == t[j],
        find(t[k], id) is Some,
    ensures
        hit_from(t, id, i) == k,
    decreases k - i,
{
    if i < k {
        assert(s[i] == t[i]);
        lemma_hit_prefix_from(s, t, id, k, i + 1);
    }
}

/// The model of a node is built from its fields.
pub broadcast proof fn lemma_model_shape(n: Node)
    ensures
        #[trigger] node_model(n) == (NodeModel {
            id: n.id,
            kind: kind_model(n.kind),
            children: models(n.children@),
            shadow: models(n.shadow_children@),
        }),
{
    lemma_children_models(n);
}

/// Models of an updated sequence of nodes.
pub broadcast proof fn lemma_models_update(s: Seq<Node>, k: int, c: Node)
    requires
        0 <= k < s.len(),
    ensures
        #[trigger] models(s.update(k, c)) == models(s).update(k, node_model(c)),
{
    assert(models(s.update(k, c)) =~= models(s).update(k, node_model(c)));
}

/// Replacing inside the subtree at light-child index `k` (the first one
/// holding `id`) replaces inside the node.
proof fn lemma_replace_in_child(old: Node, id: u64, k: int)
    requires
        old.id != id,
        0 <= k,
        k == hit_from(models(old.children@), id, 0),
    ensures
        forall|newn: Node, mm: NodeModel|
            #![trigger node_model(newn), replace(node_model(old), id, mm)]
            newn.id == old.id && newn.kind == old.kind && newn.shadow_children
                == old.shadow_children && newn.children@.len() == old.children@.len() && (forall|
                j: int,
            |
                0 <= j < old.children@.len() && j != k ==> newn.children@[j] == old.children@[j])
                && node_model(newn.children@[k]) =~= replace(node_model(old.children@[k]), id, mm)
                ==> node_model(newn) =~= replace(node_model(old), id, mm),
{
    assert forall|newn: Node, mm: NodeModel|
        #![trigger node_model(newn), replace(node_model(old), id, mm)]
        newn.id == old.id && newn.kind == old.kind && newn.shadow_children == old.shadow_children
            && newn.children@.len() == old.children@.len() && (forall|j: int|
            0 <= j < old.children@.len() && j != k ==> newn.children@[j] == old.children@[j])
            && node_model(newn.children@[k]) =~= replace(node_model(old.children@[k]), id, mm)
            implies node_model(newn) =~= replace(node_model(old), id, mm) by {
        lemma_children_models(newn);
        lemma_children_models(old);
        lemma_hit_from(models(old.children@), id, 0, mm);
        assert(models(newn.children@) =~= models(old.children@).update(
            k,
            replace(node_model(old.children@[k]), id, mm),
        ));
    }
}

/// Replacing inside the subtree at shadow-child index `k` (the first one
/// holding `id`, with no light child holding it) replaces inside the node.
proof fn lemma_replace_in_shadow(old: Node, id: u64, k: int)
    requires
        old.id != id,
        hit_from(models(old.children@), id, 0) == -1,
        0 <= k,
        k == hit_from(models(old.shadow_children@), id, 0),
    ensures
        forall|newn: Node, mm: NodeModel|
            #![trigger node_model(newn), replace(node_model(old), id, mm)]
            newn.id == old.id && newn.kind == old.kind && newn.children == old.children
                && newn.shadow_children@.len() == old.shadow_children@.len() && (forall|j: int|
                0 <= j < old.shadow_children@.len() && j != k ==> newn.shadow_children@[j]
                    == old.shadow_children@[j]) && node_model(newn.shadow_children@[k])
                =~= replace(node_model(old.shadow_children@[k]), id, mm) ==> node_model(newn)
                =~= replace(node_model(old), id, mm),
{
    assert forall|newn: Node, mm: NodeModel|
        #![trigger node_model(newn), replace(node_model(old), id, mm)]
        newn.id == old.id && newn.kind == old.kind && newn.children == old.children
            && newn.shadow_children@.len() == old.shadow_children@.len() && (forall|j: int|
            0 <= j < old.shadow_children@.len() && j != k ==> newn.shadow_children@[j]
                == old.shadow_children@[j]) && node_model(newn.shadow_children@[k])
            =~= replace(node_model(old.shadow_children@[k]), id, mm) implies node_model(newn)
        =~= replace(node_model(old), id, mm) by {
        lemma_children_models(newn);
        lemma_children_models(old);
        lemma_hit_from(models(old.children@), id, 0, mm);
        lemma_hit_from(models(old.shadow_children@), id, 0, mm);
        assert(models(newn.shadow_children@) =~= models(old.shadow_children@).update(
            k,
            replace(node_model(old.shadow_children@[k]), id, mm),
        ));
        assert(models(newn.children@) =~= models(old.children@));
    }
}

/// Models of a sequence of nodes with one more at the end.
pub broadcast proof fn lemma_models_push(s: Seq<Node>, c: Node)
    ensures
        #[trigger] models(s.push(c)) == models(s).push(node_model(c)),
{
    assert(models(s.push(c)) =~= models(s).push(node_model(c)));
}

/// Models of a sequence of nodes without its last one.
pub broadcast proof fn lemma_models_drop_last(s: Seq<Node>)
    requires
        s.len() > 0,
    ensures
        #[trigger] models(s.drop_last()) == models(s).drop_last(),
{
    assert(models(s.drop_last()) =~= models(s).drop_last());
}

/// Finds the first node holding `id` for mutation.
pub fn find_node_mut(node: &mut Node, id: NodeId) -> (r: Option<&mut Node>)
    ensures
        r matches Some(m) ==> find(old(node)@, id) == Some((*m)@),
        r matches Some(m) ==> (*final(node))@ =~= replace(old(node)@, id, (*final(m))@),
        r is None ==> find(old(node)@, id) is None,
        r is None ==> (*final(node))@ == (*old(node))@,
    decreases *old(node),
{
    broadcast use lemma_hit_from, lemma_model_shape, lemma_models_update;

    if node.id == id {
        return Some(node);
    }
    let ghost m0 = node@;
    let ghost dummy = empty_model();
    proof {
        lemma_hit_from(m0.children, id, 0, dummy);
        lemma_hit_from(m0.shadow, id, 0, dummy);
    }
    if let Some(k) = hit_index(&node.children, id) {
        proof {
            lemma_replace_in_child(*node, id, k as int);
        }
        assert(decreases_to!(*old(node) => old(node).children));
        assert(decreases_to!(old(node).children => old(node).children@));
        assert(decreases_to!(old(node).children@ => old(node).children@[k as int]));
        let child = &mut node.children[k];
        let r = find_node_mut(child, id);
        return r;
    }
    if let Some(k) = hit_index(&node.shadow_children, id) {
        proof {
            lemma_replace_in_shadow(*node, id, k as int);
        }
        assert(decreases_to!(*old(node) => old(node).shadow_children));
        assert(decreases_to!(old(node).shadow_children => old(node).shadow_children@));
        assert(decreases_to!(old(node).shadow_children@ => old(node).shadow_children@[k as int]));
        let child = &mut node.shadow_children[k];
        let r = find_node_mut(child, id);
        return r;
    }
    None
}


/// The larger of two ids.
pub open spec fn max2(a: u64, b: u64) -> u64 {
    if a >= b {
        a
    } else {
        b
    }
}

/// The largest id in the tree.
pub open spec fn max_id(n: NodeModel) -> u64
    decreases n, 0int,
{
    max2(n.id, max2(max_from(n.children, 0), max_from(n.shadow, 0)))
}

/// The largest id in the trees of `s[i..]`, or `0` when there are none.
pub open spec fn max_from(s: Seq<NodeModel>, i: int) -> u64
    decreases s, s.len() - i,
{
    if i < 0 || i >= s.len() {
        0
    } else {
        max2(max_id(s[i]), max_from(s, i + 1))
    }
}

/// Computes the largest id in the tree.
pub fn max_node_id(node: &Node) -> (r: NodeId)
    ensures
        r == max_id(node@),
    decreases node,
{
    proof {
        lemma_children_models(*node);
    }
    let a = max_node_id_in(&node.children);
    let b = max_node_id_in(&node.shadow_children);
    let m = if a >= b {
        a
    } else {
        b
    };
    if node.id >= m {
        node.id
    } else {
        m
    }
}

/// The largest id in the trees of `nodes`.
fn max_node_id_in(nodes: &Vec<Node>) -> (r: NodeId)
    ensures
        r == max_from(models(nodes@), 0),
    decreases nodes@,
{
    let ghost s = models(nodes@);
    let mut acc: u64 = 0;
    let mut i: usize = 0;
    while i < nodes.len()
        invariant
            i <= nodes@.len(),
            s == models(nodes@),
            max2(acc, max_from(s, i as int)) == max_from(s, 0),
        decreases nodes@.len() - i,
    {
        assert(decreases_to!(nodes@ => nodes@[i as int]));
        let m = max_node_id(&nodes[i]);
        if m > acc {
            acc = m;
        }
        i += 1;
    }
    acc
}

/// `x + 1`, saturating at the largest id.
pub open spec fn sat_inc(x: u64) -> u64 {
    if x == u64::MAX {
        x
    } else {
        (x + 1) as u64
    }
}

/// The tree with ids assigned in pre-order starting at `next`, and the next
/// unused id.
pub open spec fn assign(n: NodeModel, next: u64) -> (NodeModel, u64)
    decreases n, 0int,
{
    let (cs, n1) = assign_from(n.children, 0, sat_inc(next));
    let (ss, n2) = assign_from(n.shadow, 0, n1);
    (NodeModel { id: next, kind: n.kind, children: cs, shadow: ss }, n2)
}

/// The trees `s[i..]` with ids assigned in order starting at `next`.
pub open spec fn assign_from(s: Seq<NodeModel>, i: int, next: u64) -> (Seq<NodeModel>, u64)
    decreases s, s.len() - i,
{
    if i < 0 || i >= s.len() {
        (Seq::empty(), next)
    } else {
        let (c, n1) = assign(s[i], next);
        let (rest, n2) = assign_from(s, i + 1, n1);
        (seq![c] + rest, n2)
    }
}

/// Assigns ids in pre-order, starting at `*next_id`.
pub fn assign_ids_from(node: &mut Node, next_id: &mut NodeId)
    ensures
        (*final(node))@ =~= assign(old(node)@, *old(next_id)).0,
        *final(next_id) == assign(old(node)@, *old(next_id)).1,
    decreases *old(node),
{
    proof {
        lemma_children_models(*node);
    }
    let ghost m0 = node@;
    node.id = *next_id;
    *next_id = if *next_id == u64::MAX {
        *next_id
    } else {
        *next_id + 1
    };
    assert(decreases_to!(*old(node) => old(node).children));
    assert(decreases_to!(old(node).children => old(node).children@));
    assign_ids_in(&mut node.children, next_id);
    assert(decreases_to!(*old(node) => old(node).shadow_children));
    assert(decreases_to!(old(node).shadow_children => old(node).shadow_children@));
    assign_ids_in(&mut node.shadow_children, next_id);
    proof {
        lemma_children_models(*node);
    }
}

/// Assigns ids to the trees of `nodes` in order.
fn assign_ids_in(nodes: &mut Vec<Node>, next_id: &mut NodeId)
    ensures
        models(final(nodes)@) =~= assign_from(models(old(nodes)@), 0, *old(next_id)).0,
        *final(next_id) == assign_from(models(old(nodes)@), 0, *old(next_id)).1,
    decreases old(nodes)@,
{
    let ghost orig = old(nodes)@;
    let ghost s = models(orig);
    let ghost start = *next_id;
    let mut i: usize = 0;
    while i < nodes.len()
        invariant
            i <= nodes@.len() == orig.len(),
            orig == old(nodes)@,
            s == models(orig),
            forall|j: int| i <= j < orig.len() ==> nodes@[j] == orig[j],
            assign_from(s, 0, start).0 =~= models(nodes@).take(i as int) + assign_from(
                s,
                i as int,
                *next_id,
            ).0,
            assign_from(s, 0, start).1 == assign_from(s, i as int, *next_id).1,
        decreases nodes@.len() - i,
    {
        assert(decreases_to!(orig => orig[i as int]));
        assert(nodes@[i as int] == orig[i as int]);
        assert(decreases_to!(old(nodes)@ => nodes@[i as int]));
        let ghost before = *next_id;
        let ghost prev = nodes@;
        assign_ids_from(&mut nodes[i], next_id);
        proof {
            assert(models(nodes@).take(i + 1) =~= models(prev).take(i as int).push(
                assign(s[i as int], before).0,
            ));
        }
        i += 1;
    }
    proof {
        assert(models(nodes@).take(i as int) =~= models(nodes@));
    }
}


/// Index of the first node of `s[i..]` whose own id is `id`, or `-1`.
pub open spec fn direct_from(s: Seq<NodeModel>, id: u64, i: int) -> int
    decreases s.len() - i,
{
    if i < 0 || i >= s.len() {
        -1
    } else if s[i].id == id {
        i
    } else {
        direct_from(s, id, i + 1)
    }
}

/// Removal of a node with `id` strictly below `n`: a light child with that
/// id is removed first, then the first light subtree that can remove it,
/// then a shadow child, then the first shadow subtree. The result is the
/// new tree and the removed node.
pub open spec fn remove(n: NodeModel, id: u64) -> Option<(NodeModel, NodeModel)>
    decreases n, 0int,
{
    let d = direct_from(n.children, id, 0);
    if d >= 0 {
        Some((NodeModel { children: n.children.remove(d), ..n }, n.children[d]))
    } else if remove_from(n.children, id, 0) is Some {
        let (cs, r) = remove_from(n.children, id, 0).unwrap();
        Some((NodeModel { children: cs, ..n }, r))
    } else {
        let d2 = direct_from(n.shadow, id, 0);
        if d2 >= 0 {
            Some((NodeModel { shadow: n.shadow.remove(d2), ..n }, n.shadow[d2]))
        } else if remove_from(n.shadow, id, 0) is Some {
            let (ss, r) = remove_from(n.shadow, id, 0).unwrap();
            Some((NodeModel { shadow: ss, ..n }, r))
        } else {
            None
        }
    }
}

/// Removal within the first subtree of `s[i..]` that can remove `id`.
pub open spec fn remove_from(s: Seq<NodeModel>, id: u64, i: int) -> Option<
    (Seq<NodeModel>, NodeModel),
>
    decreases s, s.len() - i,
{
    if i < 0 || i >= s.len() {
        None
    } else if remove(s[i], id) is Some {
        let (c, r) = remove(s[i], id).unwrap();
        Some((s.update(i, c), r))
    } else {
        remove_from(s, id, i + 1)
    }
}

/// Index of the first subtree of `s[i..]` that can remove `id`, or `-1`.
pub open spec fn removable_from(s: Seq<NodeModel>, id: u64, i: int) -> int
    decreases s.len() - i,
{
    if i < 0 || i >= s.len() {
        -1
    } else if remove(s[i], id) is Some {
        i
    } else {
        removable_from(s, id, i + 1)
    }
}

proof fn lemma_removable_from(s: Seq<NodeModel>, id: u64, i: int)
    requires
        0 <= i,
    ensures
        removable_from(s, id, i) == -1 ==> remove_from(s, id, i) is None,
        removable_from(s, id, i) != -1 ==> {
            let k = removable_from(s, id, i);
            &&& i <= k < s.len()
            &&& remove(s[k], id) is Some
            &&& remove_from(s, id, i) == Some(
                (s.update(k, remove(s[k], id).unwrap().0), remove(s[k], id).unwrap().1),
            )
        },
    decreases s.len() - i,
{
    if i < s.len() && remove(s[i], id) is None {
        lemma_removable_from(s, id, i + 1);
    }
}

/// Index of the first node of `nodes` whose own id is `id`.
fn direct_index(nodes: &Vec<Node>, id: NodeId) -> (r: Option<usize>)
    ensures
        r matches Some(k) ==> k == direct_from(models(nodes@), id, 0) && k < nodes@.len(),
        r is None ==> direct_from(models(nodes@), id, 0) == -1,
{
    let ghost s = models(nodes@);
    let mut i: usize = 0;
    while i < nodes.len()
        invariant
            i <= nodes@.len(),
            s == models(nodes@),
            direct_from(s, id, i as int) == direct_from(s, id, 0),
        decreases nodes@.len() - i,
    {
        proof {
            lemma_children_models(nodes@[i as int]);
        }
        if nodes[i].id == id {
            return Some(i);
        }
        i += 1;
    }
    None
}

/// Whether a node with `id` lies strictly below `node`.
fn can_remove(node: &Node, id: NodeId) -> (b: bool)
    ensures
        b == remove(node@, id) is Some,
    decreases node,
{
    proof {
        lemma_children_models(*node);
        lemma_removable_from(node@.children, id, 0);
        lemma_removable_from(node@.shadow, id, 0);
    }
    if direct_index(&node.children, id).is_some() {
        return true;
    }
    if removable_index(&node.children, id).is_some() {
        return true;
    }
    if direct_index(&node.shadow_children, id).is_some() {
        return true;
    }
    removable_index(&node.shadow_children, id).is_some()
}

/// Index of the first subtree of `nodes` that can remove `id`.
fn removable_index(nodes: &Vec<Node>, id: NodeId) -> (r: Option<usize>)
    ensures
        r matches Some(k) ==> k == removable_from(models(nodes@), id, 0) && k < nodes@.len(),
        r is None ==> removable_from(models(nodes@), id, 0) == -1,
    decreases nodes@,
{
    let ghost s = models(nodes@);
    let mut i: usize = 0;
    while i < nodes.len()
        invariant
            i <= nodes@.len(),
            s == models(nodes@),
            removable_from(s, id, i as int) == removable_from(s, id, 0),
        decreases nodes@.len() - i,
    {
        assert(decreases_to!(nodes@ => nodes@[i as int]));
        if can_remove(&nodes[i], id) {
            return Some(i);
        }
        i += 1;
    }
    None
}

/// Removes the node with `id` from below `parent` and returns it.
pub fn remove_node(parent: &mut Node, id: NodeId) -> (r: Option<Node>)
    ensures
        r matches Some(x) ==> remove(old(parent)@, id) is Some && (*final(parent))@
            =~= remove(old(parent)@, id).unwrap().0 && x@ =~= remove(old(parent)@, id).unwrap().1,
        r is None ==> remove(old(parent)@, id) is None && (*final(parent))@ == (*old(parent))@,
    decreases *old(parent),
{
    proof {
        lemma_children_models(*parent);
        lemma_removable_from(parent@.children, id, 0);
        lemma_removable_from(parent@.shadow, id, 0);
    }
    let ghost m0 = parent@;
    if let Some(index) = direct_index(&parent.children, id) {
        let ghost prev = parent.children@;
        let x = parent.children.remove(index);
        proof {
            lemma_children_models(*parent);
            assert(models(parent.children@) =~= models(prev).remove(index as int));
        }
        return Some(x);
    }
    if let Some(k) = removable_index(&parent.children, id) {
        assert(decreases_to!(*old(parent) => old(parent).children));
        assert(decreases_to!(old(parent).children => old(parent).children@));
        assert(decreases_to!(old(parent).children@ => old(parent).children@[k as int]));
        let ghost prev = parent.children@;
        let r = remove_node(&mut parent.children[k], id);
        proof {
            lemma_children_models(*parent);
            assert(models(parent.children@) =~= models(prev).update(
                k as int,
                remove(models(prev)[k as int], id).unwrap().0,
            ));
        }
        return r;
    }
    if let Some(index) = direct_index(&parent.shadow_children, id) {
        let ghost prev = parent.shadow_children@;
        let x = parent.shadow_children.remove(index);
        proof {
            lemma_children_models(*parent);
            assert(models(parent.shadow_children@) =~= models(prev).remove(index as int));
        }
        return Some(x);
    }
    if let Some(k) = removable_index(&parent.shadow_children, id) {
        assert(decreases_to!(*old(parent) => old(parent).shadow_children));
        assert(decreases_to!(old(parent).shadow_children => old(parent).shadow_children@));
        assert(decreases_to!(old(parent).shadow_children@ => old(parent).shadow_children@[k as int]));
        let ghost prev = parent.shadow_children@;
        let r = remove_node(&mut parent.shadow_children[k], id);
        proof {
            lemma_children_models(*parent);
            assert(models(parent.shadow_children@) =~= models(prev).update(
                k as int,
                remove(models(prev)[k as int], id).unwrap().0,
            ));
        }
        return r;
    }
    None
}


/// A text node model.
pub open spec fn text_model(id: u64, t: Seq<char>) -> NodeModel {
    NodeModel { id, kind: KindModel::Text(t), children: Seq::empty(), shadow: Seq::empty() }
}

/// `m` with `v` stored under attribute `k` (elements only).
pub open spec fn with_attr(m: NodeModel, k: Seq<char>, v: Seq<char>) -> NodeModel {
    match m.kind {
        KindModel::Element { tag, attrs } => NodeModel {
            kind: KindModel::Element { tag, attrs: attr_insert(attrs, k, v) },
            ..m
        },
        _ => m,
    }
}

/// `m` with its text replaced by `t`: a text node changes its text, any
/// other node gets a single text child with id `next`.
pub open spec fn with_text(m: NodeModel, t: Seq<char>, next: u64) -> NodeModel {
    match m.kind {
        KindModel::Text(_) => NodeModel { kind: KindModel::Text(t), ..m },
        _ => NodeModel { children: seq![text_model(next, t)], ..m },
    }
}

/// `m` with `c` appended to its light children.
pub open spec fn with_child(m: NodeModel, c: NodeModel) -> NodeModel {
    NodeModel { children: m.children.push(c), ..m }
}

/// `m` with an empty shadow root.
pub open spec fn with_empty_shadow(m: NodeModel) -> NodeModel {
    NodeModel { shadow: Seq::empty(), ..m }
}

/// `m` with `c` appended to its shadow children.
pub open spec fn with_shadow_child(m: NodeModel, c: NodeModel) -> NodeModel {
    NodeModel { shadow: m.shadow.push(c), ..m }
}

/// Whether a node can hold children (it is not a text node).
pub open spec fn hosts_children(m: NodeModel) -> bool {
    !(m.kind is Text)
}

impl Node {
    /// Creates a document node.
    pub fn document() -> (r: Self)
        ensures
            r@ =~= (NodeModel {
                id: 0,
                kind: KindModel::Document,
                children: Seq::empty(),
                shadow: Seq::empty(),
            }),
    {
        let r = Node {
            id: 0,
            kind: NodeKind::Document,
            children: Vec::new(),
            shadow_children: Vec::new(),
        };
        proof {
            lemma_children_models(r);
            assert(models(r.children@) =~= Seq::<NodeModel>::empty());
            assert(models(r.shadow_children@) =~= Seq::<NodeModel>::empty());
        }
        r
    }

    /// Creates an element node and normalizes the tag name to lowercase ASCII.
    pub fn element(tag_name: &str, attributes: AttributeMap) -> (r: Self)
        ensures
            r@ =~= (NodeModel {
                id: 0,
                kind: KindModel::Element { tag: lower(tag_name@), attrs: attributes.pairs() },
                children: Seq::empty(),
                shadow: Seq::empty(),
            }),
    {
        let r = Node {
            id: 0,
            kind: NodeKind::Element(
                ElementData { tag_name: lower_string(tag_name), attributes },
            ),
            children: Vec::new(),
            shadow_children: Vec::new(),
        };
        proof {
            lemma_children_models(r);
            assert(models(r.children@) =~= Seq::<NodeModel>::empty());
            assert(models(r.shadow_children@) =~= Seq::<NodeModel>::empty());
        }
        r
    }

    /// Creates a text node.
    pub fn text(text: &str) -> (r: Self)
        ensures
            r@ =~= text_model(0, text@),
    {
        let r = Node {
            id: 0,
            kind: NodeKind::Text(string_from(text)),
            children: Vec::new(),
            shadow_children: Vec::new(),
        };
        proof {
            lemma_children_models(r);
            assert(models(r.children@) =~= Seq::<NodeModel>::empty());
            assert(models(r.shadow_children@) =~= Seq::<NodeModel>::empty());
        }
        r
    }

    /// Children used by style and layout for the composed tree: shadow
    /// children replace light children when a shadow root has content.
    pub fn render_children(&self) -> (r: &[Node])
        ensures
            r@ == if self.shadow_children@.len() == 0 {
                self.children@
            } else {
                self.shadow_children@
            },
    {
        if self.shadow_children.len() == 0 {
            self.children.as_slice()
        } else {
            self.shadow_children.as_slice()
        }
    }

    /// All structural children, light then shadow, for metadata collection
    /// and mutation lookup.
    pub fn tree_children(&self) -> (r: Vec<&Node>)
        ensures
            r@.len() == self.children@.len() + self.shadow_children@.len(),
            forall|i: int| 0 <= i < r@.len() ==> *r@[i] == (self.children@ + self.shadow_children@)[i],
    {
        let mut out: Vec<&Node> = Vec::new();
        let mut i: usize = 0;
        while i < self.children.len()
            invariant
                i <= self.children@.len(),
                out@.len() == i,
                forall|j: int| 0 <= j < i ==> *out@[j] == self.children@[j],
            decreases self.children@.len() - i,
        {
            out.push(&self.children[i]);
            i += 1;
        }
        let mut k: usize = 0;
        while k < self.shadow_children.len()
            invariant
                k <= self.shadow_children@.len(),
                out@.len() == self.children@.len() + k,
                forall|j: int| 0 <= j < self.children@.len() ==> *out@[j] == self.children@[j],
                forall|j: int|
                    0 <= j < k ==> *out@[self.children@.len() + j] == self.shadow_children@[j],
            decreases self.shadow_children@.len() - k,
        {
            out.push(&self.shadow_children[k]);
            k += 1;
        }
        out
    }
}

impl Document {
    /// Creates an empty document.
    pub fn empty() -> (d: Self)
        ensures
            d.root@ =~= (NodeModel {
                id: 0,
                kind: KindModel::Document,
                children: Seq::empty(),
                shadow: Seq::empty(),
            }),
    {
        Document { root: Node::document() }
    }

    /// Assigns stable node ids in document-order traversal. The document
    /// root is always `0`; descendants start at `1`.
    pub fn assign_stable_ids(&mut self)
        ensures
            final(self).root@ =~= assign(old(self).root@, 0).0,
    {
        let mut next_id: u64 = 0;
        assign_ids_from(&mut self.root, &mut next_id);
    }

    /// Returns the next unused node id for appending new nodes.
    pub fn next_node_id(&self) -> (r: NodeId)
        ensures
            r == sat_inc(max_id(self.root@)),
    {
        let m = max_node_id(&self.root);
        if m == u64::MAX {
            m
        } else {
            m + 1
        }
    }

    /// Finds a node by id.
    pub fn find_node(&self, id: NodeId) -> (r: Option<&Node>)
        ensures
            r matches Some(f) ==> find(self.root@, id) == Some(f@),
            r is None ==> find(self.root@, id) is None,
    {
        find_node(&self.root, id)
    }

    /// Finds a node by id for mutation.
    pub fn find_node_mut(&mut self, id: NodeId) -> (r: Option<&mut Node>)
        ensures
            r matches Some(m) ==> find(old(self).root@, id) == Some((*m)@),
            r matches Some(m) ==> final(self).root@ =~= replace(
                old(self).root@,
                id,
                (*final(m))@,
            ),
            r is None ==> find(old(self).root@, id) is None,
            r is None ==> final(self).root@ == old(self).root@,
    {
        find_node_mut(&mut self.root, id)
    }

    /// Sets an element attribute (its name lowercased). Returns false if
    /// the id is missing or not an element.
    pub fn set_attribute(&mut self, id: NodeId, name: &str, value: &str) -> (r: bool)
        ensures
            r == (find(old(self).root@, id) matches Some(m) && m.kind is Element),
            r ==> final(self).root@ =~= replace(
                old(self).root@,
                id,
                with_attr(find(old(self).root@, id).unwrap(), lower(name@), value@),
            ),
            !r ==> final(self).root@ =~= old(self).root@,
    {
        broadcast use lemma_model_shape;

        let key = lower_string(name);
        let val = string_from(value);
        proof {
            if find(self.root@, id) is Some {
                lemma_replace_same(self.root@, id);
            }
        }
        match self.find_node_mut(id) {
            None => false,
            Some(node) => match &mut node.kind {
                NodeKind::Element(element) => {
                    element.attributes.insert(key, val);
                    true
                },
                _ => false,
            },
        }
    }

    /// Replaces a node's text: a text node gets the new text, any other
    /// node gets a single text child with the next unused id.
    pub fn set_text_content(&mut self, id: NodeId, text: &str) -> (r: bool)
        ensures
            r == find(old(self).root@, id) is Some,
            r ==> final(self).root@ =~= replace(
                old(self).root@,
                id,
                with_text(find(old(self).root@, id).unwrap(), text@, sat_inc(max_id(old(self).root@))),
            ),
            !r ==> final(self).root@ =~= old(self).root@,
    {
        broadcast use lemma_model_shape;

        let next_id = self.next_node_id();
        let is_text_target = match self.find_node(id) {
            Some(n) => match &n.kind {
                NodeKind::Text(_) => true,
                _ => false,
            },
            None => false,
        };
        match self.find_node_mut(id) {
            None => false,
            Some(node) => {
                if is_text_target {
                    node.kind = NodeKind::Text(string_from(text));
                } else {
                    let mut child = Node::text(text);
                    child.id = next_id;
                    let mut children: Vec<Node> = Vec::new();
                    children.push(child);
                    node.children = children;
                    proof {
                        assert(models(node.children@) =~= seq![text_model(next_id, text@)]);
                    }
                }
                true
            },
        }
    }

    /// Appends `child` to an existing parent. Returns false if the parent
    /// is missing or is a text node.
    pub fn append_child(&mut self, parent_id: NodeId, child: Node) -> (r: bool)
        ensures
            r == (find(old(self).root@, parent_id) matches Some(m) && hosts_children(m)),
            r ==> final(self).root@ =~= replace(
                old(self).root@,
                parent_id,
                with_child(find(old(self).root@, parent_id).unwrap(), child@),
            ),
            !r ==> final(self).root@ =~= old(self).root@,
    {
        broadcast use lemma_model_shape;

        proof {
            if find(self.root@, parent_id) is Some {
                lemma_replace_same(self.root@, parent_id);
            }
        }
        match self.find_node_mut(parent_id) {
            None => false,
            Some(parent) => {
                let is_text = match &parent.kind {
                    NodeKind::Text(_) => true,
                    _ => false,
                };
                if is_text {
                    return false;
                }
                let ghost prev = parent.children@;
                parent.children.push(child);
                proof {
                    assert(models(parent.children@) =~= models(prev).push(child@));
                }
                true
            },
        }
    }

    /// Ensures an element has an empty shadow root. Returns false if the
    /// host is missing or cannot host children.
    pub fn attach_shadow_root(&mut self, host_id: NodeId) -> (r: bool)
        ensures
            r == (find(old(self).root@, host_id) matches Some(m) && hosts_children(m)),
            r ==> final(self).root@ =~= replace(
                old(self).root@,
                host_id,
                with_empty_shadow(find(old(self).root@, host_id).unwrap()),
            ),
            !r ==> final(self).root@ =~= old(self).root@,
    {
        broadcast use lemma_model_shape;

        proof {
            if find(self.root@, host_id) is Some {
                lemma_replace_same(self.root@, host_id);
            }
        }
        match self.find_node_mut(host_id) {
            None => false,
            Some(host) => {
                let is_text = match &host.kind {
                    NodeKind::Text(_) => true,
                    _ => false,
                };
                if is_text {
                    return false;
                }
                host.shadow_children = Vec::new();
                proof {
                    assert(models(host.shadow_children@) =~= Seq::<NodeModel>::empty());
                }
                true
            },
        }
    }

    /// Appends `child` to an element's shadow root. Returns false if the
    /// host is missing or cannot host children.
    pub fn append_shadow_child(&mut self, host_id: NodeId, child: Node) -> (r: bool)
        ensures
            r == (find(old(self).root@, host_id) matches Some(m) && hosts_children(m)),
            r ==> final(self).root@ =~= replace(
                old(self).root@,
                host_id,
                with_shadow_child(find(old(self).root@, host_id).unwrap(), child@),
            ),
            !r ==> final(self).root@ =~= old(self).root@,
    {
        broadcast use lemma_model_shape;

        proof {
            if find(self.root@, host_id) is Some {
                lemma_replace_same(self.root@, host_id);
            }
        }
        match self.find_node_mut(host_id) {
            None => false,
            Some(host) => {
                let is_text = match &host.kind {
                    NodeKind::Text(_) => true,
                    _ => false,
                };
                if is_text {
                    return false;
                }
                let ghost prev = host.shadow_children@;
                host.shadow_children.push(child);
                proof {
                    assert(models(host.shadow_children@) =~= models(prev).push(child@));
                }
                true
            },
        }
    }

    /// Removes a node by id and returns it. The document root cannot be
    /// removed.
    pub fn remove_node(&mut self, id: NodeId) -> (r: Option<Node>)
        ensures
            id == old(self).root@.id ==> r is None && final(self).root@ == old(self).root@,
            id != old(self).root@.id ==> (r matches Some(x) ==> remove(old(self).root@, id) is Some
                && final(self).root@ =~= remove(old(self).root@, id).unwrap().0 && x@
                =~= remove(old(self).root@, id).unwrap().1),
            id != old(self).root@.id ==> (r is None ==> remove(old(self).root@, id) is None
                && final(self).root@ == old(self).root@),
    {
        proof {
            lemma_children_models(self.root);
        }
        if id == self.root.id {
            return None;
        }
        remove_node(&mut self.root, id)
    }
}


/// Ids of the tree in pre-order: the node, its light subtrees, then its
/// shadow subtrees.
pub open spec fn preorder(n: NodeModel) -> Seq<u64>
    decreases n, 0int,
{
    seq![n.id] + preorder_from(n.children, 0) + preorder_from(n.shadow, 0)
}

/// Pre-order ids of the trees `s[i..]`.
pub open spec fn preorder_from(s: Seq<NodeModel>, i: int) -> Seq<u64>
    decreases s, s.len() - i,
{
    if i < 0 || i >= s.len() {
        Seq::empty()
    } else {
        preorder(s[i]) + preorder_from(s, i + 1)
    }
}

proof fn lemma_preorder_from_shift(c: NodeModel, rest: Seq<NodeModel>, j: int)
    requires
        0 <= j,
    ensures
        preorder_from(seq![c] + rest, j + 1) == preorder_from(rest, j),
    decreases rest.len() - j,
{
    let t = seq![c] + rest;
    if j < rest.len() {
        assert(t[j + 1] == rest[j]);
        lemma_preorder_from_shift(c, rest, j + 1);
    }
}

/// Whether no node of the tree has shadow children.
pub open spec fn shadow_free(n: NodeModel) -> bool
    decreases n, 0int,
{
    n.shadow.len() == 0 && shadow_free_from(n.children, 0)
}

/// Whether no node of the trees `s[i..]` has shadow children.
pub open spec fn shadow_free_from(s: Seq<NodeModel>, i: int) -> bool
    decreases s, s.len() - i,
{
    if i < 0 || i >= s.len() {
        true
    } else {
        shadow_free(s[i]) && shadow_free_from(s, i + 1)
    }
}

proof fn lemma_shadow_free_shift(c: NodeModel, rest: Seq<NodeModel>, j: int)
    requires
        0 <= j,
    ensures
        shadow_free_from(seq![c] + rest, j + 1) == shadow_free_from(rest, j),
    decreases rest.len() - j,
{
    let t = seq![c] + rest;
    if j < rest.len() {
        assert(t[j + 1] == rest[j]);
        lemma_shadow_free_shift(c, rest, j + 1);
    }
}

/// Adding a tree after the trees `s[i..]` adds its nodes after theirs.
proof fn lemma_from_push(s: Seq<NodeModel>, c: NodeModel, i: int)
    requires
        0 <= i <= s.len(),
    ensures
        preorder_from(s.push(c), i) == preorder_from(s, i) + preorder(c),
        shadow_free_from(s.push(c), i) == (shadow_free_from(s, i) && shadow_free(c)),
    decreases s.len() - i,
{
    let t = s.push(c);
    if i < s.len() {
        assert(t[i] == s[i]);
        lemma_from_push(s, c, i + 1);
        assert(preorder_from(t, i) =~= preorder_from(s, i) + preorder(c));
    } else {
        assert(t[i] == c);
        assert(preorder_from(t, i + 1) == Seq::<u64>::empty());
        assert(preorder_from(t, i) =~= preorder(c));
        assert(preorder_from(s, i) =~= Seq::<u64>::empty());
        assert(shadow_free_from(t, i + 1));
        assert(shadow_free_from(s, i));
    }
}

/// A node with one more child holds that child's nodes as well, and no
/// shadow children if neither had any.
pub proof fn lemma_with_child(m: NodeModel, c: NodeModel)
    ensures
        preorder(with_child(m, c)).len() == preorder(m).len() + preorder(c).len(),
        shadow_free(with_child(m, c)) == (shadow_free(m) && shadow_free(c)),
        with_child(m, c).kind == m.kind,
{
    lemma_from_push(m.children, c, 0);
}

/// Assigning ids keeps a tree free of shadow children, and its root's kind.
pub proof fn lemma_assign_shadow_free(n: NodeModel, start: u64)
    requires
        shadow_free(n),
    ensures
        shadow_free(assign(n, start).0),
        assign(n, start).0.kind == n.kind,
    decreases n, 0int,
{
    lemma_assign_from_shadow_free(n.children, 0, sat_inc(start));
}

proof fn lemma_assign_from_shadow_free(s: Seq<NodeModel>, i: int, start: u64)
    requires
        0 <= i,
        shadow_free_from(s, i),
    ensures
        shadow_free_from(assign_from(s, i, start).0, 0),
    decreases s, s.len() - i,
{
    if i < s.len() {
        lemma_assign_shadow_free(s[i], start);
        let (c, n1) = assign(s[i], start);
        lemma_assign_from_shadow_free(s, i + 1, n1);
        let (rest, n2) = assign_from(s, i + 1, n1);
        lemma_shadow_free_shift(c, rest, 0);
        let t = seq![c] + rest;
        assert(t[0] == c);
    }
}

/// The ids of the tree's nodes, counted with repetition.
pub open spec fn ids(n: NodeModel) -> Multiset<u64> {
    preorder(n).to_multiset()
}

/// The ids of the nodes of the trees `s[i..]`, counted with repetition.
pub open spec fn ids_from(s: Seq<NodeModel>, i: int) -> Multiset<u64> {
    preorder_from(s, i).to_multiset()
}

/// A node's ids: its own, its children's, its shadow children's.
proof fn lemma_ids_split(n: NodeModel)
    ensures
        ids(n) == Multiset::singleton(n.id).add(ids_from(n.children, 0)).add(ids_from(n.shadow, 0)),
{
    broadcast use vstd::seq_lib::lemma_multiset_commutative;
    let a = seq![n.id];
    let b = preorder_from(n.children, 0);
    let c = preorder_from(n.shadow, 0);
    assert(preorder(n) == a + b + c);
    assert(a.to_multiset() =~= Multiset::singleton(n.id)) by {
        broadcast use vstd::seq_lib::group_to_multiset_ensures;
        assert(a =~= Seq::<u64>::empty().push(n.id));
    }
}

/// The ids of `s[i..]`: those of `s[i]`, then of the rest.
proof fn lemma_ids_from_step(s: Seq<NodeModel>, i: int)
    requires
        0 <= i < s.len(),
    ensures
        ids_from(s, i) == ids(s[i]).add(ids_from(s, i + 1)),
{
    broadcast use vstd::seq_lib::lemma_multiset_commutative;
    assert(preorder_from(s, i) == preorder(s[i]) + preorder_from(s, i + 1));
}

/// Changing `s[k]` leaves the trees after it as they were.
proof fn lemma_preorder_from_after_update(s: Seq<NodeModel>, k: int, x: NodeModel, j: int)
    requires
        0 <= k < j,
        k < s.len(),
    ensures
        preorder_from(s.update(k, x), j) == preorder_from(s, j),
    decreases s.len() - j,
{
    if j < s.len() {
        assert(s.update(k, x)[j] == s[j]);
        lemma_preorder_from_after_update(s, k, x, j + 1);
    }
}

/// Replacing `s[k]` by `x` trades the ids of `s[k]` for those of `x`.
proof fn lemma_ids_from_update(s: Seq<NodeModel>, k: int, x: NodeModel, i: int)
    requires
        0 <= i <= k < s.len(),
    ensures
        ids_from(s.update(k, x), i).add(ids(s[k])) == ids_from(s, i).add(ids(x)),
    decreases k - i,
{
    broadcast use vstd::multiset::group_multiset_axioms;
    let t = s.update(k, x);
    lemma_ids_from_step(t, i);
    lemma_ids_from_step(s, i);
    if i == k {
        lemma_preorder_from_after_update(s, k, x, k + 1);
        assert(t[k] == x);
        assert(ids_from(t, i).add(ids(s[k])) =~= ids_from(s, i).add(ids(x)));
    } else {
        assert(t[i] == s[i]);
        lemma_ids_from_update(s, k, x, i + 1);
        assert(ids(t[i]) == ids(s[i]));
        assert(ids_from(t, i + 1).add(ids(s[k])) == ids_from(s, i + 1).add(ids(x)));
        assert(ids_from(t, i) == ids(s[i]).add(ids_from(t, i + 1)));
        let lhs = ids_from(t, i).add(ids(s[k]));
        let rhs = ids_from(s, i).add(ids(x));
        assert forall|v: u64| #[trigger] lhs.count(v) == rhs.count(v) by {
            assert(ids_from(t, i + 1).add(ids(s[k])).count(v) == ids_from(s, i + 1).add(ids(x)).count(v));
        }
        assert(lhs =~= rhs);
    }
}

/// Dropping `s[k]` shifts the trees after it down by one.
proof fn lemma_preorder_from_after_remove(s: Seq<NodeModel>, k: int, j: int)
    requires
        0 <= k <= j,
        k < s.len(),
    ensures
        preorder_from(s.remove(k), j) == preorder_from(s, j + 1),
    decreases s.len() - j,
{
    if j + 1 < s.len() {
        assert(s.remove(k)[j] == s[j + 1]);
        lemma_preorder_from_after_remove(s, k, j + 1);
    }
}

/// Dropping `s[k]` drops just its ids.
proof fn lemma_ids_from_remove(s: Seq<NodeModel>, k: int, i: int)
    requires
        0 <= i <= k < s.len(),
    ensures
        ids_from(s.remove(k), i).add(ids(s[k])) == ids_from(s, i),
    decreases k - i,
{
    broadcast use vstd::multiset::group_multiset_axioms;
    lemma_ids_from_step(s, i);
    if i == k {
        lemma_preorder_from_after_remove(s, k, k);
        assert(ids_from(s.remove(k), i).add(ids(s[k])) =~= ids_from(s, i));
    } else {
        let t = s.remove(k);
        assert(t[i] == s[i]);
        lemma_ids_from_step(t, i);
        lemma_ids_from_remove(s, k, i + 1);
        assert(ids_from(t, i).add(ids(s[k])) =~= ids_from(s, i));
    }
}

/// Regrouping sums of ids where one part changes.
proof fn lemma_ms_regroup(
    a: Multiset<u64>,
    p: Multiset<u64>,
    q: Multiset<u64>,
    p2: Multiset<u64>,
    q2: Multiset<u64>,
    y: Multiset<u64>,
    z: Multiset<u64>,
)
    requires
        (p2.add(y) == p.add(z) && q2 == q) || (p2 == p && q2.add(y) == q.add(z)),
    ensures
        a.add(p2).add(q2).add(y) == a.add(p).add(q).add(z),
{
    broadcast use vstd::multiset::group_multiset_axioms;
    assert forall|v: u64| #[trigger] a.add(p2).add(q2).add(y).count(v) == a.add(p).add(q).add(z).count(v) by {
        assert(p2.add(y).count(v) == p.add(z).count(v) || q2.add(y).count(v) == q.add(z).count(v));
    }
    assert(a.add(p2).add(q2).add(y) =~= a.add(p).add(q).add(z));
}

/// Trading through an intermediate sum.
proof fn lemma_ms_trade(
    u: Multiset<u64>,
    h: Multiset<u64>,
    c: Multiset<u64>,
    x: Multiset<u64>,
    m: Multiset<u64>,
    y: Multiset<u64>,
)
    requires
        u.add(h) == c.add(x),
        x.add(m) == h.add(y),
    ensures
        u.add(m) == c.add(y),
{
    broadcast use vstd::multiset::group_multiset_axioms;
    assert forall|v: u64| #[trigger] u.add(m).count(v) == c.add(y).count(v) by {
        assert(u.add(h).count(v) == c.add(x).count(v));
        assert(x.add(m).count(v) == h.add(y).count(v));
        assert(u.add(h).count(v) == u.count(v) + h.count(v));
        assert(c.add(x).count(v) == c.count(v) + x.count(v));
        assert(x.add(m).count(v) == x.count(v) + m.count(v));
        assert(h.add(y).count(v) == h.count(v) + y.count(v));
        assert(u.add(m).count(v) == u.count(v) + m.count(v));
        assert(c.add(y).count(v) == c.count(v) + y.count(v));
    }
    assert(u.add(m) =~= c.add(y));
}

/// Removing a node splits the tree's ids between what is left and the
/// removed subtree: no node is lost or copied.
pub proof fn lemma_remove_ids(n: NodeModel, id: u64)
    requires
        remove(n, id) is Some,
    ensures
        ids(n) == ids(remove(n, id).unwrap().0).add(ids(remove(n, id).unwrap().1)),
    decreases n, 0int,
{
    broadcast use vstd::multiset::group_multiset_axioms;
    let (r, c) = remove(n, id).unwrap();
    lemma_ids_split(n);
    lemma_ids_split(r);
    lemma_direct_from(n.children, id, 0);
    lemma_direct_from(n.shadow, id, 0);
    lemma_removable_from(n.children, id, 0);
    lemma_removable_from(n.shadow, id, 0);
    let e = Multiset::<u64>::empty();
    let one = Multiset::singleton(n.id);
    let cn = ids_from(n.children, 0);
    let sn = ids_from(n.shadow, 0);
    let cr = ids_from(r.children, 0);
    let sr = ids_from(r.shadow, 0);
    let d = direct_from(n.children, id, 0);
    if d >= 0 {
        lemma_ids_from_remove(n.children, d, 0);
        assert(cr.add(ids(c)) == cn.add(e)) by {
            assert(cn.add(e) =~= cn);
        }
        lemma_ms_regroup(one, cn, sn, cr, sr, ids(c), e);
    } else if remove_from(n.children, id, 0) is Some {
        let k = removable_from(n.children, id, 0);
        lemma_remove_ids(n.children[k], id);
        let (x, y) = remove(n.children[k], id).unwrap();
        lemma_ids_from_update(n.children, k, x, 0);
        assert(ids(x).add(ids(c)) == ids(n.children[k]).add(e)) by {
            assert(ids(n.children[k]).add(e) =~= ids(n.children[k]));
        }
        lemma_ms_trade(cr, ids(n.children[k]), cn, ids(x), ids(c), e);
        lemma_ms_regroup(one, cn, sn, cr, sr, ids(c), e);
    } else {
        let d2 = direct_from(n.shadow, id, 0);
        if d2 >= 0 {
            lemma_ids_from_remove(n.shadow, d2, 0);
            assert(sr.add(ids(c)) == sn.add(e)) by {
                assert(sn.add(e) =~= sn);
            }
            lemma_ms_regroup(one, cn, sn, cr, sr, ids(c), e);
        } else {
            let k = removable_from(n.shadow, id, 0);
            lemma_remove_ids(n.shadow[k], id);
            let (x, y) = remove(n.shadow[k], id).unwrap();
            lemma_ids_from_update(n.shadow, k, x, 0);
            assert(ids(x).add(ids(c)) == ids(n.shadow[k]).add(e)) by {
                assert(ids(n.shadow[k]).add(e) =~= ids(n.shadow[k]));
            }
            lemma_ms_trade(sr, ids(n.shadow[k]), sn, ids(x), ids(c), e);
            lemma_ms_regroup(one, cn, sn, cr, sr, ids(c), e);
        }
    }
    assert(ids(n).add(e) =~= ids(n));
}

/// Replacing the node found by `id` by `x` trades its ids for those of `x`.
pub proof fn lemma_replace_ids(n: NodeModel, id: u64, x: NodeModel)
    requires
        find(n, id) is Some,
    ensures
        ids(replace(n, id, x)).add(ids(find(n, id).unwrap())) == ids(n).add(ids(x)),
    decreases n, 0int,
{
    broadcast use vstd::multiset::group_multiset_axioms;
    let m = find(n, id).unwrap();
    if n.id == id {
        assert(ids(x).add(ids(n)) =~= ids(n).add(ids(x)));
    } else {
        lemma_hit_from(n.children, id, 0, x);
        lemma_hit_from(n.shadow, id, 0, x);
        let r = replace(n, id, x);
        lemma_ids_split(n);
        lemma_ids_split(r);
        let one = Multiset::singleton(n.id);
        let cn = ids_from(n.children, 0);
        let sn = ids_from(n.shadow, 0);
        let cr = ids_from(r.children, 0);
        let sr = ids_from(r.shadow, 0);
        if find_from(n.children, id, 0) is Some {
            let k = hit_from(n.children, id, 0);
            lemma_replace_ids(n.children[k], id, x);
            let rep = replace(n.children[k], id, x);
            lemma_ids_from_update(n.children, k, rep, 0);
            lemma_ms_trade(cr, ids(n.children[k]), cn, ids(rep), ids(m), ids(x));
            lemma_ms_regroup(one, cn, sn, cr, sr, ids(m), ids(x));
        } else {
            let k = hit_from(n.shadow, id, 0);
            lemma_replace_ids(n.shadow[k], id, x);
            let rep = replace(n.shadow[k], id, x);
            lemma_ids_from_update(n.shadow, k, rep, 0);
            lemma_ms_trade(sr, ids(n.shadow[k]), sn, ids(rep), ids(m), ids(x));
            lemma_ms_regroup(one, cn, sn, cr, sr, ids(m), ids(x));
        }
    }
}

/// A node with one more child has that child's ids as well.
pub proof fn lemma_with_child_ids(m: NodeModel, c: NodeModel)
    ensures
        ids(with_child(m, c)) == ids(m).add(ids(c)),
{
    broadcast use vstd::multiset::group_multiset_axioms;
    broadcast use vstd::seq_lib::lemma_multiset_commutative;
    lemma_from_push(m.children, c, 0);
    lemma_ids_split(m);
    lemma_ids_split(with_child(m, c));
    assert(ids_from(m.children.push(c), 0) =~= ids_from(m.children, 0).add(ids(c)));
    assert(ids(with_child(m, c)) =~= ids(m).add(ids(c)));
}

/// A tree holds every id that `find` finds in it.
pub proof fn lemma_found_in_ids(n: NodeModel, id: u64)
    requires
        find(n, id) is Some,
    ensures
        ids(n).count(id) >= 1,
    decreases n, 0int,
{
    broadcast use vstd::multiset::group_multiset_axioms;
    lemma_ids_split(n);
    if n.id != id {
        lemma_hit_from(n.children, id, 0, n);
        lemma_hit_from(n.shadow, id, 0, n);
        if find_from(n.children, id, 0) is Some {
            let k = hit_from(n.children, id, 0);
            lemma_found_in_ids(n.children[k], id);
            lemma_ids_from_covers(n.children, 0, k, id);
        } else {
            let k = hit_from(n.shadow, id, 0);
            lemma_found_in_ids(n.shadow[k], id);
            lemma_ids_from_covers(n.shadow, 0, k, id);
        }
    }
}

proof fn lemma_ids_from_covers(s: Seq<NodeModel>, i: int, k: int, id: u64)
    requires
        0 <= i <= k < s.len(),
    ensures
        ids_from(s, i).count(id) >= ids(s[k]).count(id),
    decreases k - i,
{
    broadcast use vstd::multiset::group_multiset_axioms;
    lemma_ids_from_step(s, i);
    if i < k {
        lemma_ids_from_covers(s, i + 1, k, id);
    }
}

/// A tree without its ids: every node's payload and its children, in
/// order, with every id set to zero.
pub open spec fn shape(n: NodeModel) -> NodeModel
    decreases n, 0int,
{
    NodeModel { id: 0, kind: n.kind, children: shapes_from(n.children, 0), shadow: shapes_from(n.shadow, 0) }
}

/// The shapes of the trees `s[i..]`.
pub open spec fn shapes_from(s: Seq<NodeModel>, i: int) -> Seq<NodeModel>
    decreases s, s.len() - i,
{
    if i < 0 || i >= s.len() {
        Seq::empty()
    } else {
        seq![shape(s[i])] + shapes_from(s, i + 1)
    }
}

/// Shapes past a prefix are the shapes of what follows it.
proof fn lemma_shapes_after_prefix(pre: Seq<NodeModel>, s: Seq<NodeModel>, j: int)
    requires
        0 <= j,
    ensures
        shapes_from(pre + s, pre.len() + j) == shapes_from(s, j),
    decreases s.len() - j,
{
    if j < s.len() {
        lemma_shapes_after_prefix(pre, s, j + 1);
        assert((pre + s)[pre.len() + j] == s[j]);
    }
}

/// Assigning ids keeps the shape of a tree.
proof fn lemma_assign_keeps_shape(n: NodeModel, next: u64)
    ensures
        shape(assign(n, next).0) == shape(n),
    decreases n, 0int,
{
    let (cs, n1) = assign_from(n.children, 0, sat_inc(next));
    lemma_assign_from_keeps_shapes(n.children, 0, sat_inc(next));
    lemma_assign_from_keeps_shapes(n.shadow, 0, n1);
}

/// Assigning ids to `s[i..]` keeps their shapes.
proof fn lemma_assign_from_keeps_shapes(s: Seq<NodeModel>, i: int, next: u64)
    requires
        0 <= i,
    ensures
        shapes_from(assign_from(s, i, next).0, 0) == shapes_from(s, i),
    decreases s, s.len() - i,
{
    if i < s.len() {
        let (c, n1) = assign(s[i], next);
        let rest = assign_from(s, i + 1, n1).0;
        lemma_assign_keeps_shape(s[i], next);
        lemma_assign_from_keeps_shapes(s, i + 1, n1);
        lemma_shapes_after_prefix(seq![c], rest, 0);
        assert((seq![c] + rest)[0] == c);
    }
}

/// Assigning ids depends on the shape of a tree only.
proof fn lemma_assign_by_shape(n: NodeModel, m: NodeModel, next: u64)
    requires
        shape(n) == shape(m),
    ensures
        assign(n, next) == assign(m, next),
    decreases n, 0int,
{
    lemma_assign_from_by_shapes(n.children, m.children, 0, sat_inc(next));
    let n1 = assign_from(n.children, 0, sat_inc(next)).1;
    lemma_assign_from_by_shapes(n.shadow, m.shadow, 0, n1);
}

/// Assigning ids to `s[i..]` depends on their shapes only.
proof fn lemma_assign_from_by_shapes(s: Seq<NodeModel>, t: Seq<NodeModel>, i: int, next: u64)
    requires
        0 <= i,
        shapes_from(s, i) == shapes_from(t, i),
    ensures
        assign_from(s, i, next) == assign_from(t, i, next),
    decreases s, s.len() - i,
{
    if i < s.len() {
        assert(shapes_from(s, i)[0] == shape(s[i]));
        if i >= t.len() {
            assert(shapes_from(t, i).len() == 0);
        }
        assert(shapes_from(t, i)[0] == shape(t[i]));
        assert(shapes_from(s, i + 1) =~= shapes_from(s, i).drop_first());
        assert(shapes_from(t, i + 1) =~= shapes_from(t, i).drop_first());
        lemma_assign_by_shape(s[i], t[i], next);
        let n1 = assign(s[i], next).1;
        lemma_assign_from_by_shapes(s, t, i + 1, n1);
    } else if i < t.len() {
        assert(shapes_from(t, i).len() > 0);
    }
}

/// Assigning stable ids keeps every node's payload and the tree's shape,
/// and assigning them again changes nothing.
pub proof fn lemma_assign_keeps_tree(n: NodeModel, start: u64)
    ensures
        shape(assign(n, start).0) == shape(n),
        assign(assign(n, start).0, start).0 == assign(n, start).0,
{
    lemma_assign_keeps_shape(n, start);
    lemma_assign_by_shape(assign(n, start).0, n, start);
}

/// Assigning ids numbers the tree in pre-order: the k-th node in pre-order
/// gets id `start + k`, held at the largest id once it is reached; the
/// next id is `start` plus the number of nodes, held the same way.
pub proof fn lemma_assign_numbers_preorder(n: NodeModel, start: u64)
    ensures
        preorder(assign(n, start).0) =~= sat_id_range(start as int, preorder(n).len()),
        assign(n, start).1 == sat_id(start + preorder(n).len()),
        preorder(assign(n, start).0).len() == preorder(n).len(),
    decreases n, 0int,
{
    let n1 = sat_inc(start);
    assert(n1 == sat_id(start + 1));
    lemma_assign_from_numbers(n.children, 0, n1);
    let (cs, m1) = assign_from(n.children, 0, n1);
    lemma_assign_from_numbers(n.shadow, 0, m1);
    let (ss, m2) = assign_from(n.shadow, 0, m1);
    let a = preorder_from(n.children, 0).len();
    let b = preorder_from(n.shadow, 0).len();
    lemma_sat_id_shift(start as int, 1, a as int);
    lemma_sat_id_shift(start as int, (1 + a) as int, b as int);
    let got = preorder(assign(n, start).0);
    let want = sat_id_range(start as int, preorder(n).len());
    assert forall|k: int| 0 <= k < want.len() implies got[k] == want[k] by {
        if 1 <= k < 1 + a {
            lemma_sat_id_shift(start as int, 1, k - 1);
        } else if 1 + a <= k {
            lemma_sat_id_shift(start as int, (1 + a) as int, k - 1 - a);
        }
    }
}

/// `x` held at the largest id.
pub open spec fn sat_id(x: int) -> u64 {
    if x >= u64::MAX {
        u64::MAX
    } else {
        x as u64
    }
}

/// The ids `start`, `start + 1`, ... of length `len`, each held at the
/// largest id.
pub open spec fn sat_id_range(start: int, len: nat) -> Seq<u64> {
    Seq::new(len, |k: int| sat_id(start + k))
}

/// Counting on from a held id is counting on from the unheld one.
proof fn lemma_sat_id_shift(x: int, d: int, k: int)
    requires
        0 <= x,
        0 <= d,
        0 <= k,
    ensures
        sat_id(sat_id(x + d) + k) == sat_id(x + d + k),
{
}

/// Assigning ids to `s[i..]` numbers those trees in pre-order.
pub proof fn lemma_assign_from_numbers(s: Seq<NodeModel>, i: int, start: u64)
    requires
        0 <= i,
    ensures
        preorder_from(assign_from(s, i, start).0, 0) =~= sat_id_range(
            start as int,
            preorder_from(s, i).len(),
        ),
        assign_from(s, i, start).1 == sat_id(start + preorder_from(s, i).len()),
    decreases s, s.len() - i,
{
    if i < s.len() {
        lemma_assign_numbers_preorder(s[i], start);
        let (c, n1) = assign(s[i], start);
        lemma_assign_from_numbers(s, i + 1, n1);
        let (rest, n2) = assign_from(s, i + 1, n1);
        lemma_preorder_from_shift(c, rest, 0);
        let t = seq![c] + rest;
        assert(t[0] == c);
        let a = preorder(s[i]).len();
        let b = preorder_from(s, i + 1).len();
        lemma_sat_id_shift(start as int, a as int, b as int);
        let got = preorder_from(assign_from(s, i, start).0, 0);
        let want = sat_id_range(start as int, preorder_from(s, i).len());
        assert forall|k: int| 0 <= k < want.len() implies got[k] == want[k] by {
            if a <= k {
                lemma_sat_id_shift(start as int, a as int, k - a);
            }
        }
    }
}

/// A node found by id is no larger than the largest id.
pub proof fn lemma_found_le_max(n: NodeModel, id: u64)
    requires
        find(n, id) is Some,
    ensures
        id <= max_id(n),
    decreases n, 0int,
{
    if n.id != id {
        lemma_hit_from(n.children, id, 0, n);
        lemma_hit_from(n.shadow, id, 0, n);
        if find_from(n.children, id, 0) is Some {
            let k = hit_from(n.children, id, 0);
            lemma_found_le_max(n.children[k], id);
            lemma_max_from_bound(n.children, 0, k);
        } else {
            let k = hit_from(n.shadow, id, 0);
            lemma_found_le_max(n.shadow[k], id);
            lemma_max_from_bound(n.shadow, 0, k);
        }
    }
}

proof fn lemma_max_from_bound(s: Seq<NodeModel>, i: int, k: int)
    requires
        0 <= i <= k < s.len(),
    ensures
        max_id(s[k]) <= max_from(s, i),
    decreases k - i,
{
    if i < k {
        lemma_max_from_bound(s, i + 1, k);
    }
}

/// The next node id is fresh: no node of the tree holds it, unless the
/// largest id is already the largest representable one.
pub proof fn lemma_next_id_is_fresh(root: NodeModel)
    requires
        max_id(root) < u64::MAX,
    ensures
        find(root, sat_inc(max_id(root))) is None,
{
    if find(root, sat_inc(max_id(root))) is Some {
        lemma_found_le_max(root, sat_inc(max_id(root)));
    }
}

/// Reading an attribute right after setting it gives the value just set.
pub proof fn lemma_set_attribute_then_get(root: NodeModel, id: u64, name: Seq<char>, value: Seq<char>)
    requires
        find(root, id) matches Some(m) && m.kind is Element,
        names_sorted(find(root, id).unwrap().kind->attrs),
    ensures
        ({
            let m2 = with_attr(find(root, id).unwrap(), lower(name), value);
            &&& find(replace(root, id, m2), id) == Some(m2)
            &&& attr_lookup(m2.kind->attrs, lower(name)) == Some(value)
        }),
{
    let m = find(root, id).unwrap();
    lemma_find_id(root, id);
    let m2 = with_attr(m, lower(name), value);
    lemma_find_replace(root, id, m2);
    lemma_attr_insert_lookup(m.kind->attrs, lower(name), value, lower(name));
}

/// A node found by id holds that id.
pub proof fn lemma_find_id(n: NodeModel, id: u64)
    requires
        find(n, id) is Some,
    ensures
        find(n, id).unwrap().id == id,
    decreases n, 0int,
{
    if n.id != id {
        lemma_hit_from(n.children, id, 0, n);
        lemma_hit_from(n.shadow, id, 0, n);
        if find_from(n.children, id, 0) is Some {
            lemma_find_id(n.children[hit_from(n.children, id, 0)], id);
        } else {
            lemma_find_id(n.shadow[hit_from(n.shadow, id, 0)], id);
        }
    }
}

/// Removal below `n` finds what a search below `n` finds.
proof fn lemma_remove_iff_found_below(n: NodeModel, id: u64)
    ensures
        remove(n, id) is Some <==> (find_from(n.children, id, 0) is Some || find_from(n.shadow, id, 0) is Some),
    decreases n, 0int,
{
    lemma_removal_search_from(n.children, id, 0);
    lemma_removal_search_from(n.shadow, id, 0);
    lemma_direct_from(n.children, id, 0);
    lemma_direct_from(n.shadow, id, 0);
    lemma_removable_from(n.children, id, 0);
    lemma_removable_from(n.shadow, id, 0);
}

/// A search in `s[i..]` succeeds exactly when some node there has the id
/// or can remove it from below.
proof fn lemma_removal_search_from(s: Seq<NodeModel>, id: u64, i: int)
    requires
        0 <= i,
    ensures
        find_from(s, id, i) is Some <==> (direct_from(s, id, i) != -1 || removable_from(s, id, i) != -1),
    decreases s, s.len() - i,
{
    if i < s.len() {
        lemma_remove_iff_found_below(s[i], id);
        lemma_removal_search_from(s, id, i + 1);
        lemma_direct_from(s, id, i + 1);
        assert(find(s[i], id) is Some <==> (s[i].id == id || remove(s[i], id) is Some));
    }
}

/// Removing a node succeeds exactly when some node below the root holds
/// its id (the root itself is never removed), and the removed node is one
/// that holds it.
pub proof fn lemma_remove_succeeds_iff_held_below(root: NodeModel, id: u64)
    ensures
        id != root.id ==> (remove(root, id) is Some <==> find(root, id) is Some),
        remove(root, id) is Some ==> remove(root, id).unwrap().1.id == id,
{
    lemma_remove_iff_found_below(root, id);
    if remove(root, id) is Some {
        lemma_removed_has_id(root, id);
    }
}

/// A removed node holds the id it was removed by.
pub proof fn lemma_removed_has_id(n: NodeModel, id: u64)
    requires
        remove(n, id) is Some,
    ensures
        remove(n, id).unwrap().1.id == id,
    decreases n, 0int,
{
    lemma_direct_from(n.children, id, 0);
    lemma_direct_from(n.shadow, id, 0);
    lemma_removable_from(n.children, id, 0);
    lemma_removable_from(n.shadow, id, 0);
    if direct_from(n.children, id, 0) < 0 && direct_from(n.shadow, id, 0) < 0 {
        if remove_from(n.children, id, 0) is Some {
            lemma_removed_has_id(n.children[removable_from(n.children, id, 0)], id);
        } else {
            lemma_removed_has_id(n.shadow[removable_from(n.shadow, id, 0)], id);
        }
    } else if direct_from(n.children, id, 0) < 0 {
        if remove_from(n.children, id, 0) is Some {
            lemma_removed_has_id(n.children[removable_from(n.children, id, 0)], id);
        }
    }
}

proof fn lemma_direct_from(s: Seq<NodeModel>, id: u64, i: int)
    requires
        0 <= i,
    ensures
        direct_from(s, id, i) == -1 || (i <= direct_from(s, id, i) < s.len() && s[direct_from(
            s,
            id,
            i,
        )].id == id),
    decreases s.len() - i,
{
    if i < s.len() && s[i].id != id {
        lemma_direct_from(s, id, i + 1);
    }
}

} // verus!
