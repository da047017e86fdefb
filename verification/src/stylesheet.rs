//! Scanning of stylesheets: whitespace and comments, rule blocks, selector
//! lists and the property/value pieces of declaration blocks, with the
//! byte offsets of what is reported. Declaration values themselves
//! (lengths, numbers, media widths) are read by the caller.

use vstd::prelude::*;
use crate::css::{
    Combinator, CssDiagnostic, MediaType, Orientation, PartModel, Selector, keyword, orientation_of,
    part_models, selector_of,
};
use crate::text::{
    char_utf8_len, chars_of, debug_quoted, find_char_from, find_from, is_ws, lower, occurs_at,
    skip_ws, starts_with, trim, trim_start, utf8_len,
};

verus! {

/// Byte offsets of every character index of a text.
fn byte_prefixes(v: &Vec<char>) -> (r: Vec<usize>)
    requires
        utf8_len(v@) <= usize::MAX,
    ensures
        r@.len() == v@.len() + 1,
        forall|i: int| 0 <= i <= v@.len() ==> #[trigger] r@[i] == utf8_len(v@.take(i)),
{
    let mut r: Vec<usize> = Vec::new();
    let mut total: usize = 0;
    let mut k: usize = 0;
    proof {
        assert(v@.take(0) =~= Seq::<char>::empty());
    }
    r.push(0);
    while k < v.len()
        invariant
            k <= v@.len(),
            utf8_len(v@) <= usize::MAX,
            r@.len() == k + 1,
            total == utf8_len(v@.take(k as int)),
            forall|i: int| 0 <= i <= k ==> #[trigger] r@[i] == utf8_len(v@.take(i)),
        decreases v@.len() - k,
    {
        proof {
            crate::text::lemma_utf8_len_push(v@, k as int);
        }
        total = total + crate::text::char_len_utf8(v[k]);
        r.push(total);
        k += 1;
    }
    r
}

/// Where the whitespace and comments from index `i` end, and where an
/// unterminated comment starts, if one does (the scan then ends at the end
/// of the text).
pub open spec fn skip_ignored_of(s: Seq<char>, i: int) -> (int, Option<int>)
    decreases s.len() - i,
{
    let j = skip_ws(s, i, s.len() as int);
    if 0 <= i <= s.len() && occurs_at(s, "/*"@, j) {
        match find_from(s, "*/"@, j + 2) {
            Some(e) => {
                proof {
                    crate::text::lemma_skip_ws(s, i, s.len() as int);
                    crate::text::lemma_find_from(s, "*/"@, j + 2);
                    reveal_strlit("*/");
                }
                skip_ignored_of(s, e + 2)
            },
            None => (s.len() as int, Some(j)),
        }
    } else {
        (j, None)
    }
}

/// Bounds of `skip_ignored_of`.
pub proof fn lemma_skip_ignored(s: Seq<char>, i: int)
    requires
        0 <= i <= s.len(),
    ensures
        i <= skip_ignored_of(s, i).0 <= s.len(),
        skip_ignored_of(s, i).1 matches Some(j) ==> i <= j < s.len() && skip_ignored_of(s, i).0 == s.len(),
    decreases s.len() - i,
{
    crate::text::lemma_skip_ws(s, i, s.len() as int);
    let j = skip_ws(s, i, s.len() as int);
    reveal_strlit("*/");
    reveal_strlit("/*");
    if occurs_at(s, "/*"@, j) {
        crate::text::lemma_find_from(s, "*/"@, j + 2);
        match find_from(s, "*/"@, j + 2) {
            Some(e) => {
                lemma_skip_ignored(s, e + 2);
            },
            None => {},
        }
    }
}

/// Skips whitespace and comments from `i`.
fn skip_ignored(v: &Vec<char>, i: usize) -> (r: (usize, Option<usize>))
    requires
        i <= v@.len(),
    ensures
        r.0 == skip_ignored_of(v@, i as int).0,
        match r.1 {
            Some(j) => skip_ignored_of(v@, i as int).1 == Some(j as int),
            None => skip_ignored_of(v@, i as int).1 is None,
        },
{
    let open = chars_of("/*");
    let close = chars_of("*/");
    proof {
        reveal_strlit("/*");
        reveal_strlit("*/");
    }
    let mut c = i;
    loop
        invariant
            i <= c <= v@.len(),
            open@ == "/*"@,
            close@ == "*/"@,
            skip_ignored_of(v@, c as int) == skip_ignored_of(v@, i as int),
        decreases v@.len() - c,
    {
        let j = crate::text::skip_ws_exec(v, c, v.len());
        if !crate::text::occurs_at_exec(v, j, &open) {
            return (j, None);
        }
        proof {
            reveal_strlit("/*");
            reveal_strlit("*/");
            assert(open@.len() == 2);
            crate::text::lemma_find_from(v@, close@, j + 2);
        }
        match crate::text::find_exec(v, &close, j + 2) {
            Some(e) => {
                c = e + 2;
            },
            None => {
                return (v.len(), Some(j));
            },
        }
    }
}

/// The index of the `}` that closes a block, scanning from `k` with
/// `depth` inner braces open, if there is one.
pub open spec fn block_end(s: Seq<char>, k: int, depth: nat) -> Option<int>
    decreases s.len() - k,
{
    if k < 0 || k >= s.len() {
        None
    } else if s[k] == '{' {
        block_end(s, k + 1, depth + 1)
    } else if s[k] == '}' {
        if depth == 0 {
            Some(k)
        } else {
            block_end(s, k + 1, (depth - 1) as nat)
        }
    } else {
        block_end(s, k + 1, depth)
    }
}

/// Bounds of `block_end`.
pub proof fn lemma_block_end(s: Seq<char>, k: int, depth: nat)
    requires
        0 <= k,
    ensures
        block_end(s, k, depth) matches Some(e) ==> k <= e < s.len(),
    decreases s.len() - k,
{
    if k < s.len() {
        if s[k] == '{' {
            lemma_block_end(s, k + 1, depth + 1);
        } else if s[k] == '}' {
            if depth > 0 {
                lemma_block_end(s, k + 1, (depth - 1) as nat);
            }
        } else {
            lemma_block_end(s, k + 1, depth);
        }
    }
}

/// The end of the block that starts at `start`.
fn find_block_end(v: &Vec<char>, start: usize) -> (r: Option<usize>)
    requires
        start <= v@.len(),
    ensures
        match r {
            Some(e) => block_end(v@, start as int, 0) == Some(e as int) && start <= e < v@.len(),
            None => block_end(v@, start as int, 0) is None,
        },
{
    let mut depth: usize = 0;
    let mut k = start;
    while k < v.len()
        invariant
            start <= k <= v@.len(),
            depth <= k - start,
            block_end(v@, k as int, depth as nat) == block_end(v@, start as int, 0),
        decreases v@.len() - k,
    {
        let c = v[k];
        if c == '{' {
            depth = depth + 1;
        } else if c == '}' {
            if depth == 0 {
                return Some(k);
            }
            depth = depth - 1;
        }
        k += 1;
    }
    None
}

/// The declarations of a block from index `c` on: for each, its property
/// (trimmed), its value as written and the index where it starts (after
/// whitespace); and the start of a declaration without `:`, which ends the
/// block.
pub open spec fn decls_from(b: Seq<char>, c: int) -> (Seq<(Seq<char>, Seq<char>, int)>, Option<int>)
    decreases b.len() - c,
{
    let start = skip_ws(b, c, b.len() as int);
    if c < 0 || c > b.len() || start >= b.len() {
        (Seq::empty(), None)
    } else {
        match find_char_from(b, ':', start) {
            None => (Seq::empty(), Some(start)),
            Some(colon) => {
                proof {
                    crate::text::lemma_skip_ws(b, c, b.len() as int);
                    crate::text::lemma_find_char(b, ':', start);
                    crate::text::lemma_find_char(b, ';', colon + 1);
                }
                let (value, next) = match find_char_from(b, ';', colon + 1) {
                    Some(k) => (b.subrange(colon + 1, k), k + 1),
                    None => (b.subrange(colon + 1, b.len() as int), b.len() as int),
                };
                let (rest, missing) = decls_from(b, next);
                (seq![(trim(b.subrange(start, colon)), value, start)] + rest, missing)
            },
        }
    }
}

/// Declarations as plain values.
pub open spec fn decl_views(d: Seq<(Vec<char>, Vec<char>, usize)>) -> Seq<(Seq<char>, Seq<char>, int)> {
    Seq::new(d.len(), |i: int| (d[i].0@, d[i].1@, d[i].2 as int))
}

/// Splits a declaration block into its declarations.
fn split_declarations(b: &Vec<char>) -> (r: (Vec<(Vec<char>, Vec<char>, usize)>, Option<usize>))
    ensures
        decl_views(r.0@) == decls_from(b@, 0).0,
        match r.1 {
            Some(m) => decls_from(b@, 0).1 == Some(m as int) && m < b@.len(),
            None => decls_from(b@, 0).1 is None,
        },
        forall|i: int| 0 <= i < r.0@.len() ==> (#[trigger] r.0@[i]).2 < b@.len(),
{
    let mut acc: Vec<(Vec<char>, Vec<char>, usize)> = Vec::new();
    let mut c: usize = 0;
    proof {
        assert(decl_views(acc@) + decls_from(b@, 0).0 =~= decls_from(b@, 0).0);
    }
    loop
        invariant
            c <= b@.len(),
            decl_views(acc@) + decls_from(b@, c as int).0 == decls_from(b@, 0).0,
            decls_from(b@, c as int).1 == decls_from(b@, 0).1,
            forall|i: int| 0 <= i < acc@.len() ==> (#[trigger] acc@[i]).2 < b@.len(),
        decreases b@.len() - c,
    {
        let start = crate::text::skip_ws_exec(b, c, b.len());
        if start >= b.len() {
            proof {
                assert(decl_views(acc@) + Seq::<(Seq<char>, Seq<char>, int)>::empty() =~= decl_views(acc@));
            }
            return (acc, None);
        }
        match crate::text::find_char_exec(b, ':', start) {
            None => {
                proof {
                    assert(decl_views(acc@) + Seq::<(Seq<char>, Seq<char>, int)>::empty() =~= decl_views(acc@));
                }
                return (acc, Some(start));
            },
            Some(colon) => {
                proof {
                    crate::text::lemma_find_char(b@, ':', start as int);
                    crate::text::lemma_find_char(b@, ';', colon + 1);
                }
                let property = crate::text::trim_vec(&crate::text::slice_of(b, start, colon));
                let (value, next) = match crate::text::find_char_exec(b, ';', colon + 1) {
                    Some(k) => (crate::text::slice_of(b, colon + 1, k), k + 1),
                    None => (crate::text::slice_of(b, colon + 1, b.len()), b.len()),
                };
                let ghost x = (property@, value@, start as int);
                let ghost before = decl_views(acc@);
                acc.push((property, value, start));
                proof {
                    assert(decl_views(acc@) =~= before.push(x));
                    let rest = decls_from(b@, next as int).0;
                    assert(decls_from(b@, c as int).0 == seq![x] + rest);
                    assert(before.push(x) + rest =~= before + (seq![x] + rest));
                }
                c = next;
            },
        }
    }
}

/// The selector list `t` read from index `i` on, piece by piece between
/// commas: a diagnostic (the index of the piece's first non-space
/// character, and the message) for each piece that is not a supported
/// selector, and the selectors of the others.
pub open spec fn selector_list_from(t: Seq<char>, i: int) -> (
    Seq<(int, Seq<char>)>,
    Seq<(Seq<PartModel>, Seq<Combinator>)>,
)
    decreases t.len() + 1 - i,
{
    if i < 0 || i > t.len() {
        (Seq::empty(), Seq::empty())
    } else {
        proof {
            crate::text::lemma_find_char(t, ',', i);
        }
        let end = match find_char_from(t, ',', i) {
            Some(k) => k,
            None => t.len() as int,
        };
        let p = t.subrange(i, end);
        let (ds, ss) = if end < t.len() {
            selector_list_from(t, end + 1)
        } else {
            (Seq::empty(), Seq::empty())
        };
        match selector_of(p) {
            Some(sel) => (ds, seq![sel] + ss),
            None => (
                seq![(i + skip_ws(p, 0, p.len() as int), "unsupported selector "@ + debug_quoted(trim(p)))]
                    + ds,
                ss,
            ),
        }
    }
}

/// The commas of a text.
pub open spec fn comma_count(t: Seq<char>) -> nat {
    t.filter(|c: char| c == ',').len()
}

/// A text without commas has none to count.
proof fn lemma_no_commas(t: Seq<char>)
    requires
        forall|j: int| 0 <= j < t.len() ==> #[trigger] t[j] != ',',
    ensures
        comma_count(t) == 0,
{
    t.lemma_all_neg_filter_empty(|c: char| c == ',');
}

/// Every member of a selector list is accounted for: it is either kept as
/// a selector or reported by a diagnostic, so the two together number one
/// more than the commas that separate the members.
pub proof fn lemma_selector_members_accounted(t: Seq<char>, i: int)
    requires
        0 <= i <= t.len(),
    ensures
        selector_list_from(t, i).0.len() + selector_list_from(t, i).1.len() == comma_count(
            t.subrange(i, t.len() as int),
        ) + 1,
    decreases t.len() + 1 - i,
{
    crate::text::lemma_find_char(t, ',', i);
    let rest = t.subrange(i, t.len() as int);
    match find_char_from(t, ',', i) {
        Some(k) => {
            lemma_selector_members_accounted(t, k + 1);
            let head = t.subrange(i, k);
            let tail = t.subrange(k + 1, t.len() as int);
            assert(rest =~= head + seq![','] + tail);
            lemma_no_commas(head);
            Seq::filter_distributes_over_add(head, seq![','], |c: char| c == ',');
            Seq::filter_distributes_over_add(head + seq![','], tail, |c: char| c == ',');
            reveal_with_fuel(Seq::filter, 2);
            assert(seq![','].drop_last() =~= Seq::<char>::empty());
            assert(seq![','].filter(|c: char| c == ',').len() == 1);
        },
        None => {
            lemma_no_commas(rest);
        },
    }
}

/// Selectors as plain values.
pub open spec fn selector_views(s: Seq<Selector>) -> Seq<(Seq<PartModel>, Seq<Combinator>)> {
    Seq::new(s.len(), |i: int| (part_models(s[i].parts@), s[i].combinators@))
}

/// Index diagnostics as plain values.
pub open spec fn index_diag_views(d: Seq<(usize, String)>) -> Seq<(int, Seq<char>)> {
    Seq::new(d.len(), |i: int| (d[i].0 as int, d[i].1@))
}

/// Reads a selector list: the diagnostics of unsupported pieces and the
/// selectors of the others.
fn read_selector_list(t: &Vec<char>) -> (r: (Vec<(usize, String)>, Vec<Selector>))
    ensures
        index_diag_views(r.0@) == selector_list_from(t@, 0).0,
        selector_views(r.1@) == selector_list_from(t@, 0).1,
        forall|k: int| 0 <= k < r.0@.len() ==> (#[trigger] r.0@[k]).0 <= t@.len(),
{
    let mut diags: Vec<(usize, String)> = Vec::new();
    let mut selectors: Vec<Selector> = Vec::new();
    let mut i: usize = 0;
    proof {
        assert(index_diag_views(diags@) + selector_list_from(t@, 0).0 =~= selector_list_from(t@, 0).0);
        assert(selector_views(selectors@) + selector_list_from(t@, 0).1 =~= selector_list_from(t@, 0).1);
    }
    loop
        invariant
            i <= t@.len(),
            index_diag_views(diags@) + selector_list_from(t@, i as int).0 == selector_list_from(t@, 0).0,
            selector_views(selectors@) + selector_list_from(t@, i as int).1 == selector_list_from(t@, 0).1,
            forall|k: int| 0 <= k < diags@.len() ==> (#[trigger] diags@[k]).0 <= t@.len(),
        decreases t@.len() + 1 - i,
    {
        proof {
            crate::text::lemma_find_char(t@, ',', i as int);
        }
        let end = match crate::text::find_char_exec(t, ',', i) {
            Some(k) => k,
            None => t.len(),
        };
        let piece = crate::text::slice_of(t, i, end);
        let text = crate::text::string_of(&piece);
        let ghost ds0 = index_diag_views(diags@);
        let ghost ss0 = selector_views(selectors@);
        let ghost rest = if end < t@.len() {
            selector_list_from(t@, end + 1)
        } else {
            (Seq::<(int, Seq<char>)>::empty(), Seq::<(Seq<PartModel>, Seq<Combinator>)>::empty())
        };
        match crate::css::parse_selector(text.as_str()) {
            Some(sel) => {
                selectors.push(sel);
                proof {
                    assert(selector_views(selectors@) =~= ss0.push((part_models(sel.parts@), sel.combinators@)));
                    assert(ss0.push((part_models(sel.parts@), sel.combinators@)) + rest.1 =~= ss0 + (seq![(part_models(sel.parts@), sel.combinators@)] + rest.1));
                    assert(index_diag_views(diags@) == ds0);
                }
            },
            None => {
                let lead = crate::text::skip_ws_exec(&piece, 0, piece.len());
                let mut m = crate::text::string_from("unsupported selector ");
                let trimmed = crate::text::string_of(&crate::text::trim_vec(&piece));
                crate::text::push_str(&mut m, crate::text::debug_string(trimmed.as_str()).as_str());
                let ghost x = ((i + lead) as int, m@);
                diags.push((i + lead, m));
                proof {
                    assert(index_diag_views(diags@) =~= ds0.push(x));
                    assert(ds0.push(x) + rest.0 =~= ds0 + (seq![x] + rest.0));
                    assert(selector_views(selectors@) == ss0);
                }
            },
        }
        if end < t.len() {
            i = end + 1;
        } else {
            proof {
                assert(index_diag_views(diags@) + Seq::<(int, Seq<char>)>::empty() =~= index_diag_views(diags@));
                assert(selector_views(selectors@) + Seq::<(Seq<PartModel>, Seq<Combinator>)>::empty() =~= selector_views(selectors@));
            }
            return (diags, selectors);
        }
    }
}

/// A prefix has at most the bytes of the whole text.
proof fn lemma_prefix_bytes(s: Seq<char>, i: int)
    requires
        0 <= i <= s.len(),
    ensures
        utf8_len(s.take(i)) <= utf8_len(s),
{
    assert(s =~= s.take(i) + s.skip(i));
    crate::text::lemma_encode_concat(s.take(i), s.skip(i));
}

/// One declaration of a rule as written: its property (trimmed), its value
/// text, and the byte offset where it starts.
#[derive(Debug, Clone, PartialEq, Eq)]
pub struct RawDeclaration {
    /// Property name, trimmed.
    pub property: String,
    /// Value text as written.
    pub value: String,
    /// Byte offset of the declaration.
    pub offset: usize,
}

/// What scanning a stylesheet finds, in source order.
#[derive(Debug, Clone, PartialEq, Eq)]
pub enum ScanItem {
    /// A diagnostic.
    Diagnostic(CssDiagnostic),
    /// A rule: its supported selectors (the others were reported just
    /// before it), its declarations, and the offset of a declaration
    /// without `:` that ended its block.
    Rule {
        /// Supported selectors in order.
        selectors: Vec<Selector>,
        /// Declarations in order.
        declarations: Vec<RawDeclaration>,
        /// Offset of a declaration without `:`.
        missing_colon: Option<usize>,
    },
    /// An `@media` block: its prelude and block texts and their offsets.
    Media {
        /// The text before the block, `@media` included.
        prelude: String,
        /// Byte offset of the prelude.
        prelude_offset: usize,
        /// The text inside the braces.
        block: String,
        /// Byte offset of the block text.
        block_offset: usize,
    },
}

/// A scan item as plain values.
pub enum ItemModel {
    /// Offset and message.
    Diagnostic(int, Seq<char>),
    /// Selectors, declarations (property, value, offset) and the offset of
    /// a declaration without `:`.
    Rule(Seq<(Seq<PartModel>, Seq<Combinator>)>, Seq<(Seq<char>, Seq<char>, int)>, Option<int>),
    /// Prelude, its offset, block text and its offset.
    Media(Seq<char>, int, Seq<char>, int),
}

/// Raw declarations as plain values.
pub open spec fn raw_decl_views(d: Seq<RawDeclaration>) -> Seq<(Seq<char>, Seq<char>, int)> {
    Seq::new(d.len(), |i: int| (d[i].property@, d[i].value@, d[i].offset as int))
}

/// `i` as plain values.
pub open spec fn item_model(i: ScanItem) -> ItemModel {
    match i {
        ScanItem::Diagnostic(d) => ItemModel::Diagnostic(d.offset as int, d.message@),
        ScanItem::Rule { selectors, declarations, missing_colon } => ItemModel::Rule(
            selector_views(selectors@),
            raw_decl_views(declarations@),
            match missing_colon {
                Some(m) => Some(m as int),
                None => None,
            },
        ),
        ScanItem::Media { prelude, prelude_offset, block, block_offset } => ItemModel::Media(
            prelude@,
            prelude_offset as int,
            block@,
            block_offset as int,
        ),
    }
}

/// Scan items as plain values.
pub open spec fn item_models(s: Seq<ScanItem>) -> Seq<ItemModel> {
    Seq::new(s.len(), |i: int| item_model(s[i]))
}

/// The byte offset of index `i` of `s`, for a text that starts at byte
/// `base`.
pub open spec fn offset_of(s: Seq<char>, base: int, i: int) -> int {
    base + utf8_len(s.take(i))
}

/// What the rule whose selector text is `s[c1..ob]` and whose block text
/// (starting at index `bs`) is `block` gives: an `@media` block as it is;
/// otherwise a diagnostic for each unsupported selector, then the rule.
pub open spec fn rule_items(s: Seq<char>, base: int, c1: int, ob: int, bs: int, block: Seq<char>) -> Seq<
    ItemModel,
> {
    let sel = s.subrange(c1, ob);
    if starts_with(trim_start(sel), "@media"@) {
        seq![ItemModel::Media(sel, offset_of(s, base, c1), block, offset_of(s, base, bs))]
    } else {
        let (ds, ss) = selector_list_from(sel, 0);
        let (decls, missing) = decls_from(block, 0);
        Seq::new(
            ds.len(),
            |k: int| ItemModel::Diagnostic(offset_of(s, base, c1 + ds[k].0), ds[k].1),
        ).push(
            ItemModel::Rule(
                ss,
                Seq::new(
                    decls.len(),
                    |k: int| (decls[k].0, decls[k].1, offset_of(s, base, bs + decls[k].2)),
                ),
                match missing {
                    Some(m) => Some(offset_of(s, base, bs + m)),
                    None => None,
                },
            ),
        )
    }
}

/// The items of a stylesheet text (starting at byte `base`) from index
/// `c` on: after whitespace and comments, each selector text up to `{` and
/// its block up to the matching `}`; text without `{` or a block without
/// its `}` is reported, as is an unterminated comment.
pub open spec fn scan_from(s: Seq<char>, base: int, c: int) -> Seq<ItemModel>
    decreases s.len() - c,
{
    if c < 0 || c >= s.len() {
        Seq::empty()
    } else {
        let (c1, open_comment) = skip_ignored_of(s, c);
        let comment = match open_comment {
            Some(j) => seq![ItemModel::Diagnostic(offset_of(s, base, j), "unterminated CSS comment"@)],
            None => Seq::empty(),
        };
        if c1 >= s.len() {
            comment
        } else {
            match find_char_from(s, '{', c1) {
                None => comment.push(
                    ItemModel::Diagnostic(
                        offset_of(s, base, c1),
                        "skipped CSS without declaration block"@,
                    ),
                ),
                Some(ob) => {
                    proof {
                        lemma_skip_ignored(s, c);
                        crate::text::lemma_find_char(s, '{', c1);
                        lemma_block_end(s, ob + 1, 0);
                    }
                    let bs = ob + 1;
                    let (block, next, unterminated) = match block_end(s, bs, 0) {
                        Some(e) => (s.subrange(bs, e), e + 1, Seq::<ItemModel>::empty()),
                        None => (
                            s.subrange(bs, s.len() as int),
                            s.len() as int,
                            seq![
                                ItemModel::Diagnostic(
                                    offset_of(s, base, bs),
                                    "unterminated CSS declaration block"@,
                                ),
                            ],
                        ),
                    };
                    comment + unterminated + rule_items(s, base, c1, ob, bs, block) + scan_from(
                        s,
                        base,
                        next,
                    )
                },
            }
        }
    }
}

/// Whether `table` holds the byte offset of every index of `v`.
pub open spec fn prefix_table(v: Seq<char>, table: Seq<usize>) -> bool {
    &&& table.len() == v.len() + 1
    &&& forall|i: int| 0 <= i <= v.len() ==> #[trigger] table[i] == utf8_len(v.take(i))
}

/// The byte offset of index `i`.
fn offset_at(v: &Vec<char>, table: &Vec<usize>, base: usize, i: usize) -> (r: usize)
    requires
        i <= v@.len(),
        prefix_table(v@, table@),
        base + utf8_len(v@) <= usize::MAX,
    ensures
        r == offset_of(v@, base as int, i as int),
{
    proof {
        lemma_prefix_bytes(v@, i as int);
    }
    base + table[i]
}

/// Appends what the rule with selector text `v[c1..ob]` and block text
/// `block` (from index `bs`) gives.
fn push_rule_items(
    items: &mut Vec<ScanItem>,
    v: &Vec<char>,
    table: &Vec<usize>,
    base: usize,
    c1: usize,
    ob: usize,
    bs: usize,
    block: &Vec<char>,
)
    requires
        c1 <= ob,
        bs == ob + 1,
        bs + block@.len() <= v@.len(),
        block@ == v@.subrange(bs as int, bs + block@.len()),
        prefix_table(v@, table@),
        base + utf8_len(v@) <= usize::MAX,
    ensures
        item_models(final(items)@) == item_models(old(items)@) + rule_items(
            v@,
            base as int,
            c1 as int,
            ob as int,
            bs as int,
            block@,
        ),
{
    let ghost start = item_models(items@);
    let sel = crate::text::slice_of(v, c1, ob);
    let j = crate::text::skip_ws_exec(&sel, 0, sel.len());
    proof {
        reveal_strlit("@media");
        assert(crate::text::occurs_at(sel@, "@media"@, j as int) == starts_with(trim_start(sel@), "@media"@)) by {
            let t = trim_start(sel@);
            assert(t == sel@.subrange(j as int, sel@.len() as int));
            if j + 6 <= sel@.len() {
                assert(t.take(6) =~= sel@.subrange(j as int, j + 6));
            }
        }
    }
    if crate::text::starts_with_at(&sel, j, "@media") {
        let item = ScanItem::Media {
            prelude: crate::text::string_of(&sel),
            prelude_offset: offset_at(v, table, base, c1),
            block: crate::text::string_of(block),
            block_offset: offset_at(v, table, base, bs),
        };
        items.push(item);
        proof {
            assert(item_models(items@) =~= start.push(item_model(item)));
            assert(rule_items(v@, base as int, c1 as int, ob as int, bs as int, block@) =~= seq![item_model(item)]);
        }
        return;
    }
    let (diags, selectors) = read_selector_list(&sel);
    let ghost ds = selector_list_from(sel@, 0).0;
    let mut k: usize = 0;
    while k < diags.len()
        invariant
            k <= diags@.len(),
            index_diag_views(diags@) == ds,
            forall|q: int| 0 <= q < diags@.len() ==> (#[trigger] diags@[q]).0 <= sel@.len(),
            sel@.len() == ob - c1,
            c1 <= ob < v@.len(),
            prefix_table(v@, table@),
            base + utf8_len(v@) <= usize::MAX,
            item_models(items@) == start + Seq::new(
                k as nat,
                |q: int| ItemModel::Diagnostic(offset_of(v@, base as int, c1 + ds[q].0), ds[q].1),
            ),
        decreases diags@.len() - k,
    {
        let d = &diags[k];
        proof {
            assert(index_diag_views(diags@)[k as int] == (d.0 as int, d.1@));
        }
        let item = ScanItem::Diagnostic(
            CssDiagnostic { offset: offset_at(v, table, base, c1 + d.0), message: d.1.clone() },
        );
        let ghost prev = item_models(items@);
        items.push(item);
        proof {
            assert(item_models(items@) =~= prev.push(item_model(item)));
            assert(start + Seq::new(
                (k + 1) as nat,
                |q: int| ItemModel::Diagnostic(offset_of(v@, base as int, c1 + ds[q].0), ds[q].1),
            ) =~= (start + Seq::new(
                k as nat,
                |q: int| ItemModel::Diagnostic(offset_of(v@, base as int, c1 + ds[q].0), ds[q].1),
            )).push(item_model(item)));
        }
        k += 1;
    }
    let vlen = v.len();
    let (decls, missing) = split_declarations(block);
    let ghost dd = decls_from(block@, 0).0;
    let mut raw: Vec<RawDeclaration> = Vec::new();
    let mut q: usize = 0;
    while q < decls.len()
        invariant
            q <= decls@.len(),
            decl_views(decls@) == dd,
            vlen == v@.len(),
            forall|i: int| 0 <= i < decls@.len() ==> (#[trigger] decls@[i]).2 < block@.len(),
            bs + block@.len() <= v@.len(),
            prefix_table(v@, table@),
            base + utf8_len(v@) <= usize::MAX,
            raw_decl_views(raw@) == Seq::new(
                q as nat,
                |i: int| (dd[i].0, dd[i].1, offset_of(v@, base as int, bs + dd[i].2)),
            ),
        decreases decls@.len() - q,
    {
        let d = &decls[q];
        proof {
            assert(decl_views(decls@)[q as int] == (d.0@, d.1@, d.2 as int));
            assert(decls@[q as int].2 < block@.len());
        }
        let r = RawDeclaration {
            property: crate::text::string_of(&d.0),
            value: crate::text::string_of(&d.1),
            offset: offset_at(v, table, base, bs + d.2),
        };
        let ghost prev = raw_decl_views(raw@);
        raw.push(r);
        proof {
            assert(raw_decl_views(raw@) =~= prev.push((r.property@, r.value@, r.offset as int)));
            assert(raw_decl_views(raw@) =~= Seq::new(
                (q + 1) as nat,
                |i: int| (dd[i].0, dd[i].1, offset_of(v@, base as int, bs + dd[i].2)),
            ));
        }
        q += 1;
    }
    let missing_colon = match missing {
        Some(m) => Some(offset_at(v, table, base, bs + m)),
        None => None,
    };
    let item = ScanItem::Rule { selectors, declarations: raw, missing_colon };
    let ghost mid = item_models(items@);
    items.push(item);
    proof {
        assert(item_models(items@) =~= mid.push(item_model(item)));
        assert(raw_decl_views(raw@) =~= Seq::new(
            dd.len(),
            |i: int| (dd[i].0, dd[i].1, offset_of(v@, base as int, bs + dd[i].2)),
        ));
        let want = rule_items(v@, base as int, c1 as int, ob as int, bs as int, block@);
        assert(mid == start + Seq::new(
            ds.len(),
            |q: int| ItemModel::Diagnostic(offset_of(v@, base as int, c1 + ds[q].0), ds[q].1),
        ));
        assert(item_models(items@) =~= start + want);
    }
}

/// Scans a stylesheet text that starts at byte `base` of its source.
pub fn scan_stylesheet(input: &str, base: usize) -> (r: Vec<ScanItem>)
    requires
        base + utf8_len(input@) <= usize::MAX,
    ensures
        item_models(r@) == scan_from(input@, base as int, 0),
{
    let v = chars_of(input);
    let table = byte_prefixes(&v);
    let mut items: Vec<ScanItem> = Vec::new();
    let mut c: usize = 0;
    proof {
        assert(item_models(items@) + scan_from(v@, base as int, 0) =~= scan_from(v@, base as int, 0));
    }
    loop
        invariant
            c <= v@.len(),
            v@ == input@,
            base + utf8_len(v@) <= usize::MAX,
            prefix_table(v@, table@),
            item_models(items@) + scan_from(v@, base as int, c as int) == scan_from(v@, base as int, 0),
        decreases v@.len() - c,
    {
        let ghost before = item_models(items@);
        if c >= v.len() {
            proof {
                assert(before + Seq::<ItemModel>::empty() =~= before);
            }
            return items;
        }
        let (c1, open_comment) = skip_ignored(&v, c);
        proof {
            lemma_skip_ignored(v@, c as int);
        }
        match open_comment {
            Some(j) => {
                let item = ScanItem::Diagnostic(
                    CssDiagnostic {
                        offset: offset_at(&v, &table, base, j),
                        message: crate::text::string_from("unterminated CSS comment"),
                    },
                );
                items.push(item);
            },
            None => {},
        }
        let ghost comment = match skip_ignored_of(v@, c as int).1 {
            Some(j) => seq![ItemModel::Diagnostic(offset_of(v@, base as int, j), "unterminated CSS comment"@)],
            None => Seq::<ItemModel>::empty(),
        };
        proof {
            assert(item_models(items@) =~= before + comment);
        }
        if c1 >= v.len() {
            proof {
                assert(before + comment + Seq::<ItemModel>::empty() =~= before + comment);
            }
            return items;
        }
        match crate::text::find_char_exec(&v, '{', c1) {
            None => {
                let item = ScanItem::Diagnostic(
                    CssDiagnostic {
                        offset: offset_at(&v, &table, base, c1),
                        message: crate::text::string_from("skipped CSS without declaration block"),
                    },
                );
                items.push(item);
                proof {
                    assert(item_models(items@) =~= before + comment.push(item_model(item)));
                }
                return items;
            },
            Some(ob) => {
                proof {
                    crate::text::lemma_find_char(v@, '{', c1 as int);
                    lemma_block_end(v@, ob + 1, 0);
                }
                let bs = ob + 1;
                let (block, next) = match find_block_end(&v, bs) {
                    Some(e) => (crate::text::slice_of(&v, bs, e), e + 1),
                    None => {
                        let item = ScanItem::Diagnostic(
                            CssDiagnostic {
                                offset: offset_at(&v, &table, base, bs),
                                message: crate::text::string_from("unterminated CSS declaration block"),
                            },
                        );
                        items.push(item);
                        (crate::text::slice_of(&v, bs, v.len()), v.len())
                    },
                };
                let ghost unterminated = match block_end(v@, bs as int, 0) {
                    Some(e) => Seq::<ItemModel>::empty(),
                    None => seq![
                        ItemModel::Diagnostic(
                            offset_of(v@, base as int, bs as int),
                            "unterminated CSS declaration block"@,
                        ),
                    ],
                };
                proof {
                    assert(item_models(items@) =~= before + comment + unterminated);
                    assert(block@ == v@.subrange(bs as int, bs + block@.len()));
                }
                push_rule_items(&mut items, &v, &table, base, c1, ob, bs, &block);
                proof {
                    let here = rule_items(v@, base as int, c1 as int, ob as int, bs as int, block@);
                    assert(scan_from(v@, base as int, c as int) == comment + unterminated + here + scan_from(
                        v@,
                        base as int,
                        next as int,
                    ));
                    assert(item_models(items@) + scan_from(v@, base as int, next as int) =~= before + (
                    comment + unterminated + here + scan_from(v@, base as int, next as int)));
                }
                c = next;
            },
        }
    }
}

/// Whether `t[i..]` reads the word `and` (in any ASCII case) with
/// whitespace, or an end of the text, on both sides.
pub open spec fn and_at(t: Seq<char>, i: int) -> bool {
    &&& 0 <= i
    &&& i + 3 <= t.len()
    &&& lower(t.subrange(i, i + 3)) == "and"@
    &&& (i == 0 || is_ws(t[i - 1]))
    &&& (i + 3 == t.len() || is_ws(t[i + 3]))
}

/// Whether the first three bytes from index `i` (or all that is left of
/// the text, if that is less) end on a character boundary.
pub open spec fn three_bytes_whole(t: Seq<char>, i: int) -> bool {
    ||| i + 1 >= t.len()
    ||| char_utf8_len(t[i + 1]) == 2
    ||| (char_utf8_len(t[i + 1]) == 1 && (i + 2 >= t.len() || char_utf8_len(t[i + 2]) == 1))
}

/// `pieces` after `done`, if there are pieces.
pub open spec fn after_pieces(done: Seq<Seq<char>>, pieces: Option<Seq<Seq<char>>>) -> Option<
    Seq<Seq<char>>,
> {
    match pieces {
        Some(rest) => Some(done + rest),
        None => None,
    }
}

/// The pieces of a media query text between the words `and` that stand
/// outside parentheses, scanning from index `i` with the current piece
/// starting at `start` and `depth` parentheses open. `None` where an `a`
/// outside parentheses is followed by bytes that the three-byte look at
/// it would cut inside a character.
pub open spec fn and_pieces_from(t: Seq<char>, i: int, start: int, depth: nat) -> Option<
    Seq<Seq<char>>,
>
    decreases t.len() - i,
{
    if i < 0 || i >= t.len() {
        Some(seq![t.subrange(start, t.len() as int)])
    } else if t[i] == '(' {
        and_pieces_from(t, i + 1, start, depth + 1)
    } else if t[i] == ')' {
        and_pieces_from(
            t,
            i + 1,
            start,
            if depth == 0 {
                0
            } else {
                (depth - 1) as nat
            },
        )
    } else if (t[i] == 'a' || t[i] == 'A') && depth == 0 {
        if !three_bytes_whole(t, i) {
            None
        } else if and_at(t, i) {
            after_pieces(seq![t.subrange(start, i)], and_pieces_from(t, i + 1, i + 3, depth))
        } else {
            and_pieces_from(t, i + 1, start, depth)
        }
    } else {
        and_pieces_from(t, i + 1, start, depth)
    }
}

/// There is always at least one piece.
proof fn lemma_and_pieces_nonempty(t: Seq<char>, i: int, start: int, depth: nat)
    ensures
        and_pieces_from(t, i, start, depth) matches Some(r) ==> r.len() >= 1,
    decreases t.len() - i,
{
    if 0 <= i < t.len() {
        let d = if depth == 0 {
            0
        } else {
            (depth - 1) as nat
        };
        lemma_and_pieces_nonempty(t, i + 1, start, depth + 1);
        lemma_and_pieces_nonempty(t, i + 1, start, d);
        lemma_and_pieces_nonempty(t, i + 1, i + 3, depth);
        lemma_and_pieces_nonempty(t, i + 1, start, depth);
    }
}

/// Texts of character vectors.
pub open spec fn texts_of(v: Seq<Vec<char>>) -> Seq<Seq<char>> {
    Seq::new(v.len(), |k: int| v[k]@)
}

/// Whether `t[i..]` is the word `and` standing alone.
fn and_word_at(t: &Vec<char>, i: usize) -> (b: bool)
    requires
        i < t@.len(),
    ensures
        b == and_at(t@, i as int),
{
    if t.len() - i < 3 {
        return false;
    }
    let w = crate::text::lower_vec(&crate::text::slice_of(t, i, i + 3));
    if !crate::text::vec_eq_str(&w, "and") {
        return false;
    }
    let before = i == 0 || crate::text::char_is_ws(t[i - 1]);
    let after = i + 3 == t.len() || crate::text::char_is_ws(t[i + 3]);
    before && after
}

/// Whether the three-byte look at index `i` ends on a character boundary.
fn three_bytes_whole_at(t: &Vec<char>, i: usize) -> (b: bool)
    requires
        i < t@.len(),
    ensures
        b == three_bytes_whole(t@, i as int),
{
    if t.len() - i <= 1 {
        return true;
    }
    let n1 = crate::text::char_len_utf8(t[i + 1]);
    if n1 == 2 {
        return true;
    }
    n1 == 1 && (t.len() - i <= 2 || crate::text::char_len_utf8(t[i + 2]) == 1)
}

/// Splits a media query text into its pieces between the words `and`.
fn split_and_pieces(t: &Vec<char>) -> (r: Option<Vec<Vec<char>>>)
    ensures
        match r {
            Some(v) => and_pieces_from(t@, 0, 0, 0) == Some(texts_of(v@)),
            None => and_pieces_from(t@, 0, 0, 0) is None,
        },
{
    let mut out: Vec<Vec<char>> = Vec::new();
    let mut start: usize = 0;
    let mut depth: usize = 0;
    let mut i: usize = 0;
    proof {
        assert(texts_of(out@) =~= Seq::<Seq<char>>::empty());
        match and_pieces_from(t@, 0, 0, 0) {
            Some(r) => assert(Seq::<Seq<char>>::empty() + r =~= r),
            None => {},
        }
    }
    while i < t.len()
        invariant
            i <= t@.len(),
            start <= t@.len(),
            depth <= i,
            forall|j: int| i <= j < start ==> #[trigger] t@[j] != 'a' && t@[j] != 'A',
            and_pieces_from(t@, 0, 0, 0) == after_pieces(
                texts_of(out@),
                and_pieces_from(t@, i as int, start as int, depth as nat),
            ),
        decreases t@.len() - i,
    {
        let c = t[i];
        if c == '(' {
            depth = depth + 1;
        } else if c == ')' {
            if depth > 0 {
                depth = depth - 1;
            }
        } else if (c == 'a' || c == 'A') && depth == 0 {
            if !three_bytes_whole_at(t, i) {
                return None;
            }
            if and_word_at(t, i) {
                proof {
                    reveal_strlit("and");
                    assert(lower(t@.subrange(i as int, i + 3))[1] == 'n');
                    assert(lower(t@.subrange(i as int, i + 3))[2] == 'd');
                }
                let piece = crate::text::slice_of(t, start, i);
                let ghost done = texts_of(out@);
                out.push(piece);
                proof {
                    assert(texts_of(out@) =~= done + seq![piece@]);
                    match and_pieces_from(t@, i + 1, i + 3, 0) {
                        Some(rest) => assert(done + (seq![piece@] + rest) =~= done + seq![piece@] + rest),
                        None => {},
                    }
                }
                start = i + 3;
            }
        }
        i += 1;
    }
    let last = crate::text::slice_of(t, start, t.len());
    let ghost done = texts_of(out@);
    out.push(last);
    proof {
        assert(texts_of(out@) =~= done + seq![last@]);
    }
    Some(out)
}

/// A media feature as written: the value text of a width feature, or an
/// orientation.
#[derive(Debug, Clone, PartialEq, Eq)]
pub enum MediaFeatureText {
    /// `(min-width: value)`
    MinWidth(String),
    /// `(max-width: value)`
    MaxWidth(String),
    /// `(width: value)`
    Width(String),
    /// `(orientation: portrait|landscape)`
    Orientation(Orientation),
}

/// A media feature as written, as plain values.
pub enum FeatureTextModel {
    /// Value text of `min-width`.
    MinWidth(Seq<char>),
    /// Value text of `max-width`.
    MaxWidth(Seq<char>),
    /// Value text of `width`.
    Width(Seq<char>),
    /// An orientation.
    Orientation(Orientation),
}

/// `f` as plain values.
pub open spec fn feature_text_model(f: MediaFeatureText) -> FeatureTextModel {
    match f {
        MediaFeatureText::MinWidth(v) => FeatureTextModel::MinWidth(v@),
        MediaFeatureText::MaxWidth(v) => FeatureTextModel::MaxWidth(v@),
        MediaFeatureText::Width(v) => FeatureTextModel::Width(v@),
        MediaFeatureText::Orientation(o) => FeatureTextModel::Orientation(o),
    }
}

/// Features as plain values.
pub open spec fn feature_text_models(f: Seq<MediaFeatureText>) -> Seq<FeatureTextModel> {
    Seq::new(f.len(), |k: int| feature_text_model(f[k]))
}

/// The name (trimmed and ASCII-lowercased) and the value (trimmed) of a
/// feature written `(name: value)`.
pub open spec fn feature_parts(part: Seq<char>) -> Option<(Seq<char>, Seq<char>)> {
    let p = trim(part);
    if p.len() >= 2 && p[0] == '(' && p[p.len() - 1] == ')' {
        let inner = trim(p.subrange(1, p.len() - 1));
        match find_char_from(inner, ':', 0) {
            Some(c) => Some(
                (lower(trim(inner.subrange(0, c))), trim(inner.subrange(c + 1, inner.len() as int))),
            ),
            None => None,
        }
    } else {
        None
    }
}

/// The supported feature that `part` writes.
pub open spec fn feature_text(part: Seq<char>) -> Option<FeatureTextModel> {
    match feature_parts(part) {
        Some((name, value)) => if name == "min-width"@ {
            Some(FeatureTextModel::MinWidth(value))
        } else if name == "max-width"@ {
            Some(FeatureTextModel::MaxWidth(value))
        } else if name == "width"@ {
            Some(FeatureTextModel::Width(value))
        } else if name == "orientation"@ {
            match orientation_of(keyword(value)) {
                Some(o) => Some(FeatureTextModel::Orientation(o)),
                None => None,
            }
        } else {
            None
        },
        None => None,
    }
}

/// The features of the pieces from `k` on: `None` if one of them is empty
/// or not a supported feature.
pub open spec fn features_from(parts: Seq<Seq<char>>, k: int) -> Option<Seq<FeatureTextModel>>
    decreases parts.len() - k,
{
    if k < 0 || k >= parts.len() {
        Some(Seq::empty())
    } else {
        let p = trim(parts[k]);
        if p.len() == 0 {
            None
        } else {
            match (feature_text(p), features_from(parts, k + 1)) {
                (Some(f), Some(rest)) => Some(seq![f] + rest),
                _ => None,
            }
        }
    }
}

/// Media type keywords.
pub open spec fn media_type_of(k: Seq<char>) -> Option<MediaType> {
    if k == "all"@ {
        Some(MediaType::All)
    } else if k == "screen"@ {
        Some(MediaType::Screen)
    } else {
        None
    }
}

/// What a media query text says: its media type (`all` unless the first
/// piece names one) and its features.
pub open spec fn media_query_text(s: Seq<char>) -> Option<(MediaType, Seq<FeatureTextModel>)> {
    let t = trim(s);
    if t.len() == 0 {
        None
    } else {
        match and_pieces_from(t, 0, 0, 0) {
            None => None,
            Some(parts) => {
                let first = trim(parts[0]);
                if first.len() == 0 {
                    None
                } else if first[0] != '(' {
                    match (media_type_of(lower(first)), features_from(parts, 1)) {
                        (Some(m), Some(fs)) => Some((m, fs)),
                        _ => None,
                    }
                } else {
                    match features_from(parts, 0) {
                        Some(fs) => Some((MediaType::All, fs)),
                        None => None,
                    }
                }
            },
        }
    }
}

/// Whether reading a media query text looks at no three bytes that end
/// inside a character.
pub open spec fn media_text_readable(s: Seq<char>) -> bool {
    and_pieces_from(trim(s), 0, 0, 0) is Some
}

/// Whether a media query text can be read (see `media_text_readable`).
pub fn media_text_is_readable(input: &str) -> (r: bool)
    ensures
        r == media_text_readable(input@),
{
    let t = crate::text::trimmed_chars(input);
    split_and_pieces(&t).is_some()
}

/// Reads one feature.
fn read_feature(part: &Vec<char>) -> (r: Option<MediaFeatureText>)
    ensures
        match r {
            Some(f) => feature_text(part@) == Some(feature_text_model(f)),
            None => feature_text(part@) is None,
        },
{
    let p = crate::text::trim_vec(part);
    if p.len() < 2 || p[0] != '(' || p[p.len() - 1] != ')' {
        return None;
    }
    let inner = crate::text::trim_vec(&crate::text::slice_of(&p, 1, p.len() - 1));
    proof {
        crate::text::lemma_find_char(inner@, ':', 0);
    }
    let c = match crate::text::find_char_exec(&inner, ':', 0) {
        Some(c) => c,
        None => {
            return None;
        },
    };
    let name = crate::text::lower_vec(&crate::text::trim_vec(&crate::text::slice_of(&inner, 0, c)));
    let value = crate::text::string_of(&crate::text::trim_vec(&crate::text::slice_of(&inner, c + 1, inner.len())));
    if crate::text::vec_eq_str(&name, "min-width") {
        Some(MediaFeatureText::MinWidth(value))
    } else if crate::text::vec_eq_str(&name, "max-width") {
        Some(MediaFeatureText::MaxWidth(value))
    } else if crate::text::vec_eq_str(&name, "width") {
        Some(MediaFeatureText::Width(value))
    } else if crate::text::vec_eq_str(&name, "orientation") {
        match crate::css::parse_orientation(value.as_str()) {
            Some(o) => Some(MediaFeatureText::Orientation(o)),
            None => None,
        }
    } else {
        None
    }
}

/// Reads a media query text (what follows `@media`): its media type and
/// its features as written. Width values are left as text.
pub fn media_query_parts(input: &str) -> (r: Option<(MediaType, Vec<MediaFeatureText>)>)
    requires
        media_text_readable(input@),
    ensures
        match r {
            Some(q) => media_query_text(input@) == Some((q.0, feature_text_models(q.1@))),
            None => media_query_text(input@) is None,
        },
{
    let t = crate::text::trimmed_chars(input);
    if t.len() == 0 {
        return None;
    }
    let parts = match split_and_pieces(&t) {
        Some(p) => p,
        None => {
            return None;
        },
    };
    let ghost pv = texts_of(parts@);
    proof {
        lemma_and_pieces_nonempty(t@, 0, 0, 0);
        assert(pv[0] == parts@[0]@);
    }
    let first = crate::text::trim_vec(&parts[0]);
    if first.len() == 0 {
        return None;
    }
    let mut media_type = MediaType::All;
    let mut k: usize = 0;
    if first[0] != '(' {
        let name = crate::text::lower_vec(&first);
        if crate::text::vec_eq_str(&name, "all") {
            media_type = MediaType::All;
        } else if crate::text::vec_eq_str(&name, "screen") {
            media_type = MediaType::Screen;
        } else {
            return None;
        }
        k = 1;
    }
    let ghost from = k as int;
    let mut features: Vec<MediaFeatureText> = Vec::new();
    proof {
        match features_from(pv, from) {
            Some(fs) => assert(Seq::<FeatureTextModel>::empty() + fs =~= fs),
            None => {},
        }
        assert(feature_text_models(features@) =~= Seq::<FeatureTextModel>::empty());
        assert(media_query_text(input@) == match features_from(pv, from) {
            Some(fs) => Some((media_type, fs)),
            None => None,
        });
    }
    while k < parts.len()
        invariant
            pv == texts_of(parts@),
            k <= parts@.len(),
            media_query_text(input@) == match features_from(pv, from) {
                Some(fs) => Some((media_type, fs)),
                None => None,
            },
            features_from(pv, from) == match features_from(pv, k as int) {
                Some(rest) => Some(feature_text_models(features@) + rest),
                None => None,
            },
        decreases parts@.len() - k,
    {
        proof {
            assert(pv[k as int] == parts@[k as int]@);
        }
        let p = crate::text::trim_vec(&parts[k]);
        if p.len() == 0 {
            return None;
        }
        let f = match read_feature(&p) {
            Some(f) => f,
            None => {
                return None;
            },
        };
        let ghost done = feature_text_models(features@);
        features.push(f);
        proof {
            assert(feature_text_models(features@) =~= done.push(feature_text_model(f)));
            match features_from(pv, k + 1) {
                Some(rest) => {
                    assert(done + (seq![feature_text_model(f)] + rest) =~= done.push(feature_text_model(f)) + rest);
                },
                None => {},
            }
        }
        k += 1;
    }
    proof {
        assert(feature_text_models(features@) + Seq::<FeatureTextModel>::empty() =~= feature_text_models(features@));
    }
    Some((media_type, features))
}

/// The declarations of a declaration block `s` that starts at byte `base`:
/// each property, value text and byte offset, and the byte offset of a
/// declaration without `:` that ended the block.
pub open spec fn declarations_of(s: Seq<char>, base: int) -> (
    Seq<(Seq<char>, Seq<char>, int)>,
    Option<int>,
) {
    let (decls, missing) = decls_from(s, 0);
    (
        Seq::new(decls.len(), |k: int| (decls[k].0, decls[k].1, offset_of(s, base, decls[k].2))),
        match missing {
            Some(m) => Some(offset_of(s, base, m)),
            None => None,
        },
    )
}

/// Scans a declaration block (such as a `style` attribute) that starts at
/// byte `base` of its source.
pub fn scan_declarations(input: &str, base: usize) -> (r: (Vec<RawDeclaration>, Option<usize>))
    requires
        base + utf8_len(input@) <= usize::MAX,
    ensures
        raw_decl_views(r.0@) == declarations_of(input@, base as int).0,
        match r.1 {
            Some(m) => declarations_of(input@, base as int).1 == Some(m as int),
            None => declarations_of(input@, base as int).1 is None,
        },
{
    let v = chars_of(input);
    let table = byte_prefixes(&v);
    let (decls, missing) = split_declarations(&v);
    let ghost dd = decls_from(v@, 0).0;
    let mut raw: Vec<RawDeclaration> = Vec::new();
    let mut q: usize = 0;
    while q < decls.len()
        invariant
            q <= decls@.len(),
            v@ == input@,
            decl_views(decls@) == dd,
            forall|i: int| 0 <= i < decls@.len() ==> (#[trigger] decls@[i]).2 < v@.len(),
            prefix_table(v@, table@),
            base + utf8_len(v@) <= usize::MAX,
            raw_decl_views(raw@) == Seq::new(
                q as nat,
                |i: int| (dd[i].0, dd[i].1, offset_of(v@, base as int, dd[i].2)),
            ),
        decreases decls@.len() - q,
    {
        let d = &decls[q];
        proof {
            assert(decl_views(decls@)[q as int] == (d.0@, d.1@, d.2 as int));
            assert(decls@[q as int].2 < v@.len());
        }
        let r = RawDeclaration {
            property: crate::text::string_of(&d.0),
            value: crate::text::string_of(&d.1),
            offset: offset_at(&v, &table, base, d.2),
        };
        let ghost prev = raw_decl_views(raw@);
        raw.push(r);
        proof {
            assert(raw_decl_views(raw@) =~= prev.push((r.property@, r.value@, r.offset as int)));
            assert(raw_decl_views(raw@) =~= Seq::new(
                (q + 1) as nat,
                |i: int| (dd[i].0, dd[i].1, offset_of(v@, base as int, dd[i].2)),
            ));
        }
        q += 1;
    }
    let missing_colon = match missing {
        Some(m) => Some(offset_at(&v, &table, base, m)),
        None => None,
    };
    proof {
        assert(raw_decl_views(raw@) =~= declarations_of(input@, base as int).0);
    }
    (raw, missing_colon)
}

} // verus!
