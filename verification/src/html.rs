//! HTML tokenization, DOM parsing, and visible-text extraction.
//!
//! The tokenizer and tree builder are stated as spec functions over the
//! input's characters; the executable parser is proved to compute them.

use vstd::prelude::*;
use crate::dom::{
    models, node_model, attr_insert, AttrPairs, AttributeMap, Document, ElementData, KindModel, Node, NodeKind,
    NodeModel,
};
use crate::error::{WebbyError, WebbyResult};
use crate::text::{
    vec_eq_str, char_is_alnum, char_is_ws, chars_of, is_alnum, is_ws, lemma_skip_ws, lemma_skip_ws_back,
    lower, lower_vec, replace_all, replace_all_exec, skip_ws, skip_ws_back, skip_ws_back_exec,
    skip_ws_exec, slice_of, string_of, trim, trim_vec,
};

verus! {

/// Maximum HTML source bytes accepted by the parser.
pub const MAX_HTML_INPUT_BYTES: usize = 4194304;

/// Maximum DOM nodes produced by one parsed document, including the
/// document root.
pub const MAX_DOM_NODES: usize = 16384;

/// Character entities decoded in text and attribute values, applied in
/// this order: `&lt;`, `&gt;`, `&amp;`, `&quot;`, `&#39;`.
pub open spec fn decode_entities(s: Seq<char>) -> Seq<char> {
    replace_all(
        replace_all(
            replace_all(replace_all(replace_all(s, "&lt;"@, "<"@), "&gt;"@, ">"@), "&amp;"@, "&"@),
            "&quot;"@,
            "\""@,
        ),
        "&#39;"@,
        "'"@,
    )
}

/// Decodes the supported character entities.
pub fn decode_entities_exec(v: &Vec<char>) -> (out: Vec<char>)
    ensures
        out@ == decode_entities(v@),
{
    let a = replace_all_exec(v, "&lt;", "<");
    let b = replace_all_exec(&a, "&gt;", ">");
    let c = replace_all_exec(&b, "&amp;", "&");
    let d = replace_all_exec(&c, "&quot;", "\"");
    replace_all_exec(&d, "&#39;", "'")
}

/// Whether `s` holds no `&`.
pub open spec fn amp_free(s: Seq<char>) -> bool {
    forall|i: int| 0 <= i < s.len() ==> #[trigger] s[i] != '&'
}

/// Text without `&` has nothing to replace for a pattern starting with `&`.
proof fn lemma_replace_amp_free(s: Seq<char>, p: Seq<char>, r: Seq<char>)
    requires
        amp_free(s),
        p.len() > 0,
        p[0] == '&',
    ensures
        replace_all(s, p, r) == s,
    decreases s.len(),
{
    if s.len() > 0 {
        if crate::text::starts_with(s, p) {
            assert(s.take(p.len() as int)[0] == s[0]);
        }
        lemma_replace_amp_free(s.drop_first(), p, r);
        assert(seq![s[0]] + s.drop_first() =~= s);
    }
}

/// Replacing a pattern starting with `&` leaves a leading text without `&`
/// as it is.
proof fn lemma_replace_amp_prefix(x: Seq<char>, z: Seq<char>, p: Seq<char>, r: Seq<char>)
    requires
        amp_free(x),
        p.len() > 0,
        p[0] == '&',
    ensures
        replace_all(x + z, p, r) == x + replace_all(z, p, r),
    decreases x.len(),
{
    if x.len() > 0 {
        let s = x + z;
        assert(s[0] == x[0]);
        if crate::text::starts_with(s, p) {
            assert(s.take(p.len() as int)[0] == s[0]);
        }
        assert(s.drop_first() =~= x.drop_first() + z);
        lemma_replace_amp_prefix(x.drop_first(), z, p, r);
        assert(seq![x[0]] + (x.drop_first() + replace_all(z, p, r)) =~= x + replace_all(z, p, r));
    } else {
        assert(x + z =~= z);
        assert(x + replace_all(z, p, r) =~= replace_all(z, p, r));
    }
}

/// One decoding step on `x`, an entity `e` and `y` (no `&` in `x` and
/// `y`): the entity becomes `r` when the pattern is the entity, and stays
/// when the pattern differs from it at position `j`.
proof fn lemma_entity_step(x: Seq<char>, e: Seq<char>, y: Seq<char>, p: Seq<char>, r: Seq<char>, j: int)
    requires
        amp_free(x),
        amp_free(y),
        e.len() >= 2,
        e[0] == '&',
        amp_free(e.drop_first()),
        p.len() >= 2,
        p[0] == '&',
        p == e || (1 <= j < e.len() && j < p.len() && e[j] != p[j]),
    ensures
        p == e ==> replace_all(x + e + y, p, r) == x + r + replace_all(y, p, r),
        p != e ==> replace_all(x + e + y, p, r) == x + e + y,
{
    assert(x + e + y =~= x + (e + y));
    lemma_replace_amp_prefix(x, e + y, p, r);
    let z = e + y;
    assert(z[0] == '&');
    if p == e {
        assert(z.take(p.len() as int) =~= e);
        assert(z.skip(p.len() as int) =~= y);
        assert(x + (r + replace_all(y, p, r)) =~= x + r + replace_all(y, p, r));
    } else {
        if crate::text::starts_with(z, p) {
            assert(z.take(p.len() as int)[j] == z[j]);
            assert(z[j] == e[j]);
        }
        let rest = z.drop_first();
        assert(amp_free(rest)) by {
            assert forall|i: int| 0 <= i < rest.len() implies #[trigger] rest[i] != '&' by {
                if i + 1 < e.len() {
                    assert(rest[i] == e.drop_first()[i]);
                } else {
                    assert(rest[i] == y[i + 1 - e.len()]);
                }
            }
        }
        lemma_replace_amp_free(rest, p, r);
        assert(seq![z[0]] + rest =~= z);
        assert(x + z =~= x + e + y);
    }
}

/// Decoding turns each supported entity standing between texts without
/// `&` into its character, and leaves those texts as they are: `&lt;` into
/// `<`, `&gt;` into `>`, `&quot;` into `"`, `&#39;` into `'`, and `&amp;`
/// into `&` (when the text after it has no `;`, so that no entity forms
/// anew).
pub proof fn lemma_decode_entity(x: Seq<char>, y: Seq<char>)
    requires
        amp_free(x),
        amp_free(y),
    ensures
        decode_entities(x + "&lt;"@ + y) == x + "<"@ + y,
        decode_entities(x + "&gt;"@ + y) == x + ">"@ + y,
        decode_entities(x + "&quot;"@ + y) == x + "\""@ + y,
        decode_entities(x + "&#39;"@ + y) == x + "'"@ + y,
        (forall|i: int| 0 <= i < y.len() ==> #[trigger] y[i] != ';') ==> decode_entities(x + "&amp;"@ + y) == x
            + "&"@ + y,
{
    reveal_strlit("&lt;");
    reveal_strlit("&gt;");
    reveal_strlit("&amp;");
    reveal_strlit("&quot;");
    reveal_strlit("&#39;");
    reveal_strlit("<");
    reveal_strlit(">");
    reveal_strlit("&");
    reveal_strlit("\"");
    reveal_strlit("'");
    let lt = "&lt;"@;
    let gt = "&gt;"@;
    let amp = "&amp;"@;
    let quot = "&quot;"@;
    let apos = "&#39;"@;
    assert(amp_free(lt.drop_first()) && amp_free(gt.drop_first()) && amp_free(amp.drop_first())
        && amp_free(quot.drop_first()) && amp_free(apos.drop_first())) by {
        assert(lt.drop_first() =~= seq!['l', 't', ';']);
        assert(gt.drop_first() =~= seq!['g', 't', ';']);
        assert(amp.drop_first() =~= seq!['a', 'm', 'p', ';']);
        assert(quot.drop_first() =~= seq!['q', 'u', 'o', 't', ';']);
        assert(apos.drop_first() =~= seq!['#', '3', '9', ';']);
    }
    assert(amp_free("<"@) && amp_free(">"@) && amp_free("\""@) && amp_free("'"@));
    // each entity passes the other patterns and meets its own
    lemma_replace_amp_free(y, lt, "<"@);
    lemma_replace_amp_free(y, gt, ">"@);
    lemma_replace_amp_free(y, amp, "&"@);
    lemma_replace_amp_free(y, quot, "\""@);
    lemma_replace_amp_free(y, apos, "'"@);
    // &#39;
    lemma_entity_step(x, apos, y, lt, "<"@, 1);
    lemma_entity_step(x, apos, y, gt, ">"@, 1);
    lemma_entity_step(x, apos, y, amp, "&"@, 1);
    lemma_entity_step(x, apos, y, quot, "\""@, 1);
    lemma_entity_step(x, apos, y, apos, "'"@, 1);
    // &lt;
    lemma_entity_step(x, lt, y, lt, "<"@, 1);
    let a = x + "<"@ + y;
    assert(amp_free(a));
    lemma_replace_amp_free(a, gt, ">"@);
    lemma_replace_amp_free(a, amp, "&"@);
    lemma_replace_amp_free(a, quot, "\""@);
    lemma_replace_amp_free(a, apos, "'"@);
    // &gt;
    lemma_entity_step(x, gt, y, lt, "<"@, 1);
    lemma_entity_step(x, gt, y, gt, ">"@, 1);
    let b = x + ">"@ + y;
    assert(amp_free(b));
    lemma_replace_amp_free(b, amp, "&"@);
    lemma_replace_amp_free(b, quot, "\""@);
    lemma_replace_amp_free(b, apos, "'"@);
    // &quot;
    lemma_entity_step(x, quot, y, lt, "<"@, 1);
    lemma_entity_step(x, quot, y, gt, ">"@, 1);
    lemma_entity_step(x, quot, y, amp, "&"@, 1);
    lemma_entity_step(x, quot, y, quot, "\""@, 1);
    let c = x + "\""@ + y;
    assert(amp_free(c));
    lemma_replace_amp_free(c, apos, "'"@);
    // &amp;
    lemma_entity_step(x, amp, y, lt, "<"@, 1);
    lemma_entity_step(x, amp, y, gt, ">"@, 1);
    lemma_entity_step(x, amp, y, amp, "&"@, 1);
    if forall|i: int| 0 <= i < y.len() ==> #[trigger] y[i] != ';' {
        lemma_amp_then_no_entity(x, y, quot, "\""@);
        lemma_amp_then_no_entity(x, y, apos, "'"@);
    }
}

/// Text without `<` is one text token, its entities decoded, and no
/// diagnostic; so `it&#39;s` between texts without `&` or `<` reads as
/// `it's`.
pub proof fn lemma_plain_text_tokens(x: Seq<char>, y: Seq<char>)
    requires
        amp_free(x),
        amp_free(y),
        forall|i: int| 0 <= i < x.len() ==> #[trigger] x[i] != '<',
        forall|i: int| 0 <= i < y.len() ==> #[trigger] y[i] != '<',
    ensures
        tokenize(x + "&#39;"@ + y) == (seq![TokenModel::Text(x + "'"@ + y)], Seq::<DiagModel>::empty()),
{
    reveal_strlit("&#39;");
    let s = x + "&#39;"@ + y;
    assert forall|i: int| 0 <= i < s.len() implies #[trigger] s[i] != '<' by {
        if i < x.len() {
            assert(s[i] == x[i]);
        } else if i < x.len() + 5 {
            assert(s[i] == "&#39;"@[i - x.len()]);
        } else {
            assert(s[i] == y[i - x.len() - 5]);
        }
    }
    lemma_text_only_tokens(s);
    lemma_decode_entity(x, y);
}

/// Text without `<` is one text token, its entities decoded.
pub proof fn lemma_text_only_tokens(s: Seq<char>)
    requires
        s.len() > 0,
        forall|i: int| 0 <= i < s.len() ==> #[trigger] s[i] != '<',
    ensures
        tokenize(s) == (seq![TokenModel::Text(decode_entities(s))], Seq::<DiagModel>::empty()),
{
    let l = lower(s);
    crate::text::lemma_find_char(s, '<', 0);
    assert(crate::text::find_char_from(s, '<', 0) is None);
    assert(s.subrange(0, s.len() as int) =~= s);
    assert(tokenize_from(s, l, s.len() as int) == (Seq::<TokenModel>::empty(), Seq::<DiagModel>::empty()));
    assert(text_tokens(s) + Seq::<TokenModel>::empty() =~= text_tokens(s));
    assert(Seq::<DiagModel>::empty() + Seq::<DiagModel>::empty() =~= Seq::<DiagModel>::empty());
}

/// A lone `&` followed by text without `;` or `&` starts no entity ending
/// in `;`.
proof fn lemma_amp_then_no_entity(x: Seq<char>, y: Seq<char>, p: Seq<char>, r: Seq<char>)
    requires
        amp_free(x),
        amp_free(y),
        forall|i: int| 0 <= i < y.len() ==> #[trigger] y[i] != ';',
        p.len() >= 2,
        p[0] == '&',
        p[p.len() - 1] == ';',
    ensures
        replace_all(x + "&"@ + y, p, r) == x + "&"@ + y,
{
    reveal_strlit("&");
    let z = "&"@ + y;
    assert(x + "&"@ + y =~= x + z);
    lemma_replace_amp_prefix(x, z, p, r);
    assert(z[0] == '&');
    if crate::text::starts_with(z, p) {
        let k = p.len() - 1;
        assert(z.take(p.len() as int)[k] == z[k]);
        assert(z[k] == y[k - 1]);
    }
    let rest = z.drop_first();
    assert(rest =~= y);
    lemma_replace_amp_free(y, p, r);
    assert(seq![z[0]] + rest =~= z);
}

/// Characters allowed in tag names.
pub open spec fn is_tag_name_char(c: char) -> bool {
    is_alnum(c) || c == '-' || c == '_' || c == ':'
}

/// End of the tag-name characters of `s` from `i`.
pub open spec fn tag_name_end(s: Seq<char>, i: int) -> int
    decreases s.len() - i,
{
    if 0 <= i < s.len() && is_tag_name_char(s[i]) {
        tag_name_end(s, i + 1)
    } else {
        i
    }
}

/// Tag name of a raw name: the leading name characters after trimming,
/// lowercased; `None` when there are none.
pub open spec fn parse_tag_name(raw: Seq<char>) -> Option<Seq<char>> {
    let t = trim(raw);
    let e = tag_name_end(t, 0);
    if e <= 0 {
        None
    } else {
        Some(lower(t.subrange(0, e)))
    }
}

pub proof fn lemma_tag_name_end(s: Seq<char>, i: int)
    requires
        0 <= i <= s.len(),
    ensures
        i <= tag_name_end(s, i) <= s.len(),
    decreases s.len() - i,
{
    if i < s.len() && is_tag_name_char(s[i]) {
        lemma_tag_name_end(s, i + 1);
    }
}

/// Parses a tag name.
pub fn parse_tag_name_exec(raw: &Vec<char>) -> (r: Option<Vec<char>>)
    ensures
        r matches Some(n) ==> parse_tag_name(raw@) == Some(n@),
        r is None ==> parse_tag_name(raw@) is None,
{
    let t = trim_vec(raw);
    let mut e: usize = 0;
    while e < t.len() && (char_is_alnum(t[e]) || t[e] == '-' || t[e] == '_' || t[e] == ':')
        invariant
            e <= t.len(),
            tag_name_end(t@, e as int) == tag_name_end(t@, 0),
        decreases t.len() - e,
    {
        e += 1;
    }
    if e == 0 {
        None
    } else {
        let name = slice_of(&t, 0, e);
        Some(lower_vec(&name))
    }
}

/// End of an attribute name starting at `i`.
pub open spec fn attr_name_end(a: Seq<char>, i: int) -> int
    decreases a.len() - i,
{
    if 0 <= i < a.len() && !(is_ws(a[i]) || a[i] == '=' || a[i] == '/' || a[i] == '>') {
        attr_name_end(a, i + 1)
    } else {
        i
    }
}

/// First index at or after `i` holding `q`, or the length.
pub open spec fn char_end(a: Seq<char>, q: char, i: int) -> int
    decreases a.len() - i,
{
    if 0 <= i < a.len() && a[i] != q {
        char_end(a, q, i + 1)
    } else {
        i
    }
}

/// End of an unquoted attribute value starting at `i`.
pub open spec fn unquoted_end(a: Seq<char>, i: int) -> int
    decreases a.len() - i,
{
    if 0 <= i < a.len() && !(is_ws(a[i]) || a[i] == '>') {
        unquoted_end(a, i + 1)
    } else {
        i
    }
}

pub proof fn lemma_scan_bounds(a: Seq<char>, q: char, i: int)
    requires
        0 <= i <= a.len(),
    ensures
        i <= attr_name_end(a, i) <= a.len(),
        i <= char_end(a, q, i) <= a.len(),
        i <= unquoted_end(a, i) <= a.len(),
    decreases a.len() - i,
{
    if i < a.len() {
        lemma_scan_bounds(a, q, i + 1);
    }
}

/// An attribute value at `c` and the position after it: a quoted value
/// runs to the matching quote (or the end), an unquoted one to whitespace
/// or `>`.
pub open spec fn attr_value(a: Seq<char>, c: int) -> (Seq<char>, int) {
    if c < 0 || c >= a.len() {
        (Seq::empty(), c)
    } else if a[c] == '"' || a[c] == '\'' {
        let e = char_end(a, a[c], c + 1);
        if e < a.len() {
            (a.subrange(c + 1, e), e + 1)
        } else {
            (a.subrange(c + 1, a.len() as int), a.len() as int)
        }
    } else {
        let e = unquoted_end(a, c);
        (a.subrange(c, e), e)
    }
}

/// The attributes of `a[c..]` stored into `m`, later names overriding
/// earlier ones.
pub open spec fn parse_attrs_from(a: Seq<char>, c: int, m: AttrPairs) -> AttrPairs
    decreases a.len() - c,
{
    if c < 0 || c >= a.len() {
        m
    } else {
        let c1 = skip_ws(a, c, a.len() as int);
        proof {
            lemma_skip_ws(a, c, a.len() as int);
        }
        if c1 >= a.len() {
            m
        } else {
            proof {
                lemma_scan_bounds(a, ' ', c1);
            }
            let ne = attr_name_end(a, c1);
            if ne == c1 {
                parse_attrs_from(a, c1 + 1, m)
            } else {
                let name = lower(a.subrange(c1, ne));
                let c2 = skip_ws(a, ne, a.len() as int);
                let (v, c3) = if c2 < a.len() && a[c2] == '=' {
                    attr_value(a, skip_ws(a, c2 + 1, a.len() as int))
                } else {
                    (Seq::empty(), c2)
                };
                proof {
                    lemma_skip_ws(a, c, a.len() as int);
                    lemma_scan_bounds(a, ' ', c1);
                    lemma_skip_ws(a, ne, a.len() as int);
                    if c2 < a.len() {
                        lemma_skip_ws(a, c2 + 1, a.len() as int);
                        let c4 = skip_ws(a, c2 + 1, a.len() as int);
                        if c4 < a.len() {
                            lemma_scan_bounds(a, a[c4], c4);
                            lemma_scan_bounds(a, a[c4], c4 + 1);
                        }
                    }
                }
                parse_attrs_from(a, c3, attr_insert(m, name, decode_entities(v)))
            }
        }
    }
}

/// The attributes of a raw attribute list.
pub open spec fn parse_attributes(a: Seq<char>) -> AttrPairs {
    parse_attrs_from(a, 0, Seq::empty())
}

/// Parses an attribute value at `*cursor`, moving the cursor past it.
fn parse_attribute_value(a: &Vec<char>, cursor: &mut usize) -> (v: Vec<char>)
    requires
        *old(cursor) <= a.len(),
    ensures
        (v@, *final(cursor) as int) == attr_value(a@, *old(cursor) as int),
        *old(cursor) <= *final(cursor) <= a.len(),
{
    let c = *cursor;
    if c >= a.len() {
        return Vec::new();
    }
    let first = a[c];
    if first == '"' || first == '\'' {
        let mut k = c + 1;
        while k < a.len() && a[k] != first
            invariant
                c + 1 <= k <= a.len(),
                char_end(a@, first, k as int) == char_end(a@, first, c + 1),
            decreases a.len() - k,
        {
            k += 1;
        }
        if k < a.len() {
            *cursor = k + 1;
            return slice_of(a, c + 1, k);
        }
        *cursor = a.len();
        return slice_of(a, c + 1, a.len());
    }
    let mut k = c;
    while k < a.len() && !(char_is_ws(a[k]) || a[k] == '>')
        invariant
            c <= k <= a.len(),
            unquoted_end(a@, k as int) == unquoted_end(a@, c as int),
        decreases a.len() - k,
    {
        k += 1;
    }
    *cursor = k;
    slice_of(a, c, k)
}

/// Parses a raw attribute list.
pub fn parse_attributes_exec(a: &Vec<char>) -> (m: AttributeMap)
    ensures
        m.pairs() == parse_attributes(a@),
{
    let mut m = AttributeMap::new();
    let mut cursor: usize = 0;
    while cursor < a.len()
        invariant
            cursor <= a.len(),
            parse_attrs_from(a@, cursor as int, m.pairs()) == parse_attributes(a@),
        decreases a.len() - cursor,
    {
        let c1 = skip_ws_exec(a, cursor, a.len());
        if c1 >= a.len() {
            proof {
                assert(parse_attrs_from(a@, cursor as int, m.pairs()) == m.pairs());
            }
            cursor = a.len();
            continue;
        }
        let mut ne = c1;
        while ne < a.len() && !(char_is_ws(a[ne]) || a[ne] == '=' || a[ne] == '/' || a[ne] == '>')
            invariant
                c1 <= ne <= a.len(),
                attr_name_end(a@, ne as int) == attr_name_end(a@, c1 as int),
            decreases a.len() - ne,
        {
            ne += 1;
        }
        if ne == c1 {
            cursor = c1 + 1;
            continue;
        }
        let raw_name = slice_of(a, c1, ne);
        let name = lower_vec(&raw_name);
        let c2 = skip_ws_exec(a, ne, a.len());
        let mut c3 = c2;
        let value = if c2 < a.len() && a[c2] == '=' {
            c3 = skip_ws_exec(a, c2 + 1, a.len());
            parse_attribute_value(a, &mut c3)
        } else {
            Vec::new()
        };
        let decoded = decode_entities_exec(&value);
        proof {
            lemma_scan_bounds(a@, ' ', c1 as int);
            assert(value@ =~= (if c2 < a@.len() && a@[c2 as int] == '=' {
                attr_value(a@, skip_ws(a@, c2 + 1, a@.len() as int))
            } else {
                (Seq::empty(), c2 as int)
            }).0);
        }
        m.insert(string_of(&name), string_of(&decoded));
        cursor = c3;
    }
    m
}

/// A start tag: name, attribute pairs, and whether it ends with `/`.
pub open spec fn parse_start_tag(raw: Seq<char>) -> Option<(Seq<char>, AttrPairs, bool)> {
    let t = trim(raw);
    if t.len() == 0 || t[0] == '!' || t[0] == '?' {
        None
    } else {
        let sc = t[t.len() - 1] == '/';
        let w = if sc {
            t.subrange(0, skip_ws_back(t, 0, t.len() - 1))
        } else {
            t
        };
        let ne = first_ws(w, 0);
        match parse_tag_name(w.subrange(0, ne)) {
            None => None,
            Some(name) => Some((name, parse_attributes(w.subrange(ne, w.len() as int)), sc)),
        }
    }
}

/// First whitespace index at or after `i`, or the length.
pub open spec fn first_ws(s: Seq<char>, i: int) -> int
    decreases s.len() - i,
{
    if 0 <= i < s.len() && !is_ws(s[i]) {
        first_ws(s, i + 1)
    } else {
        i
    }
}

pub proof fn lemma_first_ws(s: Seq<char>, i: int)
    requires
        0 <= i <= s.len(),
    ensures
        i <= first_ws(s, i) <= s.len(),
    decreases s.len() - i,
{
    if i < s.len() && !is_ws(s[i]) {
        lemma_first_ws(s, i + 1);
    }
}

/// Parses the inside of a start tag.
pub fn parse_start_tag_exec(raw: &Vec<char>) -> (r: Option<(Vec<char>, AttributeMap, bool)>)
    ensures
        r matches Some((n, m, sc)) ==> parse_start_tag(raw@) == Some((n@, m.pairs(), sc)),
        r is None ==> parse_start_tag(raw@) is None,
{
    let t = trim_vec(raw);
    if t.len() == 0 || t[0] == '!' || t[0] == '?' {
        return None;
    }
    let sc = t[t.len() - 1] == '/';
    let w = if sc {
        let e = skip_ws_back_exec(&t, 0, t.len() - 1);
        slice_of(&t, 0, e)
    } else {
        slice_of(&t, 0, t.len())
    };
    proof {
        assert(t@.subrange(0, t@.len() as int) =~= t@);
    }
    let mut ne: usize = 0;
    while ne < w.len() && !char_is_ws(w[ne])
        invariant
            ne <= w.len(),
            first_ws(w@, ne as int) == first_ws(w@, 0),
        decreases w.len() - ne,
    {
        ne += 1;
    }
    let head = slice_of(&w, 0, ne);
    match parse_tag_name_exec(&head) {
        None => None,
        Some(name) => {
            let tail = slice_of(&w, ne, w.len());
            let attrs = parse_attributes_exec(&tail);
            Some((name, attrs, sc))
        },
    }
}


/// A token of the HTML tokenizer.
#[derive(Debug, PartialEq, Eq)]
pub enum Token {
    /// A start tag.
    StartTag {
        /// Lowercase tag name.
        tag_name: String,
        /// Attributes in key order.
        attributes: AttributeMap,
        /// Written with `/>` or a void element.
        self_closing: bool,
    },
    /// An end tag.
    EndTag(String),
    /// Text with entities decoded (except in raw text elements).
    Text(String),
}

/// A token as plain values.
pub enum TokenModel {
    /// A start tag.
    StartTag { name: Seq<char>, attrs: AttrPairs, self_closing: bool },
    /// An end tag.
    EndTag(Seq<char>),
    /// Text.
    Text(Seq<char>),
}

/// The plain values of a token.
pub open spec fn token_model(t: Token) -> TokenModel {
    match t {
        Token::StartTag { tag_name, attributes, self_closing } => TokenModel::StartTag {
            name: tag_name@,
            attrs: attributes.pairs(),
            self_closing,
        },
        Token::EndTag(n) => TokenModel::EndTag(n@),
        Token::Text(t) => TokenModel::Text(t@),
    }
}

/// The plain values of tokens.
pub open spec fn token_models(s: Seq<Token>) -> Seq<TokenModel> {
    Seq::new(s.len(), |i: int| token_model(s[i]))
}

/// A deterministic forgiving-parser diagnostic.
#[derive(Debug, Clone, PartialEq, Eq)]
pub struct HtmlDiagnostic {
    /// Byte offset where recovery started.
    pub offset: usize,
    /// Human-readable recovery description.
    pub message: String,
}

impl HtmlDiagnostic {
    /// The diagnostic as one line of text.
    pub fn to_string(&self) -> (r: String)
        ensures
            r@ == "HTML diagnostic at byte "@ + crate::text::decimal(self.offset as nat) + ": "@
                + self.message@,
    {
        let mut r = crate::text::string_from("HTML diagnostic at byte ");
        let n = crate::text::decimal_string(self.offset as u64);
        crate::text::push_str(&mut r, n.as_str());
        crate::text::push_str(&mut r, ": ");
        crate::text::push_str(&mut r, self.message.as_str());
        r
    }
}

/// A diagnostic as plain values.
pub struct DiagModel {
    /// Byte offset.
    pub offset: nat,
    /// Message text.
    pub message: Seq<char>,
}

/// The plain values of diagnostics.
pub open spec fn diag_models(s: Seq<HtmlDiagnostic>) -> Seq<DiagModel> {
    Seq::new(s.len(), |i: int| DiagModel { offset: s[i].offset as nat, message: s[i].message@ })
}

/// Elements that never have content.
pub open spec fn is_void_element(n: Seq<char>) -> bool {
    n == "area"@ || n == "base"@ || n == "br"@ || n == "col"@ || n == "embed"@ || n == "hr"@ || n
        == "img"@ || n == "input"@ || n == "link"@ || n == "meta"@ || n == "source"@ || n
        == "track"@ || n == "wbr"@
}

/// Elements whose content is raw text.
pub open spec fn is_raw_text_element(n: Seq<char>) -> bool {
    n == "script"@ || n == "style"@
}

/// Elements whose content is raw text with entities decoded.
pub open spec fn is_escapable_raw_text_element(n: Seq<char>) -> bool {
    n == "textarea"@ || n == "title"@
}

/// Raw text elements whose text stays in the DOM.
pub open spec fn preserves_raw_text_in_dom(n: Seq<char>) -> bool {
    n == "script"@ || n == "style"@ || n == "textarea"@ || n == "title"@
}

/// `is_void_element` computed.
pub fn is_void_element_exec(n: &Vec<char>) -> (b: bool)
    ensures
        b == is_void_element(n@),
{
    vec_eq_str(n, "area") || vec_eq_str(n, "base") || vec_eq_str(n, "br") || vec_eq_str(n, "col")
        || vec_eq_str(n, "embed") || vec_eq_str(n, "hr") || vec_eq_str(n, "img") || vec_eq_str(
        n,
        "input",
    ) || vec_eq_str(n, "link") || vec_eq_str(n, "meta") || vec_eq_str(n, "source")
        || vec_eq_str(n, "track") || vec_eq_str(n, "wbr")
}

/// `is_raw_text_element` computed.
pub fn is_raw_text_element_exec(n: &Vec<char>) -> (b: bool)
    ensures
        b == is_raw_text_element(n@),
{
    vec_eq_str(n, "script") || vec_eq_str(n, "style")
}

/// `is_escapable_raw_text_element` computed.
pub fn is_escapable_raw_text_element_exec(n: &Vec<char>) -> (b: bool)
    ensures
        b == is_escapable_raw_text_element(n@),
{
    vec_eq_str(n, "textarea") || vec_eq_str(n, "title")
}

/// `preserves_raw_text_in_dom` computed.
pub fn preserves_raw_text_in_dom_exec(n: &Vec<char>) -> (b: bool)
    ensures
        b == preserves_raw_text_in_dom(n@),
{
    vec_eq_str(n, "script") || vec_eq_str(n, "style") || vec_eq_str(n, "textarea") || vec_eq_str(
        n,
        "title",
    )
}

/// A text token for non-empty text, entities decoded.
pub open spec fn text_tokens(x: Seq<char>) -> Seq<TokenModel> {
    if x.len() == 0 {
        Seq::empty()
    } else {
        seq![TokenModel::Text(decode_entities(x))]
    }
}

/// A text token for non-empty raw text, entities decoded when asked.
pub open spec fn raw_text_tokens(x: Seq<char>, decode: bool) -> Seq<TokenModel> {
    if x.len() == 0 {
        Seq::empty()
    } else if decode {
        seq![TokenModel::Text(decode_entities(x))]
    } else {
        seq![TokenModel::Text(x)]
    }
}

/// Index after the first `>` at or after `i` that is outside quotes, given
/// the quote currently open.
pub open spec fn tag_end_from(s: Seq<char>, i: int, q: Option<char>) -> Option<int>
    decreases s.len() - i,
{
    if i < 0 || i >= s.len() {
        None
    } else {
        let ch = s[i];
        match q {
            None => if ch == '"' || ch == '\'' {
                tag_end_from(s, i + 1, Some(ch))
            } else if ch == '>' {
                Some(i + 1)
            } else {
                tag_end_from(s, i + 1, None)
            },
            Some(o) => if ch == o {
                tag_end_from(s, i + 1, None)
            } else {
                tag_end_from(s, i + 1, q)
            },
        }
    }
}

pub proof fn lemma_tag_end(s: Seq<char>, i: int, q: Option<char>)
    requires
        0 <= i,
    ensures
        tag_end_from(s, i, q) matches Some(e) ==> i < e <= s.len() && s[e - 1] == '>',
    decreases s.len() - i,
{
    if i < s.len() {
        let ch = s[i];
        lemma_tag_end(s, i + 1, None);
        lemma_tag_end(s, i + 1, Some(ch));
        lemma_tag_end(s, i + 1, q);
    }
}

/// Where a raw text element of the lowered needle `</name` closes, searching
/// the lowered input `l` from `from`: the start of the closing tag and the
/// index after its `>`.
pub open spec fn raw_close_from(s: Seq<char>, l: Seq<char>, needle: Seq<char>, from: int) -> Option<
    (int, int),
>
    decreases l.len() + 1 - from,
{
    if from < 0 || needle.len() == 0 {
        None
    } else {
        match crate::text::find_from(l, needle, from) {
            None => None,
            Some(st) => {
                let an = st + needle.len();
                if an < l.len() && (l[an] == '>' || is_ws(l[an])) {
                    match crate::text::find_char_from(s, '>', st) {
                        Some(g) => Some((st, g + 1)),
                        None => None,
                    }
                } else {
                    proof {
                        crate::text::lemma_find_from(l, needle, from);
                    }
                    raw_close_from(s, l, needle, an)
                }
            },
        }
    }
}

pub proof fn lemma_raw_close(s: Seq<char>, l: Seq<char>, needle: Seq<char>, from: int)
    requires
        0 <= from,
        s.len() == l.len(),
    ensures
        raw_close_from(s, l, needle, from) matches Some((st, af)) ==> from <= st < af <= s.len(),
    decreases l.len() + 1 - from,
{
    if needle.len() > 0 {
        crate::text::lemma_find_from(l, needle, from);
        match crate::text::find_from(l, needle, from) {
            None => {},
            Some(st) => {
                let an = st + needle.len();
                crate::text::lemma_find_char(s, '>', st);
                if !(an < l.len() && (l[an] == '>' || is_ws(l[an]))) {
                    lemma_raw_close(s, l, needle, an);
                }
            },
        }
    }
}


/// Byte offset of character index `i` of `s`.
pub open spec fn byte_offset_of(s: Seq<char>, i: int) -> nat {
    crate::text::utf8_len(s.take(i))
}

/// A diagnostic at character index `i`.
pub open spec fn diag_at(s: Seq<char>, i: int, message: Seq<char>) -> Seq<DiagModel> {
    seq![DiagModel { offset: byte_offset_of(s, i), message }]
}

/// The message for a raw text element left open.
pub open spec fn unclosed_raw_message(name: Seq<char>) -> Seq<char> {
    "unclosed "@ + name + " element preserved through end of input"@
}

/// One tokenizer step at character index `c` of `s` (`l` is `s` lowercased):
/// the tokens and diagnostics it emits and the index where the next step
/// starts.
pub open spec fn tok_step(s: Seq<char>, l: Seq<char>, c: int) -> (
    Seq<TokenModel>,
    Seq<DiagModel>,
    int,
) {
    let len = s.len() as int;
    match crate::text::find_char_from(s, '<', c) {
        None => (text_tokens(s.subrange(c, len)), Seq::empty(), len),
        Some(t) => {
            let pre = text_tokens(s.subrange(c, t));
            if crate::text::occurs_at(s, "<!--"@, t) {
                match crate::text::find_from(s, "-->"@, t) {
                    Some(k) => (pre, Seq::empty(), k + 3),
                    None => (
                        pre,
                        diag_at(s, t, "unclosed comment ignored through end of input"@),
                        len,
                    ),
                }
            } else if t + 9 <= len && lower(s.subrange(t, t + 9)) == "<!doctype"@ {
                match crate::text::find_char_from(s, '>', t) {
                    Some(k) => (pre, Seq::empty(), k + 1),
                    None => (
                        pre,
                        diag_at(s, t, "unclosed doctype ignored through end of input"@),
                        len,
                    ),
                }
            } else if crate::text::occurs_at(s, "</"@, t) {
                match crate::text::find_char_from(s, '>', t) {
                    None => (
                        pre + text_tokens(s.subrange(t, len)),
                        diag_at(s, t, "unclosed end tag preserved as text"@),
                        len,
                    ),
                    Some(k) => match parse_tag_name(trim(s.subrange(t + 2, k))) {
                        Some(name) => (pre + seq![TokenModel::EndTag(name)], Seq::empty(), k + 1),
                        None => (pre, Seq::empty(), k + 1),
                    },
                }
            } else {
                match tag_end_from(s, t, None) {
                    None => (
                        pre + text_tokens(s.subrange(t, len)),
                        diag_at(s, t, "unclosed start tag preserved as text"@),
                        len,
                    ),
                    Some(e) => match parse_start_tag(s.subrange(t + 1, e - 1)) {
                        None => (pre + text_tokens("<"@), Seq::empty(), t + 1),
                        Some((name, attrs, esc)) => {
                            let tok = TokenModel::StartTag {
                                name,
                                attrs,
                                self_closing: esc || is_void_element(name),
                            };
                            if is_raw_text_element(name) || is_escapable_raw_text_element(name) {
                                let dec = is_escapable_raw_text_element(name);
                                let keep = preserves_raw_text_in_dom(name);
                                match raw_close_from(s, l, "</"@ + name, e) {
                                    Some((st, af)) => (
                                        pre + seq![tok] + (if keep {
                                            raw_text_tokens(s.subrange(e, st), dec)
                                        } else {
                                            Seq::empty()
                                        }) + seq![TokenModel::EndTag(name)],
                                        Seq::empty(),
                                        af,
                                    ),
                                    None => (
                                        pre + seq![tok] + (if keep {
                                            raw_text_tokens(s.subrange(e, len), dec)
                                        } else {
                                            Seq::empty()
                                        }) + seq![TokenModel::EndTag(name)],
                                        diag_at(s, e, unclosed_raw_message(name)),
                                        len,
                                    ),
                                }
                            } else {
                                (pre + seq![tok], Seq::empty(), e)
                            }
                        },
                    },
                }
            }
        },
    }
}

/// Each step moves forward.
pub proof fn lemma_tok_step_advances(s: Seq<char>, l: Seq<char>, c: int)
    requires
        0 <= c < s.len(),
        l.len() == s.len(),
    ensures
        c < tok_step(s, l, c).2 <= s.len(),
{
    crate::text::lemma_find_char(s, '<', c);
    match crate::text::find_char_from(s, '<', c) {
        None => {},
        Some(t) => {
            reveal_strlit("-->");
            crate::text::lemma_find_from(s, "-->"@, t);
            crate::text::lemma_find_char(s, '>', t);
            lemma_tag_end(s, t, None);
            match tag_end_from(s, t, None) {
                None => {},
                Some(e) => {
                    match parse_start_tag(s.subrange(t + 1, e - 1)) {
                        None => {},
                        Some((name, attrs, esc)) => {
                            lemma_raw_close(s, l, "</"@ + name, e);
                        },
                    }
                },
            }
        },
    }
}

/// A character position's byte offset lies within the input.
proof fn lemma_byte_offset_within(s: Seq<char>, i: int)
    requires
        0 <= i <= s.len(),
    ensures
        byte_offset_of(s, i) <= crate::text::utf8_len(s),
{
    if i == s.len() {
        assert(s.take(i) =~= s);
    } else {
        crate::text::lemma_utf8_len_push(s, i);
    }
}

/// A step reports at most one diagnostic, within the input, and only as
/// the last step.
proof fn lemma_tok_step_diagnostic(s: Seq<char>, l: Seq<char>, c: int)
    requires
        0 <= c < s.len(),
        l.len() == s.len(),
    ensures
        tok_step(s, l, c).1.len() == 0 || (tok_step(s, l, c).1.len() == 1 && tok_step(s, l, c).2 == s.len()
            && tok_step(s, l, c).1[0].offset <= crate::text::utf8_len(s)),
{
    assert forall|i: int| 0 <= i <= s.len() implies byte_offset_of(s, i) <= crate::text::utf8_len(s) by {
        lemma_byte_offset_within(s, i);
    }
    crate::text::lemma_find_char(s, '<', c);
    match crate::text::find_char_from(s, '<', c) {
        None => {},
        Some(t) => {
            lemma_tag_end(s, t, None);
        },
    }
}

/// The tokens and diagnostics from `c` on report at most one diagnostic,
/// within the input.
proof fn lemma_tokenize_from_diagnostics(s: Seq<char>, l: Seq<char>, c: int)
    ensures
        tokenize_from(s, l, c).1.len() <= 1,
        forall|k: int|
            0 <= k < tokenize_from(s, l, c).1.len() ==> (#[trigger] tokenize_from(s, l, c).1[k]).offset
                <= crate::text::utf8_len(s),
    decreases s.len() - c,
{
    if 0 <= c < s.len() && l.len() == s.len() {
        let (t, d, nx) = tok_step(s, l, c);
        lemma_tok_step_advances(s, l, c);
        lemma_tok_step_diagnostic(s, l, c);
        lemma_tokenize_from_diagnostics(s, l, nx);
        let (t2, d2) = tokenize_from(s, l, nx);
        if d.len() == 1 {
            assert(d2.len() == 0);
            assert(d + d2 =~= d);
        } else {
            assert(d + d2 =~= d2);
        }
    }
}

/// The tokenizer reports at most one diagnostic, so its diagnostics are in
/// input order, and each one's byte offset lies within the input.
pub proof fn lemma_tokenize_diagnostics(s: Seq<char>)
    ensures
        tokenize(s).1.len() <= 1,
        forall|k: int|
            0 <= k < tokenize(s).1.len() ==> (#[trigger] tokenize(s).1[k]).offset <= crate::text::utf8_len(s),
{
    lemma_tokenize_from_diagnostics(s, lower(s), 0);
}

/// The tokens and diagnostics from index `c` on.
pub open spec fn tokenize_from(s: Seq<char>, l: Seq<char>, c: int) -> (
    Seq<TokenModel>,
    Seq<DiagModel>,
)
    decreases s.len() - c,
{
    if c < 0 || c >= s.len() || l.len() != s.len() {
        (Seq::empty(), Seq::empty())
    } else {
        let (t, d, nx) = tok_step(s, l, c);
        proof {
            lemma_tok_step_advances(s, l, c);
        }
        let (t2, d2) = tokenize_from(s, l, nx);
        (t + t2, d + d2)
    }
}

/// The tokens and diagnostics of an input.
pub open spec fn tokenize(s: Seq<char>) -> (Seq<TokenModel>, Seq<DiagModel>) {
    tokenize_from(s, lower(s), 0)
}


/// Appends the text token of `v[a..b]`, if it is not empty.
fn push_text_tokens(out: &mut Vec<Token>, v: &Vec<char>, a: usize, b: usize)
    requires
        a <= b <= v.len(),
    ensures
        token_models(final(out)@) == token_models(old(out)@) + text_tokens(v@.subrange(a as int, b as int)),
{
    let ghost prev = out@;
    if a < b {
        let raw = slice_of(v, a, b);
        let d = decode_entities_exec(&raw);
        out.push(Token::Text(string_of(&d)));
    }
    proof {
        assert(token_models(out@) =~= token_models(prev) + text_tokens(
            v@.subrange(a as int, b as int),
        ));
    }
}

/// Appends the raw text token of `v[a..b]`, if it is not empty.
fn push_raw_text_tokens(out: &mut Vec<Token>, v: &Vec<char>, a: usize, b: usize, decode: bool)
    requires
        a <= b <= v.len(),
    ensures
        token_models(final(out)@) == token_models(old(out)@) + raw_text_tokens(
            v@.subrange(a as int, b as int),
            decode,
        ),
{
    let ghost prev = out@;
    if a < b {
        let raw = slice_of(v, a, b);
        if decode {
            let d = decode_entities_exec(&raw);
            out.push(Token::Text(string_of(&d)));
        } else {
            out.push(Token::Text(string_of(&raw)));
        }
    }
    proof {
        assert(token_models(out@) =~= token_models(prev) + raw_text_tokens(
            v@.subrange(a as int, b as int),
            decode,
        ));
    }
}

/// Index after the first `>` outside quotes at or after `t`.
fn tag_end_exec(v: &Vec<char>, t: usize) -> (r: Option<usize>)
    ensures
        r matches Some(e) ==> tag_end_from(v@, t as int, None) == Some(e as int),
        r is None ==> tag_end_from(v@, t as int, None) is None,
{
    let mut q: Option<char> = None;
    let mut i = t;
    while i < v.len()
        invariant
            t <= i,
            tag_end_from(v@, i as int, q) == tag_end_from(v@, t as int, None),
        decreases v.len() - i,
    {
        let ch = v[i];
        match q {
            None => {
                if ch == '"' || ch == '\'' {
                    q = Some(ch);
                } else if ch == '>' {
                    return Some(i + 1);
                }
            },
            Some(o) => {
                if ch == o {
                    q = None;
                }
            },
        }
        i += 1;
    }
    None
}

/// Where a raw text element closes (see `raw_close_from`).
fn raw_close_exec(v: &Vec<char>, l: &Vec<char>, needle: &Vec<char>, from: usize) -> (r: Option<
    (usize, usize),
>)
    requires
        v@.len() == l@.len(),
        needle@.len() > 0,
        from <= v.len(),
    ensures
        r matches Some((a, b)) ==> raw_close_from(v@, l@, needle@, from as int) == Some(
            (a as int, b as int),
        ),
        r is None ==> raw_close_from(v@, l@, needle@, from as int) is None,
{
    let mut search = from;
    while search <= l.len()
        invariant
            v@.len() == l@.len(),
            needle@.len() > 0,
            from <= search,
            raw_close_from(v@, l@, needle@, search as int) == raw_close_from(
                v@,
                l@,
                needle@,
                from as int,
            ),
        decreases l.len() + 1 - search,
    {
        proof {
            crate::text::lemma_find_from(l@, needle@, search as int);
        }
        match crate::text::find_exec(l, needle, search) {
            None => {
                return None;
            },
            Some(st) => {
                let an = st + needle.len();
                if an < l.len() && (l[an] == '>' || char_is_ws(l[an])) {
                    proof {
                        crate::text::lemma_find_char(v@, '>', st as int);
                    }
                    match crate::text::find_char_exec(v, '>', st) {
                        Some(g) => {
                            return Some((st, g + 1));
                        },
                        None => {
                            return None;
                        },
                    }
                }
                search = an;
            },
        }
    }
    None
}

/// A diagnostic at character index `i`.
fn diag_exec(v: &Vec<char>, i: usize, message: String) -> (d: HtmlDiagnostic)
    requires
        i <= v.len(),
        crate::text::utf8_len(v@) <= usize::MAX,
    ensures
        d.offset == byte_offset_of(v@, i as int),
        d.message@ == message@,
{
    HtmlDiagnostic { offset: crate::text::byte_offset(v, i), message }
}

/// One tokenizer step (see `tok_step`).
pub fn tok_step_exec(v: &Vec<char>, l: &Vec<char>, c: usize) -> (r: (
    Vec<Token>,
    Vec<HtmlDiagnostic>,
    usize,
))
    requires
        c < v.len(),
        l@ == lower(v@),
        crate::text::utf8_len(v@) <= usize::MAX,
    ensures
        token_models(r.0@) == tok_step(v@, l@, c as int).0,
        diag_models(r.1@) == tok_step(v@, l@, c as int).1,
        r.2 == tok_step(v@, l@, c as int).2,
{
    let len = v.len();
    let mut toks: Vec<Token> = Vec::new();
    let mut diags: Vec<HtmlDiagnostic> = Vec::new();
    proof {
        assert(token_models(toks@) =~= Seq::<TokenModel>::empty());
        assert(diag_models(diags@) =~= Seq::<DiagModel>::empty());
        crate::text::lemma_find_char(v@, '<', c as int);
    }
    let t = match crate::text::find_char_exec(v, '<', c) {
        None => {
            push_text_tokens(&mut toks, v, c, len);
            proof {
                assert(Seq::<TokenModel>::empty() + text_tokens(v@.subrange(c as int, len as int))
                    =~= text_tokens(v@.subrange(c as int, len as int)));
            }
            return (toks, diags, len);
        },
        Some(t) => t,
    };
    push_text_tokens(&mut toks, v, c, t);
    proof {
        assert(Seq::<TokenModel>::empty() + text_tokens(v@.subrange(c as int, t as int))
            =~= text_tokens(v@.subrange(c as int, t as int)));
    }
    if crate::text::starts_with_at(v, t, "<!--") {
        let arrow = chars_of("-->");
        proof {
            reveal_strlit("-->");
            crate::text::lemma_find_from(v@, arrow@, t as int);
        }
        match crate::text::find_exec(v, &arrow, t) {
            Some(k) => {
                return (toks, diags, k + 3);
            },
            None => {
                let d = diag_exec(v, t, crate::text::string_from("unclosed comment ignored through end of input"));
                diags.push(d);
                proof {
                    assert(diag_models(diags@) =~= diag_at(v@, t as int, "unclosed comment ignored through end of input"@));
                }
                return (toks, diags, len);
            },
        }
    }
    let is_doctype = if len - t >= 9 {
        let seg = slice_of(v, t, t + 9);
        let low = lower_vec(&seg);
        vec_eq_str(&low, "<!doctype")
    } else {
        false
    };
    if is_doctype {
        proof {
            crate::text::lemma_find_char(v@, '>', t as int);
        }
        match crate::text::find_char_exec(v, '>', t) {
            Some(k) => {
                return (toks, diags, k + 1);
            },
            None => {
                let d = diag_exec(v, t, crate::text::string_from("unclosed doctype ignored through end of input"));
                diags.push(d);
                proof {
                    assert(diag_models(diags@) =~= diag_at(v@, t as int, "unclosed doctype ignored through end of input"@));
                }
                return (toks, diags, len);
            },
        }
    }
    if crate::text::starts_with_at(v, t, "</") {
        proof {
            crate::text::lemma_find_char(v@, '>', t as int);
            reveal_strlit("</");
        }
        match crate::text::find_char_exec(v, '>', t) {
            None => {
                let ghost prev = token_models(toks@);
                push_text_tokens(&mut toks, v, t, len);
                let d = diag_exec(v, t, crate::text::string_from("unclosed end tag preserved as text"));
                diags.push(d);
                proof {
                    assert(diag_models(diags@) =~= diag_at(v@, t as int, "unclosed end tag preserved as text"@));
                }
                return (toks, diags, len);
            },
            Some(k) => {
                proof {
                    assert(v@.subrange(t as int, t + 2)[0] == v@[t as int]);
                    assert(v@.subrange(t as int, t + 2)[1] == v@[t + 1]);
                    assert(v@[t as int] == '<' && v@[t + 1] == '/');
                }
                let raw = slice_of(v, t + 2, k);
                let raw_t = trim_vec(&raw);
                match parse_tag_name_exec(&raw_t) {
                    Some(name) => {
                        let ghost prev = token_models(toks@);
                        toks.push(Token::EndTag(string_of(&name)));
                        proof {
                            assert(token_models(toks@) =~= prev + seq![TokenModel::EndTag(name@)]);
                        }
                        return (toks, diags, k + 1);
                    },
                    None => {
                        return (toks, diags, k + 1);
                    },
                }
            },
        }
    }
    proof {
        lemma_tag_end(v@, t as int, None);
    }
    let e = match tag_end_exec(v, t) {
        None => {
            push_text_tokens(&mut toks, v, t, len);
            let d = diag_exec(v, t, crate::text::string_from("unclosed start tag preserved as text"));
            diags.push(d);
            proof {
                assert(diag_models(diags@) =~= diag_at(v@, t as int, "unclosed start tag preserved as text"@));
            }
            return (toks, diags, len);
        },
        Some(e) => e,
    };
    let raw_tag = slice_of(v, t + 1, e - 1);
    match parse_start_tag_exec(&raw_tag) {
        None => {
            let lt = chars_of("<");
            push_text_tokens(&mut toks, &lt, 0, lt.len());
            proof {
                assert(lt@.subrange(0, lt@.len() as int) =~= "<"@);
            }
            (toks, diags, t + 1)
        },
        Some((name, attrs, esc)) => {
            let self_closing = esc || is_void_element_exec(&name);
            let raw_kind = is_raw_text_element_exec(&name);
            let esc_kind = is_escapable_raw_text_element_exec(&name);
            let keep = preserves_raw_text_in_dom_exec(&name);
            let ghost name_v = name@;
            let ghost attrs_v = attrs.pairs();
            let ghost prev = token_models(toks@);
            toks.push(
                Token::StartTag { tag_name: string_of(&name), attributes: attrs, self_closing },
            );
            let ghost tok = TokenModel::StartTag { name: name_v, attrs: attrs_v, self_closing };
            proof {
                assert(token_models(toks@) =~= prev + seq![tok]);
            }
            if raw_kind || esc_kind {
                let mut needle = chars_of("</");
                let mut j: usize = 0;
                let ghost n0 = needle@;
                while j < name.len()
                    invariant
                        j <= name.len(),
                        needle@ =~= n0 + name@.take(j as int),
                    decreases name.len() - j,
                {
                    needle.push(name[j]);
                    j += 1;
                }
                proof {
                    assert(name@.take(name@.len() as int) =~= name@);
                    reveal_strlit("</");
                    lemma_raw_close(v@, l@, needle@, e as int);
                }
                match raw_close_exec(v, l, &needle, e) {
                    Some((st, af)) => {
                        let ghost p2 = token_models(toks@);
                        if keep {
                            push_raw_text_tokens(&mut toks, v, e, st, esc_kind);
                        }
                        let ghost p3 = token_models(toks@);
                        toks.push(Token::EndTag(string_of(&name)));
                        proof {
                            assert(token_models(toks@) =~= p3 + seq![TokenModel::EndTag(name@)]);
                            if !keep {
                                assert(p3 =~= p2 + Seq::<TokenModel>::empty());
                            }
                        }
                        (toks, diags, af)
                    },
                    None => {
                        let ghost p2 = token_models(toks@);
                        if keep {
                            push_raw_text_tokens(&mut toks, v, e, len, esc_kind);
                        }
                        let ghost p3 = token_models(toks@);
                        toks.push(Token::EndTag(string_of(&name)));
                        let mut msg = crate::text::string_from("unclosed ");
                        let name_s = string_of(&name);
                        crate::text::push_str(&mut msg, name_s.as_str());
                        crate::text::push_str(&mut msg, " element preserved through end of input");
                        let d = diag_exec(v, e, msg);
                        diags.push(d);
                        proof {
                            assert(token_models(toks@) =~= p3 + seq![TokenModel::EndTag(name@)]);
                            if !keep {
                                assert(p3 =~= p2 + Seq::<TokenModel>::empty());
                            }
                            assert(diag_models(diags@) =~= diag_at(v@, e as int, unclosed_raw_message(name@)));
                        }
                        (toks, diags, len)
                    },
                }
            } else {
                (toks, diags, e)
            }
        },
    }
}


/// Tokenizes an input.
pub fn tokenize_exec(v: &Vec<char>) -> (r: (Vec<Token>, Vec<HtmlDiagnostic>))
    requires
        crate::text::utf8_len(v@) <= usize::MAX,
    ensures
        token_models(r.0@) == tokenize(v@).0,
        diag_models(r.1@) == tokenize(v@).1,
{
    let l = lower_vec(v);
    let mut tokens: Vec<Token> = Vec::new();
    let mut diags: Vec<HtmlDiagnostic> = Vec::new();
    let mut cursor: usize = 0;
    proof {
        assert(token_models(tokens@) + tokenize_from(v@, l@, 0).0 =~= tokenize(v@).0);
        assert(diag_models(diags@) + tokenize_from(v@, l@, 0).1 =~= tokenize(v@).1);
    }
    while cursor < v.len()
        invariant
            cursor <= v.len(),
            l@ == lower(v@),
            crate::text::utf8_len(v@) <= usize::MAX,
            token_models(tokens@) + tokenize_from(v@, l@, cursor as int).0 == tokenize(v@).0,
            diag_models(diags@) + tokenize_from(v@, l@, cursor as int).1 == tokenize(v@).1,
        decreases v.len() - cursor,
    {
        proof {
            lemma_tok_step_advances(v@, l@, cursor as int);
        }
        let (mut t, mut d, next) = tok_step_exec(v, &l, cursor);
        let ghost pt = tokens@;
        let ghost pd = diags@;
        let ghost st = t@;
        let ghost sd = d@;
        tokens.append(&mut t);
        diags.append(&mut d);
        proof {
            assert(token_models(tokens@) =~= token_models(pt) + token_models(st));
            assert(diag_models(diags@) =~= diag_models(pd) + diag_models(sd));
            let (a, b, nx) = tok_step(v@, l@, cursor as int);
            let (a2, b2) = tokenize_from(v@, l@, nx);
            assert(tokenize_from(v@, l@, cursor as int).0 == a + a2);
            assert(token_models(pt) + (a + a2) =~= (token_models(pt) + a) + a2);
            assert(diag_models(pd) + (b + b2) =~= (diag_models(pd) + b) + b2);
        }
        cursor = next;
    }
    proof {
        assert(token_models(tokens@) + Seq::<TokenModel>::empty() =~= token_models(tokens@));
        assert(diag_models(diags@) + Seq::<DiagModel>::empty() =~= diag_models(diags@));
    }
    (tokens, diags)
}

/// The tag name of an element model.
pub open spec fn element_name(m: NodeModel) -> Option<Seq<char>> {
    match m.kind {
        KindModel::Element { tag, .. } => Some(tag),
        _ => None,
    }
}

/// `n` appended to the children of the top of the stack.
pub open spec fn append_to_top(st: Seq<NodeModel>, n: NodeModel) -> Seq<NodeModel> {
    if st.len() == 0 {
        st
    } else {
        st.update(st.len() - 1, crate::dom::with_child(st.last(), n))
    }
}

/// The top of the stack appended to the node below it.
pub open spec fn pop_append(st: Seq<NodeModel>) -> Seq<NodeModel> {
    append_to_top(st.drop_last(), st.last())
}

/// Pops and appends until at most `k` nodes are left.
pub open spec fn collapse_to(st: Seq<NodeModel>, k: int) -> Seq<NodeModel>
    decreases st.len(),
{
    if st.len() > k && st.len() > 0 {
        collapse_to(pop_append(st), k)
    } else {
        st
    }
}

/// Index of the highest open element named `name` below index `j`, or `-1`.
pub open spec fn rpos_from(st: Seq<NodeModel>, name: Seq<char>, j: int) -> int
    decreases j,
{
    if j <= 0 || j > st.len() {
        -1
    } else if element_name(st[j - 1]) == Some(name) {
        j - 1
    } else {
        rpos_from(st, name, j - 1)
    }
}

/// Closes the highest open element named `name`, if any: everything above
/// it and then itself are appended to their parents (the root stays).
pub open spec fn close_element(st: Seq<NodeModel>, name: Seq<char>) -> Seq<NodeModel> {
    let p = rpos_from(st, name, st.len() as int);
    if p < 0 {
        st
    } else {
        let st2 = collapse_to(st, p + 1);
        if st2.len() > 1 {
            pop_append(st2)
        } else {
            st2
        }
    }
}

/// Rules for implicitly closing optional end tags.
#[derive(Clone, Copy)]
pub enum OptionalRule {
    /// Close a `p`.
    Paragraph,
    /// Close an `li`, stopping at `ol`/`ul`.
    ListItem,
    /// Close a `td`/`th`, stopping at `table`.
    CellInTable,
    /// Close a `tr`, stopping at `table`.
    Row,
    /// Close a `thead`/`tbody`/`tfoot`, stopping at `table`.
    Section,
    /// Close a `td`/`th`, stopping at `table`/`tr`.
    CellInRow,
}

/// The element names a rule closes.
pub open spec fn rule_closes(r: OptionalRule, n: Seq<char>) -> bool {
    match r {
        OptionalRule::Paragraph => n == "p"@,
        OptionalRule::ListItem => n == "li"@,
        OptionalRule::CellInTable => n == "td"@ || n == "th"@,
        OptionalRule::Row => n == "tr"@,
        OptionalRule::Section => n == "thead"@ || n == "tbody"@ || n == "tfoot"@,
        OptionalRule::CellInRow => n == "td"@ || n == "th"@,
    }
}

/// The element names a rule stops at.
pub open spec fn rule_stops(r: OptionalRule, n: Seq<char>) -> bool {
    match r {
        OptionalRule::Paragraph => false,
        OptionalRule::ListItem => n == "ol"@ || n == "ul"@,
        OptionalRule::CellInTable => n == "table"@,
        OptionalRule::Row => n == "table"@,
        OptionalRule::Section => n == "table"@,
        OptionalRule::CellInRow => n == "table"@ || n == "tr"@,
    }
}

/// Walks the open elements from index `j - 1` down: the first one the rule
/// closes is closed, the first one it stops at ends the walk.
pub open spec fn close_optional_from(st: Seq<NodeModel>, r: OptionalRule, j: int) -> Seq<NodeModel>
    decreases j,
{
    if j <= 0 || j > st.len() {
        st
    } else {
        match element_name(st[j - 1]) {
            None => close_optional_from(st, r, j - 1),
            Some(n) => if rule_closes(r, n) {
                close_element(st, n)
            } else if rule_stops(r, n) {
                st
            } else {
                close_optional_from(st, r, j - 1)
            },
        }
    }
}

/// Applies one rule to the stack.
pub open spec fn close_optional(st: Seq<NodeModel>, r: OptionalRule) -> Seq<NodeModel> {
    close_optional_from(st, r, st.len() as int)
}

/// Start tags that close an open paragraph.
pub open spec fn closes_open_paragraph(n: Seq<char>) -> bool {
    n == "address"@ || n == "article"@ || n == "aside"@ || n == "blockquote"@ || n == "div"@ || n
        == "dl"@ || n == "fieldset"@ || n == "footer"@ || n == "form"@ || n == "h1"@ || n == "h2"@
        || n == "h3"@ || n == "h4"@ || n == "h5"@ || n == "h6"@ || n == "header"@ || n == "hr"@
        || n == "menu"@ || n == "nav"@ || n == "ol"@ || n == "p"@ || n == "pre"@ || n
        == "section"@ || n == "table"@ || n == "ul"@
}

/// The stack after closing the optional elements a start tag `n` ends.
pub open spec fn close_optional_for_start(st: Seq<NodeModel>, n: Seq<char>) -> Seq<NodeModel> {
    let st1 = if closes_open_paragraph(n) {
        close_optional(st, OptionalRule::Paragraph)
    } else {
        st
    };
    if n == "li"@ {
        close_optional(st1, OptionalRule::ListItem)
    } else if n == "thead"@ || n == "tbody"@ || n == "tfoot"@ {
        close_optional(
            close_optional(close_optional(st1, OptionalRule::CellInTable), OptionalRule::Row),
            OptionalRule::Section,
        )
    } else if n == "tr"@ {
        close_optional(close_optional(st1, OptionalRule::CellInTable), OptionalRule::Row)
    } else if n == "td"@ || n == "th"@ {
        close_optional(st1, OptionalRule::CellInRow)
    } else {
        st1
    }
}

/// An element model as the tree builder creates it.
pub open spec fn element_model(name: Seq<char>, attrs: AttrPairs) -> NodeModel {
    NodeModel {
        id: 0,
        kind: KindModel::Element { tag: lower(name), attrs },
        children: Seq::empty(),
        shadow: Seq::empty(),
    }
}

/// The stack after one token.
pub open spec fn build_step(st: Seq<NodeModel>, t: TokenModel) -> Seq<NodeModel> {
    match t {
        TokenModel::Text(x) => append_to_top(st, crate::dom::text_model(0, x)),
        TokenModel::StartTag { name, attrs, self_closing } => {
            let st1 = close_optional_for_start(st, name);
            if self_closing {
                append_to_top(st1, element_model(name, attrs))
            } else {
                st1.push(element_model(name, attrs))
            }
        },
        TokenModel::EndTag(name) => close_element(st, name),
    }
}

/// The stack after the tokens `toks[i..]`.
pub open spec fn build_from(st: Seq<NodeModel>, toks: Seq<TokenModel>, i: int) -> Seq<NodeModel>
    decreases toks.len() - i,
{
    if i < 0 || i >= toks.len() {
        st
    } else {
        build_from(build_step(st, toks[i]), toks, i + 1)
    }
}

/// Number of tokens that create nodes (text and start tags) in `toks[i..]`.
pub open spec fn node_tokens_from(toks: Seq<TokenModel>, i: int) -> nat
    decreases toks.len() - i,
{
    if i < 0 || i >= toks.len() {
        0
    } else {
        (if toks[i] is EndTag {
            0nat
        } else {
            1nat
        }) + node_tokens_from(toks, i + 1)
    }
}

/// The document model.
pub open spec fn document_model() -> NodeModel {
    NodeModel { id: 0, kind: KindModel::Document, children: Seq::empty(), shadow: Seq::empty() }
}

/// The tree the builder produces from the tokens, before ids are assigned.
pub open spec fn build_tree(toks: Seq<TokenModel>) -> NodeModel {
    let st = collapse_to(build_from(seq![document_model()], toks, 0), 1);
    if st.len() > 0 {
        st.last()
    } else {
        document_model()
    }
}


/// The nodes held by the open elements `st`, counted over whole subtrees.
pub open spec fn stack_nodes(st: Seq<NodeModel>) -> nat
    decreases st.len(),
{
    if st.len() == 0 {
        0
    } else {
        stack_nodes(st.drop_last()) + crate::dom::preorder(st.last()).len()
    }
}

/// Whether the stack of open elements is as building keeps it: the
/// document at the bottom, and no shadow children anywhere.
pub open spec fn stack_ok(st: Seq<NodeModel>) -> bool {
    &&& st.len() >= 1
    &&& st[0].kind is Document
    &&& forall|j: int| 0 <= j < st.len() ==> crate::dom::shadow_free(#[trigger] st[j])
}

proof fn lemma_append_to_top(st: Seq<NodeModel>, n: NodeModel)
    requires
        stack_ok(st),
        crate::dom::shadow_free(n),
    ensures
        stack_ok(append_to_top(st, n)),
        stack_nodes(append_to_top(st, n)) == stack_nodes(st) + crate::dom::preorder(n).len(),
        append_to_top(st, n).len() == st.len(),
{
    let r = append_to_top(st, n);
    crate::dom::lemma_with_child(st.last(), n);
    assert(r.drop_last() =~= st.drop_last());
    assert(st[st.len() - 1] == st.last());
    assert(r.last() == crate::dom::with_child(st.last(), n));
    assert forall|j: int| 0 <= j < r.len() implies crate::dom::shadow_free(#[trigger] r[j]) by {
        if j < r.len() - 1 {
            assert(r[j] == st[j]);
        }
    }
}

proof fn lemma_pop_append(st: Seq<NodeModel>)
    requires
        stack_ok(st),
        st.len() >= 2,
    ensures
        stack_ok(pop_append(st)),
        stack_nodes(pop_append(st)) == stack_nodes(st),
        pop_append(st).len() == st.len() - 1,
{
    let d = st.drop_last();
    assert(stack_ok(d)) by {
        assert(d[0] == st[0]);
        assert forall|j: int| 0 <= j < d.len() implies crate::dom::shadow_free(#[trigger] d[j]) by {
            assert(d[j] == st[j]);
        }
    }
    assert(crate::dom::shadow_free(st[st.len() - 1]));
    lemma_append_to_top(d, st.last());
}

proof fn lemma_collapse(st: Seq<NodeModel>, k: int)
    requires
        stack_ok(st),
        k >= 1,
    ensures
        stack_ok(collapse_to(st, k)),
        stack_nodes(collapse_to(st, k)) == stack_nodes(st),
        collapse_to(st, k).len() == if st.len() > k {
            k
        } else {
            st.len() as int
        },
    decreases st.len(),
{
    if st.len() > k {
        lemma_pop_append(st);
        lemma_collapse(pop_append(st), k);
    }
}

proof fn lemma_rpos_bound(st: Seq<NodeModel>, name: Seq<char>, j: int)
    requires
        0 <= j,
    ensures
        rpos_from(st, name, j) < j,
        rpos_from(st, name, j) >= -1,
    decreases j,
{
    if j > 0 && j <= st.len() && element_name(st[j - 1]) != Some(name) {
        lemma_rpos_bound(st, name, j - 1);
    }
}

proof fn lemma_close_element(st: Seq<NodeModel>, name: Seq<char>)
    requires
        stack_ok(st),
    ensures
        stack_ok(close_element(st, name)),
        stack_nodes(close_element(st, name)) == stack_nodes(st),
{
    let p = rpos_from(st, name, st.len() as int);
    lemma_rpos_bound(st, name, st.len() as int);
    if p >= 0 {
        lemma_collapse(st, p + 1);
        let st2 = collapse_to(st, p + 1);
        if st2.len() > 1 {
            lemma_pop_append(st2);
        }
    }
}

proof fn lemma_close_optional_from(st: Seq<NodeModel>, r: OptionalRule, j: int)
    requires
        stack_ok(st),
    ensures
        stack_ok(close_optional_from(st, r, j)),
        stack_nodes(close_optional_from(st, r, j)) == stack_nodes(st),
    decreases j,
{
    if 0 < j <= st.len() {
        match element_name(st[j - 1]) {
            None => lemma_close_optional_from(st, r, j - 1),
            Some(n) => if rule_closes(r, n) {
                lemma_close_element(st, n);
            } else if !rule_stops(r, n) {
                lemma_close_optional_from(st, r, j - 1);
            },
        }
    }
}

proof fn lemma_close_optional_for_start(st: Seq<NodeModel>, n: Seq<char>)
    requires
        stack_ok(st),
    ensures
        stack_ok(close_optional_for_start(st, n)),
        stack_nodes(close_optional_for_start(st, n)) == stack_nodes(st),
{
    let st1 = if closes_open_paragraph(n) {
        close_optional(st, OptionalRule::Paragraph)
    } else {
        st
    };
    lemma_close_optional_from(st, OptionalRule::Paragraph, st.len() as int);
    lemma_close_optional_from(st1, OptionalRule::ListItem, st1.len() as int);
    lemma_close_optional_from(st1, OptionalRule::CellInTable, st1.len() as int);
    lemma_close_optional_from(st1, OptionalRule::CellInRow, st1.len() as int);
    let a = close_optional(st1, OptionalRule::CellInTable);
    lemma_close_optional_from(a, OptionalRule::Row, a.len() as int);
    let b = close_optional(a, OptionalRule::Row);
    lemma_close_optional_from(b, OptionalRule::Section, b.len() as int);
}

/// A node the builder creates, before children are added: one node, no
/// shadow children.
proof fn lemma_new_node(m: NodeModel)
    requires
        m.children.len() == 0,
        m.shadow.len() == 0,
    ensures
        crate::dom::shadow_free(m),
        crate::dom::preorder(m).len() == 1,
{
    assert(crate::dom::preorder_from(m.children, 0) =~= Seq::<u64>::empty());
    assert(crate::dom::preorder_from(m.shadow, 0) =~= Seq::<u64>::empty());
}

proof fn lemma_build_step(st: Seq<NodeModel>, t: TokenModel)
    requires
        stack_ok(st),
    ensures
        stack_ok(build_step(st, t)),
        stack_nodes(build_step(st, t)) == stack_nodes(st) + if t is EndTag {
            0nat
        } else {
            1nat
        },
{
    match t {
        TokenModel::Text(x) => {
            lemma_new_node(crate::dom::text_model(0, x));
            lemma_append_to_top(st, crate::dom::text_model(0, x));
        },
        TokenModel::StartTag { name, attrs, self_closing } => {
            lemma_close_optional_for_start(st, name);
            let st1 = close_optional_for_start(st, name);
            let e = element_model(name, attrs);
            lemma_new_node(e);
            if self_closing {
                lemma_append_to_top(st1, e);
            } else {
                let r = st1.push(e);
                assert(r.drop_last() =~= st1);
                assert(r[0] == st1[0]);
                assert forall|j: int| 0 <= j < r.len() implies crate::dom::shadow_free(#[trigger] r[j]) by {
                    if j < st1.len() {
                        assert(r[j] == st1[j]);
                    }
                }
            }
        },
        TokenModel::EndTag(name) => {
            lemma_close_element(st, name);
        },
    }
}

proof fn lemma_build_from(st: Seq<NodeModel>, toks: Seq<TokenModel>, i: int)
    requires
        stack_ok(st),
        0 <= i,
    ensures
        stack_ok(build_from(st, toks, i)),
        stack_nodes(build_from(st, toks, i)) == stack_nodes(st) + node_tokens_from(toks, i),
    decreases toks.len() - i,
{
    if i < toks.len() {
        lemma_build_step(st, toks[i]);
        lemma_build_from(build_step(st, toks[i]), toks, i + 1);
    }
}

/// The tree built from tokens has the document at its root, one node for
/// each text and start-tag token besides it, and no shadow children.
pub proof fn lemma_build_tree_shape(toks: Seq<TokenModel>)
    ensures
        build_tree(toks).kind is Document,
        crate::dom::shadow_free(build_tree(toks)),
        crate::dom::preorder(build_tree(toks)).len() == node_tokens_from(toks, 0) + 1,
{
    let d = seq![document_model()];
    lemma_new_node(document_model());
    assert(d.drop_last() =~= Seq::<NodeModel>::empty());
    assert(stack_nodes(Seq::<NodeModel>::empty()) == 0);
    assert(d.last() == document_model());
    assert(stack_nodes(d) == 1);
    assert(stack_ok(d)) by {
        assert(d[0] == document_model());
    }
    lemma_build_from(d, toks, 0);
    let b = build_from(d, toks, 0);
    lemma_collapse(b, 1);
    let st = collapse_to(b, 1);
    assert(st.len() == 1);
    assert(st.drop_last() =~= Seq::<NodeModel>::empty());
    assert(stack_nodes(Seq::<NodeModel>::empty()) == 0);
    assert(st.last() == st[0]);
}

/// A parsed document has the document node at its root, one node for each
/// text and start tag besides it (so at most the node limit), no shadow
/// children, and the ids 0, 1, 2, ... in pre-order.
pub proof fn lemma_parsed_document_shape(input: Seq<char>)
    requires
        node_tokens_from(tokenize(input).0, 0) + 1 <= MAX_DOM_NODES,
    ensures
        ({
            let d = crate::dom::assign(build_tree(tokenize(input).0), 0).0;
            &&& d.kind is Document
            &&& crate::dom::shadow_free(d)
            &&& crate::dom::preorder(d).len() == node_tokens_from(tokenize(input).0, 0) + 1
            &&& crate::dom::preorder(d) =~= Seq::new(
                crate::dom::preorder(d).len(),
                |k: int| k as u64,
            )
        }),
{
    let t = build_tree(tokenize(input).0);
    lemma_build_tree_shape(tokenize(input).0);
    crate::dom::lemma_assign_shadow_free(t, 0);
    crate::dom::lemma_assign_numbers_preorder(t, 0);
    let d = crate::dom::assign(t, 0).0;
    assert forall|k: int| 0 <= k < crate::dom::preorder(d).len() implies crate::dom::preorder(d)[k] == k as u64 by {
        assert(crate::dom::preorder(d)[k] == crate::dom::sat_id(0 + k));
    }
}

/// Appends `node` to the children of the top of the stack.
fn append_child(stack: &mut Vec<Node>, node: Node)
    ensures
        models(final(stack)@) == append_to_top(models(old(stack)@), node@),
        final(stack)@.len() == old(stack)@.len(),
{
    broadcast use crate::dom::lemma_model_shape, crate::dom::lemma_models_update, crate::dom::lemma_models_push;

    let n = stack.len();
    if n > 0 {
        let ghost prev = stack@;
        let ghost top = stack@[n - 1];
        stack[n - 1].children.push(node);
        proof {
            let newtop = stack@[n - 1];
            assert(stack@ == prev.update(n - 1, newtop));
            assert(node_model(newtop) =~= crate::dom::with_child(node_model(top), node@));
            assert(models(prev).last() == node_model(top));
        }
    }
}

/// Appends the top of the stack to the node below it.
fn pop_append_exec(stack: &mut Vec<Node>)
    requires
        old(stack)@.len() > 0,
    ensures
        models(final(stack)@) == pop_append(models(old(stack)@)),
        final(stack)@.len() == old(stack)@.len() - 1,
{
    broadcast use crate::dom::lemma_models_drop_last;

    let ghost prev = stack@;
    match stack.pop() {
        Some(node) => {
            proof {
                assert(stack@ == prev.drop_last());
                assert(models(prev).last() == node_model(node));
            }
            append_child(stack, node);
        },
        None => {},
    }
}

/// Pops and appends until at most `k` nodes are left.
fn collapse_to_exec(stack: &mut Vec<Node>, k: usize)
    ensures
        models(final(stack)@) == collapse_to(models(old(stack)@), k as int),
{
    while stack.len() > k && stack.len() > 0
        invariant
            collapse_to(models(stack@), k as int) == collapse_to(models(old(stack)@), k as int),
        decreases stack@.len(),
    {
        pop_append_exec(stack);
    }
}

/// Whether `node` is an element named `name`.
pub(crate) fn element_named(node: &Node, name: &Vec<char>) -> (b: bool)
    ensures
        b == (element_name(node@) == Some(name@)),
{
    proof {
        crate::dom::lemma_children_models(*node);
    }
    match &node.kind {
        NodeKind::Element(e) => {
            let t = chars_of(e.tag_name.as_str());
            crate::text::vec_eq(&t, name)
        },
        _ => false,
    }
}

/// The name of `node` if it is an element.
fn element_name_exec(node: &Node) -> (r: Option<Vec<char>>)
    ensures
        r matches Some(n) ==> element_name(node@) == Some(n@),
        r is None ==> element_name(node@) is None,
{
    proof {
        crate::dom::lemma_children_models(*node);
    }
    match &node.kind {
        NodeKind::Element(e) => Some(chars_of(e.tag_name.as_str())),
        _ => None,
    }
}

/// Index of the highest open element named `name`.
fn rpos_exec(stack: &Vec<Node>, name: &Vec<char>) -> (r: Option<usize>)
    ensures
        r matches Some(p) ==> rpos_from(models(stack@), name@, stack@.len() as int) == p,
        r matches Some(p) ==> p < stack@.len(),
        r is None ==> rpos_from(models(stack@), name@, stack@.len() as int) == -1,
{
    let ghost st = models(stack@);
    let mut j = stack.len();
    while j > 0
        invariant
            j <= stack@.len(),
            st == models(stack@),
            rpos_from(st, name@, j as int) == rpos_from(st, name@, st.len() as int),
        decreases j,
    {
        if element_named(&stack[j - 1], name) {
            return Some(j - 1);
        }
        j -= 1;
    }
    None
}

/// Closes the highest open element named `name`.
fn close_element_exec(stack: &mut Vec<Node>, name: &Vec<char>)
    ensures
        models(final(stack)@) == close_element(models(old(stack)@), name@),
{
    match rpos_exec(stack, name) {
        None => {},
        Some(p) => {
            if p >= stack.len() {
                return;
            }
            collapse_to_exec(stack, p + 1);
            if stack.len() > 1 {
                pop_append_exec(stack);
            }
        },
    }
}

/// `rule_closes` computed.
fn rule_closes_exec(r: OptionalRule, n: &Vec<char>) -> (b: bool)
    ensures
        b == rule_closes(r, n@),
{
    match r {
        OptionalRule::Paragraph => vec_eq_str(n, "p"),
        OptionalRule::ListItem => vec_eq_str(n, "li"),
        OptionalRule::CellInTable => vec_eq_str(n, "td") || vec_eq_str(n, "th"),
        OptionalRule::Row => vec_eq_str(n, "tr"),
        OptionalRule::Section => vec_eq_str(n, "thead") || vec_eq_str(n, "tbody") || vec_eq_str(
            n,
            "tfoot",
        ),
        OptionalRule::CellInRow => vec_eq_str(n, "td") || vec_eq_str(n, "th"),
    }
}

/// `rule_stops` computed.
fn rule_stops_exec(r: OptionalRule, n: &Vec<char>) -> (b: bool)
    ensures
        b == rule_stops(r, n@),
{
    match r {
        OptionalRule::Paragraph => false,
        OptionalRule::ListItem => vec_eq_str(n, "ol") || vec_eq_str(n, "ul"),
        OptionalRule::CellInTable => vec_eq_str(n, "table"),
        OptionalRule::Row => vec_eq_str(n, "table"),
        OptionalRule::Section => vec_eq_str(n, "table"),
        OptionalRule::CellInRow => vec_eq_str(n, "table") || vec_eq_str(n, "tr"),
    }
}

/// Applies one optional-end-tag rule.
fn close_optional_exec(stack: &mut Vec<Node>, r: OptionalRule)
    ensures
        models(final(stack)@) == close_optional(models(old(stack)@), r),
{
    let ghost st = models(stack@);
    let mut j = stack.len();
    while j > 0
        invariant
            j <= stack@.len(),
            st == models(stack@),
            st == models(old(stack)@),
            close_optional_from(st, r, j as int) == close_optional(st, r),
        decreases j,
    {
        match element_name_exec(&stack[j - 1]) {
            None => {},
            Some(n) => {
                if rule_closes_exec(r, &n) {
                    close_element_exec(stack, &n);
                    return;
                }
                if rule_stops_exec(r, &n) {
                    return;
                }
            },
        }
        j -= 1;
    }
}

/// `closes_open_paragraph` computed.
fn closes_open_paragraph_exec(n: &Vec<char>) -> (b: bool)
    ensures
        b == closes_open_paragraph(n@),
{
    vec_eq_str(n, "address") || vec_eq_str(n, "article") || vec_eq_str(n, "aside") || vec_eq_str(
        n,
        "blockquote",
    ) || vec_eq_str(n, "div") || vec_eq_str(n, "dl") || vec_eq_str(n, "fieldset") || vec_eq_str(
        n,
        "footer",
    ) || vec_eq_str(n, "form") || vec_eq_str(n, "h1") || vec_eq_str(n, "h2") || vec_eq_str(
        n,
        "h3",
    ) || vec_eq_str(n, "h4") || vec_eq_str(n, "h5") || vec_eq_str(n, "h6") || vec_eq_str(
        n,
        "header",
    ) || vec_eq_str(n, "hr") || vec_eq_str(n, "menu") || vec_eq_str(n, "nav") || vec_eq_str(
        n,
        "ol",
    ) || vec_eq_str(n, "p") || vec_eq_str(n, "pre") || vec_eq_str(n, "section") || vec_eq_str(
        n,
        "table",
    ) || vec_eq_str(n, "ul")
}

/// Closes the optional elements that a start tag `n` ends.
fn close_optional_for_start_exec(stack: &mut Vec<Node>, n: &Vec<char>)
    ensures
        models(final(stack)@) == close_optional_for_start(models(old(stack)@), n@),
{
    if closes_open_paragraph_exec(n) {
        close_optional_exec(stack, OptionalRule::Paragraph);
    }
    if vec_eq_str(n, "li") {
        close_optional_exec(stack, OptionalRule::ListItem);
    } else if vec_eq_str(n, "thead") || vec_eq_str(n, "tbody") || vec_eq_str(n, "tfoot") {
        close_optional_exec(stack, OptionalRule::CellInTable);
        close_optional_exec(stack, OptionalRule::Row);
        close_optional_exec(stack, OptionalRule::Section);
    } else if vec_eq_str(n, "tr") {
        close_optional_exec(stack, OptionalRule::CellInTable);
        close_optional_exec(stack, OptionalRule::Row);
    } else if vec_eq_str(n, "td") || vec_eq_str(n, "th") {
        close_optional_exec(stack, OptionalRule::CellInRow);
    }
}


/// DOM output plus diagnostics from forgiving HTML recovery.
#[derive(Debug, PartialEq, Eq)]
pub struct ParsedDocument {
    /// Parsed DOM document.
    pub document: Document,
    /// Recoverable parser diagnostics in input order.
    pub diagnostics: Vec<HtmlDiagnostic>,
}

/// The message of an oversized input of `n` bytes.
pub open spec fn input_limit_message(n: nat) -> Seq<char> {
    "HTML input is "@ + crate::text::decimal(n) + " bytes, limit is 4194304 bytes"@
}

/// The message when the node limit is exceeded.
pub open spec fn node_limit_message() -> Seq<char> {
    "DOM node limit 16384 exceeded"@
}

/// Applies one token to the open-element stack.
fn build_step_exec(stack: &mut Vec<Node>, token: &Token)
    ensures
        models(final(stack)@) == build_step(models(old(stack)@), token_model(*token)),
{
    broadcast use crate::dom::lemma_models_push;

    match token {
        Token::Text(text) => {
            let node = Node::text(text.as_str());
            append_child(stack, node);
        },
        Token::StartTag { tag_name, attributes, self_closing } => {
            let name = chars_of(tag_name.as_str());
            close_optional_for_start_exec(stack, &name);
            let node = Node::element(tag_name.as_str(), attributes.clone());
            if *self_closing {
                append_child(stack, node);
            } else {
                stack.push(node);
            }
        },
        Token::EndTag(name) => {
            let n = chars_of(name.as_str());
            close_element_exec(stack, &n);
        },
    }
}

/// Parses HTML into the DOM and keeps deterministic recovery diagnostics.
pub fn parse_document_with_diagnostics(input: &str) -> (r: WebbyResult<ParsedDocument>)
    requires
        crate::text::utf8_len(input@) <= usize::MAX,
    ensures
        crate::text::utf8_len(input@) > MAX_HTML_INPUT_BYTES ==> (r matches Err(
            WebbyError::Parse { message },
        ) && message@ == input_limit_message(crate::text::utf8_len(input@))),
        crate::text::utf8_len(input@) <= MAX_HTML_INPUT_BYTES && node_tokens_from(
            tokenize(input@).0,
            0,
        ) + 1 > MAX_DOM_NODES ==> (r matches Err(WebbyError::Parse { message }) && message@
            == node_limit_message()),
        crate::text::utf8_len(input@) <= MAX_HTML_INPUT_BYTES && node_tokens_from(
            tokenize(input@).0,
            0,
        ) + 1 <= MAX_DOM_NODES ==> (r matches Ok(p) && p.document.root@ =~= crate::dom::assign(
            build_tree(tokenize(input@).0),
            0,
        ).0 && diag_models(p.diagnostics@) == tokenize(input@).1),
{
    let byte_len = input.len();
    if byte_len > MAX_HTML_INPUT_BYTES {
        let mut message = crate::text::string_from("HTML input is ");
        let n = crate::text::decimal_string(byte_len as u64);
        crate::text::push_str(&mut message, n.as_str());
        crate::text::push_str(&mut message, " bytes, limit is 4194304 bytes");
        return Err(WebbyError::Parse { message });
    }
    let v = chars_of(input);
    let (tokens, diagnostics) = tokenize_exec(&v);
    let ghost toks = token_models(tokens@);
    let mut stack: Vec<Node> = Vec::new();
    stack.push(Node::document());
    let mut node_count: usize = 1;
    let mut i: usize = 0;
    proof {
        assert(models(stack@) =~= seq![document_model()]);
    }
    while i < tokens.len()
        invariant
            i <= tokens@.len(),
            toks == token_models(tokens@),
            node_count + node_tokens_from(toks, i as int) == 1 + node_tokens_from(toks, 0),
            node_count <= MAX_DOM_NODES,
            toks == tokenize(input@).0,
            crate::text::utf8_len(input@) <= MAX_HTML_INPUT_BYTES,
            build_from(models(stack@), toks, i as int) == build_from(
                seq![document_model()],
                toks,
                0,
            ),
        decreases tokens@.len() - i,
    {
        let token = &tokens[i];
        let creates = match token {
            Token::EndTag(_) => false,
            _ => true,
        };
        if creates {
            node_count = node_count + 1;
            if node_count > MAX_DOM_NODES {
                proof {
                    assert(node_tokens_from(toks, i as int) == 1 + node_tokens_from(toks, i as int + 1));
                }
                return Err(WebbyError::Parse { message: crate::text::string_from("DOM node limit 16384 exceeded") });
            }
        }
        build_step_exec(&mut stack, token);
        i += 1;
    }
    collapse_to_exec(&mut stack, 1);
    let root = match stack.pop() {
        Some(node) => node,
        None => Node::document(),
    };
    let mut document = Document { root };
    document.assign_stable_ids();
    Ok(ParsedDocument { document, diagnostics })
}

/// Parses HTML into the DOM.
pub fn parse_document(input: &str) -> (r: WebbyResult<Document>)
    requires
        crate::text::utf8_len(input@) <= usize::MAX,
    ensures
        crate::text::utf8_len(input@) > MAX_HTML_INPUT_BYTES ==> (r matches Err(
            WebbyError::Parse { message },
        ) && message@ == input_limit_message(crate::text::utf8_len(input@))),
        crate::text::utf8_len(input@) <= MAX_HTML_INPUT_BYTES && node_tokens_from(
            tokenize(input@).0,
            0,
        ) + 1 > MAX_DOM_NODES ==> (r matches Err(WebbyError::Parse { message }) && message@
            == node_limit_message()),
        crate::text::utf8_len(input@) <= MAX_HTML_INPUT_BYTES && node_tokens_from(
            tokenize(input@).0,
            0,
        ) + 1 <= MAX_DOM_NODES ==> (r matches Ok(d) && d.root@ =~= crate::dom::assign(
            build_tree(tokenize(input@).0),
            0,
        ).0),
{
    match parse_document_with_diagnostics(input) {
        Ok(p) => Ok(p.document),
        Err(e) => Err(e),
    }
}

} // verus!
