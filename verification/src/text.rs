//! Character-level text helpers shared by every module.
//!
//! Text is modelled as a `Seq<char>` (the view of `str` and `String`).
//! Positions are character indices; the UTF-8 byte length of a prefix is
//! available through [`utf8_len`].

use vstd::prelude::*;

verus! {

/// Unicode `White_Space`, as `char::is_whitespace` classifies it.
pub open spec fn is_ws(c: char) -> bool {
    let u = c as u32;
    (9 <= u && u <= 13) || u == 32 || u == 0x85 || u == 0xa0 || u == 0x1680 || (0x2000 <= u
        && u <= 0x200a) || u == 0x2028 || u == 0x2029 || u == 0x202f || u == 0x205f || u
        == 0x3000
}

/// ASCII whitespace, as `char::is_ascii_whitespace` classifies it.
pub open spec fn is_ascii_ws(c: char) -> bool {
    c == ' ' || c == '\t' || c == '\n' || c == '\x0C' || c == '\r'
}

/// ASCII digit `0`-`9`.
pub open spec fn is_digit(c: char) -> bool {
    '0' <= c && c <= '9'
}

/// ASCII letter.
pub open spec fn is_alpha(c: char) -> bool {
    ('a' <= c && c <= 'z') || ('A' <= c && c <= 'Z')
}

/// ASCII letter or digit.
pub open spec fn is_alnum(c: char) -> bool {
    is_alpha(c) || is_digit(c)
}

/// Control characters (general category Cc), as `char::is_control` classifies them.
pub open spec fn is_control(c: char) -> bool {
    let u = c as u32;
    u <= 0x1f || (0x7f <= u && u <= 0x9f)
}

/// ASCII lowercase mapping of one character.
pub open spec fn lower_char(c: char) -> char {
    if 'A' <= c && c <= 'Z' {
        ((c as u32) + 32) as char
    } else {
        c
    }
}

/// ASCII lowercase mapping of a text, as `str::to_ascii_lowercase` does.
pub open spec fn lower(s: Seq<char>) -> Seq<char> {
    Seq::new(s.len(), |i: int| lower_char(s[i]))
}

/// Two texts are equal ignoring ASCII case, as `str::eq_ignore_ascii_case`.
pub open spec fn eq_ignore_case(a: Seq<char>, b: Seq<char>) -> bool {
    lower(a) == lower(b)
}

/// First index at or after `i` (and before `hi`) that is not whitespace.
pub open spec fn skip_ws(s: Seq<char>, i: int, hi: int) -> int
    decreases hi - i,
{
    if i < hi && is_ws(s[i]) {
        skip_ws(s, i + 1, hi)
    } else {
        i
    }
}

/// End of the text in `s[lo..j]` once trailing whitespace is removed.
pub open spec fn skip_ws_back(s: Seq<char>, lo: int, j: int) -> int
    decreases j - lo,
{
    if lo < j && is_ws(s[j - 1]) {
        skip_ws_back(s, lo, j - 1)
    } else {
        j
    }
}

/// `str::trim_start`.
pub open spec fn trim_start(s: Seq<char>) -> Seq<char> {
    s.subrange(skip_ws(s, 0, s.len() as int), s.len() as int)
}

/// `str::trim_end`.
pub open spec fn trim_end(s: Seq<char>) -> Seq<char> {
    s.subrange(0, skip_ws_back(s, 0, s.len() as int))
}

/// `str::trim`.
pub open spec fn trim(s: Seq<char>) -> Seq<char> {
    trim_end(trim_start(s))
}

/// Number of UTF-8 bytes of one character.
pub open spec fn char_utf8_len(c: char) -> nat {
    let u = c as u32;
    if u < 0x80 {
        1
    } else if u < 0x800 {
        2
    } else if u < 0x10000 {
        3
    } else {
        4
    }
}

/// Number of UTF-8 bytes of a text.
pub open spec fn utf8_len(s: Seq<char>) -> nat {
    vstd::utf8::encode_utf8(s).len()
}

/// UTF-8 encoding distributes over concatenation.
pub proof fn lemma_encode_concat(a: Seq<char>, b: Seq<char>)
    ensures
        vstd::utf8::encode_utf8(a + b) == vstd::utf8::encode_utf8(a) + vstd::utf8::encode_utf8(b),
    decreases a.len(),
{
    if a.len() == 0 {
        assert(a + b =~= b);
        assert(vstd::utf8::encode_utf8(a) =~= Seq::<u8>::empty());
        assert(Seq::<u8>::empty() + vstd::utf8::encode_utf8(b) =~= vstd::utf8::encode_utf8(b));
    } else {
        assert((a + b).drop_first() =~= a.drop_first() + b);
        assert((a + b)[0] == a[0]);
        lemma_encode_concat(a.drop_first(), b);
        let e0 = vstd::utf8::encode_scalar(a[0] as u32);
        assert(e0 + (vstd::utf8::encode_utf8(a.drop_first()) + vstd::utf8::encode_utf8(b)) =~= (e0
            + vstd::utf8::encode_utf8(a.drop_first())) + vstd::utf8::encode_utf8(b));
    }
}

/// Bytes of one character.
pub proof fn lemma_encode_char(c: char)
    ensures
        vstd::utf8::encode_utf8(seq![c]).len() == char_utf8_len(c),
{
    vstd::utf8::char_is_scalar(c);
    assert(seq![c].drop_first() =~= Seq::<char>::empty());
    assert(vstd::utf8::encode_utf8(seq![c].drop_first()) =~= Seq::<u8>::empty());
    assert(vstd::utf8::encode_utf8(seq![c]) =~= vstd::utf8::encode_scalar(c as u32));
}

/// The byte length of a prefix grows by one character's bytes.
pub proof fn lemma_utf8_len_push(s: Seq<char>, i: int)
    requires
        0 <= i < s.len(),
    ensures
        utf8_len(s.take(i + 1)) == utf8_len(s.take(i)) + char_utf8_len(s[i]),
        utf8_len(s.take(i + 1)) <= utf8_len(s),
{
    assert(s.take(i + 1) =~= s.take(i) + seq![s[i]]);
    lemma_encode_concat(s.take(i), seq![s[i]]);
    lemma_encode_char(s[i]);
    assert(s =~= s.take(i + 1) + s.skip(i + 1));
    lemma_encode_concat(s.take(i + 1), s.skip(i + 1));
}

/// Byte offset of character index `i` (`utf8_len` of the prefix).
pub fn byte_offset(v: &Vec<char>, i: usize) -> (r: usize)
    requires
        i <= v.len(),
        utf8_len(v@) <= usize::MAX,
    ensures
        r == utf8_len(v@.take(i as int)),
{
    let mut k: usize = 0;
    let mut total: usize = 0;
    proof {
        assert(v@.take(0) =~= Seq::<char>::empty());
    }
    while k < i
        invariant
            k <= i <= v.len(),
            utf8_len(v@) <= usize::MAX,
            total == utf8_len(v@.take(k as int)),
        decreases i - k,
    {
        proof {
            lemma_utf8_len_push(v@, k as int);
        }
        total = total + char_len_utf8(v[k]);
        k += 1;
    }
    total
}

/// `s` starts with `p`.
pub open spec fn starts_with(s: Seq<char>, p: Seq<char>) -> bool {
    p.len() <= s.len() && s.take(p.len() as int) == p
}

/// `s` ends with `p`.
pub open spec fn ends_with(s: Seq<char>, p: Seq<char>) -> bool {
    p.len() <= s.len() && s.skip(s.len() - p.len()) == p
}

/// `p` occurs in `s` at index `i`.
pub open spec fn occurs_at(s: Seq<char>, p: Seq<char>, i: int) -> bool {
    0 <= i && i + p.len() <= s.len() && s.subrange(i, i + p.len()) == p
}

/// Index of the first occurrence of `p` in `s` at or after `i`, as `str::find`.
pub open spec fn find_from(s: Seq<char>, p: Seq<char>, i: int) -> Option<int>
    decreases s.len() + 1 - i,
{
    if i < 0 || i + p.len() > s.len() {
        None
    } else if occurs_at(s, p, i) {
        Some(i)
    } else {
        find_from(s, p, i + 1)
    }
}

/// Index of the first `c` in `s` at or after `i`.
pub open spec fn find_char_from(s: Seq<char>, c: char, i: int) -> Option<int>
    decreases s.len() - i,
{
    if i < 0 || i >= s.len() {
        None
    } else if s[i] == c {
        Some(i)
    } else {
        find_char_from(s, c, i + 1)
    }
}

/// Lexicographic order on texts by code point, which is the byte order of
/// their UTF-8 encodings and so the order of `String`'s `Ord`.
pub open spec fn text_lt(a: Seq<char>, b: Seq<char>) -> bool
    decreases a.len(),
{
    if b.len() == 0 {
        false
    } else if a.len() == 0 {
        true
    } else if a[0] != b[0] {
        a[0] < b[0]
    } else {
        text_lt(a.drop_first(), b.drop_first())
    }
}

/// `text_lt` is irreflexive.
pub proof fn lemma_text_lt_irreflexive(a: Seq<char>)
    ensures
        !text_lt(a, a),
    decreases a.len(),
{
    if a.len() > 0 {
        lemma_text_lt_irreflexive(a.drop_first());
    }
}

/// `text_lt` is total on distinct texts.
pub proof fn lemma_text_lt_total(a: Seq<char>, b: Seq<char>)
    requires
        a != b,
    ensures
        text_lt(a, b) || text_lt(b, a),
    decreases a.len(),
{
    if a.len() > 0 && b.len() > 0 && a[0] == b[0] {
        if a.drop_first() == b.drop_first() {
            assert(a =~= seq![a[0]] + a.drop_first());
            assert(b =~= seq![b[0]] + b.drop_first());
        }
        lemma_text_lt_total(a.drop_first(), b.drop_first());
    } else if a.len() == 0 && b.len() == 0 {
        assert(a =~= b);
    }
}

/// `text_lt` is asymmetric.
pub proof fn lemma_text_lt_asymmetric(a: Seq<char>, b: Seq<char>)
    requires
        text_lt(a, b),
    ensures
        !text_lt(b, a),
    decreases a.len(),
{
    if a.len() > 0 && b.len() > 0 && a[0] == b[0] {
        lemma_text_lt_asymmetric(a.drop_first(), b.drop_first());
    }
}

/// `text_lt` is transitive.
pub proof fn lemma_text_lt_transitive(a: Seq<char>, b: Seq<char>, c: Seq<char>)
    requires
        text_lt(a, b),
        text_lt(b, c),
    ensures
        text_lt(a, c),
    decreases a.len(),
{
    if a.len() > 0 && b.len() > 0 && c.len() > 0 && a[0] == b[0] && b[0] == c[0] {
        lemma_text_lt_transitive(a.drop_first(), b.drop_first(), c.drop_first());
    }
}

/// Collects the characters of `s` in order.
pub fn chars_of(s: &str) -> (out: Vec<char>)
    ensures
        out@ == s@,
{
    let mut out: Vec<char> = Vec::new();
    for c in it: s.chars()
        invariant
            out@ == it.seq().take(it.index() as int),
            it.seq() == s@,
    {
        out.push(c);
    }
    proof {
        assert(out@ =~= s@);
    }
    out
}

/// Appends one character to `s` (`String::push`).
#[verifier::external_body]
pub fn push_char(s: &mut String, c: char)
    ensures
        final(s)@ == old(s)@.push(c),
{
    s.push(c);
}

/// Appends `t` to `s`.
pub fn push_str(s: &mut String, t: &str)
    ensures
        final(s)@ == old(s)@ + t@,
{
    s.append(t);
}

/// Builds a `String` from `v[lo..hi]`.
pub fn string_of_range(v: &Vec<char>, lo: usize, hi: usize) -> (out: String)
    requires
        lo <= hi <= v.len(),
    ensures
        out@ == v@.subrange(lo as int, hi as int),
{
    let mut out = String::new();
    let mut i = lo;
    while i < hi
        invariant
            lo <= i <= hi <= v.len(),
            out@ == v@.subrange(lo as int, i as int),
        decreases hi - i,
    {
        push_char(&mut out, v[i]);
        i += 1;
        proof {
            assert(out@ =~= v@.subrange(lo as int, i as int));
        }
    }
    out
}

/// Builds a `String` from all of `v`.
pub fn string_of(v: &Vec<char>) -> (out: String)
    ensures
        out@ == v@,
{
    let out = string_of_range(v, 0, v.len());
    proof {
        assert(v@.subrange(0, v@.len() as int) =~= v@);
    }
    out
}

/// Copies `v[lo..hi]`.
pub fn slice_of(v: &Vec<char>, lo: usize, hi: usize) -> (out: Vec<char>)
    requires
        lo <= hi <= v.len(),
    ensures
        out@ == v@.subrange(lo as int, hi as int),
{
    let mut out: Vec<char> = Vec::new();
    let mut i = lo;
    while i < hi
        invariant
            lo <= i <= hi <= v.len(),
            out@ == v@.subrange(lo as int, i as int),
        decreases hi - i,
    {
        out.push(v[i]);
        i += 1;
        proof {
            assert(out@ =~= v@.subrange(lo as int, i as int));
        }
    }
    out
}

/// A new `String` holding `t`.
pub fn string_from(t: &str) -> (out: String)
    ensures
        out@ == t@,
{
    let mut out = String::new();
    out.append(t);
    proof {
        assert(out@ =~= t@);
    }
    out
}

/// `char::is_whitespace`.
pub fn char_is_ws(c: char) -> (b: bool)
    ensures
        b == is_ws(c),
{
    let u = c as u32;
    (9 <= u && u <= 13) || u == 32 || u == 0x85 || u == 0xa0 || u == 0x1680 || (0x2000 <= u
        && u <= 0x200a) || u == 0x2028 || u == 0x2029 || u == 0x202f || u == 0x205f || u
        == 0x3000
}

/// `char::is_ascii_whitespace`.
pub fn char_is_ascii_ws(c: char) -> (b: bool)
    ensures
        b == is_ascii_ws(c),
{
    c == ' ' || c == '\t' || c == '\n' || c == '\x0C' || c == '\r'
}

/// `char::is_control`.
pub fn char_is_control(c: char) -> (b: bool)
    ensures
        b == is_control(c),
{
    let u = c as u32;
    u <= 0x1f || (0x7f <= u && u <= 0x9f)
}

/// `char::is_ascii_digit`.
pub fn char_is_digit(c: char) -> (b: bool)
    ensures
        b == is_digit(c),
{
    '0' <= c && c <= '9'
}

/// `char::is_ascii_alphanumeric`.
pub fn char_is_alnum(c: char) -> (b: bool)
    ensures
        b == is_alnum(c),
{
    ('a' <= c && c <= 'z') || ('A' <= c && c <= 'Z') || ('0' <= c && c <= '9')
}

/// `char::is_ascii_alphabetic`.
pub fn char_is_alpha(c: char) -> (b: bool)
    ensures
        b == is_alpha(c),
{
    ('a' <= c && c <= 'z') || ('A' <= c && c <= 'Z')
}

/// `char::to_ascii_lowercase`.
pub fn char_lower(c: char) -> (r: char)
    ensures
        r == lower_char(c),
{
    if 'A' <= c && c <= 'Z' {
        let u = (c as u32) + 32;
        assert(0x61 <= u && u <= 0x7a);
        let r = char_from_ascii(u as u8);
        r
    } else {
        c
    }
}

/// The character whose code is the ASCII byte `b`.
pub fn char_from_ascii(b: u8) -> (c: char)
    requires
        b < 128,
    ensures
        c as u32 == b as u32,
{
    b as char
}

/// The UTF-8 length of one character, as `char::len_utf8`.
pub fn char_len_utf8(c: char) -> (n: usize)
    ensures
        n == char_utf8_len(c),
{
    let u = c as u32;
    if u < 0x80 {
        1
    } else if u < 0x800 {
        2
    } else if u < 0x10000 {
        3
    } else {
        4
    }
}

/// ASCII-lowercased copy of `v`.
pub fn lower_vec(v: &Vec<char>) -> (out: Vec<char>)
    ensures
        out@ == lower(v@),
{
    let mut out: Vec<char> = Vec::new();
    let mut i: usize = 0;
    while i < v.len()
        invariant
            i <= v.len(),
            out@ =~= lower(v@.take(i as int)),
        decreases v.len() - i,
    {
        out.push(char_lower(v[i]));
        i += 1;
    }
    proof {
        assert(v@.take(v@.len() as int) =~= v@);
    }
    out
}

/// ASCII-lowercased copy of `s` (`str::to_ascii_lowercase`).
pub fn lower_string(s: &str) -> (out: String)
    ensures
        out@ == lower(s@),
{
    let v = chars_of(s);
    let l = lower_vec(&v);
    string_of(&l)
}

/// `skip_ws` computed.
pub fn skip_ws_exec(v: &Vec<char>, i: usize, hi: usize) -> (r: usize)
    requires
        i <= hi <= v.len(),
    ensures
        r == skip_ws(v@, i as int, hi as int),
        i <= r <= hi,
{
    let mut j = i;
    while j < hi && char_is_ws(v[j])
        invariant
            i <= j <= hi <= v.len(),
            skip_ws(v@, j as int, hi as int) == skip_ws(v@, i as int, hi as int),
        decreases hi - j,
    {
        j += 1;
    }
    j
}

/// `skip_ws_back` computed.
pub fn skip_ws_back_exec(v: &Vec<char>, lo: usize, j: usize) -> (r: usize)
    requires
        lo <= j <= v.len(),
    ensures
        r == skip_ws_back(v@, lo as int, j as int),
        lo <= r <= j,
{
    let mut k = j;
    while lo < k && char_is_ws(v[k - 1])
        invariant
            lo <= k <= j <= v.len(),
            skip_ws_back(v@, lo as int, k as int) == skip_ws_back(v@, lo as int, j as int),
        decreases k - lo,
    {
        k -= 1;
    }
    k
}

/// Trimmed copy of `v` (`str::trim`).
pub fn trim_vec(v: &Vec<char>) -> (out: Vec<char>)
    ensures
        out@ == trim(v@),
{
    let a = skip_ws_exec(v, 0, v.len());
    let t = slice_of(v, a, v.len());
    let b = skip_ws_back_exec(&t, 0, t.len());
    let out = slice_of(&t, 0, b);
    out
}

/// Characters of `s`, trimmed.
pub fn trimmed_chars(s: &str) -> (out: Vec<char>)
    ensures
        out@ == trim(s@),
{
    let v = chars_of(s);
    trim_vec(&v)
}

/// Characters of `s`, trimmed and ASCII-lowercased.
pub fn trimmed_lower_chars(s: &str) -> (out: Vec<char>)
    ensures
        out@ == lower(trim(s@)),
{
    let t = trimmed_chars(s);
    lower_vec(&t)
}

/// Whether `v` holds exactly the text `t`.
pub fn vec_eq_str(v: &Vec<char>, t: &str) -> (b: bool)
    ensures
        b == (v@ == t@),
{
    let w = chars_of(t);
    vec_eq(v, &w)
}

/// Whether two character vectors are equal.
pub fn vec_eq(v: &Vec<char>, w: &Vec<char>) -> (b: bool)
    ensures
        b == (v@ == w@),
{
    if v.len() != w.len() {
        return false;
    }
    let mut i: usize = 0;
    while i < v.len()
        invariant
            i <= v.len() == w.len(),
            v@.take(i as int) == w@.take(i as int),
        decreases v.len() - i,
    {
        if v[i] != w[i] {
            proof {
                assert(v@[i as int] != w@[i as int]);
            }
            return false;
        }
        proof {
            assert(v@.take(i + 1) =~= v@.take(i as int).push(v@[i as int]));
            assert(w@.take(i + 1) =~= w@.take(i as int).push(w@[i as int]));
        }
        i += 1;
    }
    proof {
        assert(v@.take(v@.len() as int) =~= v@);
        assert(w@.take(w@.len() as int) =~= w@);
    }
    true
}

/// Whether `v` equals `t` ignoring ASCII case.
pub fn vec_eq_ignore_case(v: &Vec<char>, t: &str) -> (b: bool)
    ensures
        b == eq_ignore_case(v@, t@),
{
    let w = chars_of(t);
    let lv = lower_vec(v);
    let lw = lower_vec(&w);
    vec_eq(&lv, &lw)
}

/// Whether `v[i..]` starts with the text `p`.
pub fn starts_with_at(v: &Vec<char>, i: usize, p: &str) -> (b: bool)
    requires
        i <= v.len(),
    ensures
        b == occurs_at(v@, p@, i as int),
{
    let w = chars_of(p);
    occurs_at_exec(v, i, &w)
}

/// Whether `w` occurs in `v` at index `i`.
pub fn occurs_at_exec(v: &Vec<char>, i: usize, w: &Vec<char>) -> (b: bool)
    requires
        i <= v.len(),
    ensures
        b == occurs_at(v@, w@, i as int),
{
    if w.len() > v.len() - i {
        return false;
    }
    let mut k: usize = 0;
    while k < w.len()
        invariant
            k <= w.len(),
            i + w.len() <= v.len(),
            v@.subrange(i as int, i + k) == w@.take(k as int),
        decreases w.len() - k,
    {
        if v[i + k] != w[k] {
            proof {
                assert(v@.subrange(i as int, i + w@.len())[k as int] != w@[k as int]);
            }
            return false;
        }
        proof {
            assert(v@.subrange(i as int, i + k + 1) =~= v@.subrange(i as int, i + k).push(
                v@[i + k],
            ));
            assert(w@.take(k + 1) =~= w@.take(k as int).push(w@[k as int]));
        }
        k += 1;
    }
    proof {
        assert(w@.take(w@.len() as int) =~= w@);
    }
    true
}

/// First occurrence of `w` in `v` at or after `i`, as `str::find`.
pub fn find_exec(v: &Vec<char>, w: &Vec<char>, i: usize) -> (r: Option<usize>)
    requires
        i <= v.len(),
    ensures
        r matches Some(k) ==> find_from(v@, w@, i as int) == Some(k as int),
        r is None ==> find_from(v@, w@, i as int) is None,
{
    let mut k = i;
    while k <= v.len()
        invariant
            i <= k,
            k <= v.len() + 1,
            find_from(v@, w@, k as int) == find_from(v@, w@, i as int),
        decreases v.len() + 1 - k,
    {
        if w.len() > v.len() - k {
            return None;
        }
        if occurs_at_exec(v, k, w) {
            return Some(k);
        }
        proof {
            if k == v.len() {
                assert(v@.subrange(k as int, k as int) =~= w@);
            }
        }
        if k == v.len() {
            return None;
        }
        k += 1;
    }
    None
}

/// First occurrence of `c` in `v` at or after `i`.
pub fn find_char_exec(v: &Vec<char>, c: char, i: usize) -> (r: Option<usize>)
    ensures
        r matches Some(k) ==> find_char_from(v@, c, i as int) == Some(k as int) && k < v.len(),
        r is None ==> find_char_from(v@, c, i as int) is None,
{
    let mut k = i;
    while k < v.len()
        invariant
            i <= k,
            find_char_from(v@, c, k as int) == find_char_from(v@, c, i as int),
        decreases v.len() - k,
    {
        if v[k] == c {
            return Some(k);
        }
        k += 1;
    }
    None
}

/// Code-point lexicographic comparison: whether `a` sorts before `b`.
pub fn text_lt_exec(a: &Vec<char>, b: &Vec<char>) -> (r: bool)
    ensures
        r == text_lt(a@, b@),
{
    let mut i: usize = 0;
    proof {
        assert(a@.skip(0) =~= a@);
        assert(b@.skip(0) =~= b@);
    }
    while i < a.len() && i < b.len()
        invariant
            i <= a.len(),
            i <= b.len(),
            text_lt(a@.skip(i as int), b@.skip(i as int)) == text_lt(a@, b@),
        decreases a.len() - i,
    {
        if a[i] != b[i] {
            return a[i] < b[i];
        }
        proof {
            assert(a@.skip(i as int).drop_first() =~= a@.skip(i + 1));
            assert(b@.skip(i as int).drop_first() =~= b@.skip(i + 1));
        }
        i += 1;
    }
    i < b.len()
}


/// Bounds of `skip_ws`.
pub proof fn lemma_skip_ws(s: Seq<char>, i: int, hi: int)
    requires
        i <= hi,
    ensures
        i <= skip_ws(s, i, hi) <= hi,
        forall|k: int| i <= k < skip_ws(s, i, hi) ==> is_ws(#[trigger] s[k]),
        skip_ws(s, i, hi) < hi ==> !is_ws(s[skip_ws(s, i, hi)]),
    decreases hi - i,
{
    if i < hi && is_ws(s[i]) {
        lemma_skip_ws(s, i + 1, hi);
    }
}

/// Bounds of `skip_ws_back`.
pub proof fn lemma_skip_ws_back(s: Seq<char>, lo: int, j: int)
    requires
        lo <= j,
    ensures
        lo <= skip_ws_back(s, lo, j) <= j,
    decreases j - lo,
{
    if lo < j && is_ws(s[j - 1]) {
        lemma_skip_ws_back(s, lo, j - 1);
    }
}

/// Bounds of `find_char_from`.
pub proof fn lemma_find_char(s: Seq<char>, c: char, i: int)
    requires
        0 <= i,
    ensures
        find_char_from(s, c, i) matches Some(k) ==> i <= k < s.len() && s[k] == c,
        find_char_from(s, c, i) matches Some(k) ==> forall|j: int| i <= j < k ==> #[trigger] s[j] != c,
        find_char_from(s, c, i) is None ==> forall|j: int| i <= j < s.len() ==> #[trigger] s[j] != c,
    decreases s.len() - i,
{
    if i < s.len() && s[i] != c {
        lemma_find_char(s, c, i + 1);
    }
}

/// Bounds of `find_from`.
pub proof fn lemma_find_from(s: Seq<char>, p: Seq<char>, i: int)
    requires
        0 <= i,
    ensures
        find_from(s, p, i) matches Some(k) ==> i <= k && k + p.len() <= s.len() && occurs_at(s, p, k),
    decreases s.len() + 1 - i,
{
    if i + p.len() <= s.len() && !occurs_at(s, p, i) {
        lemma_find_from(s, p, i + 1);
    }
}

/// Every non-overlapping occurrence of `p`, left to right, replaced by `r`,
/// as `str::replace` does.
pub open spec fn replace_all(s: Seq<char>, p: Seq<char>, r: Seq<char>) -> Seq<char>
    decreases s.len(),
{
    if p.len() == 0 || s.len() == 0 {
        s
    } else if starts_with(s, p) {
        r + replace_all(s.skip(p.len() as int), p, r)
    } else {
        seq![s[0]] + replace_all(s.drop_first(), p, r)
    }
}

/// `str::replace` on a character vector.
pub fn replace_all_exec(v: &Vec<char>, p: &str, r: &str) -> (out: Vec<char>)
    ensures
        out@ == replace_all(v@, p@, r@),
{
    let pv = chars_of(p);
    let rv = chars_of(r);
    if pv.len() == 0 {
        return slice_of(v, 0, v.len());
    }
    let mut out: Vec<char> = Vec::new();
    let mut i: usize = 0;
    proof {
        assert(v@.skip(0) =~= v@);
    }
    while i < v.len()
        invariant
            i <= v.len(),
            pv@ == p@,
            rv@ == r@,
            pv@.len() > 0,
            out@ + replace_all(v@.skip(i as int), p@, r@) == replace_all(v@, p@, r@),
        decreases v.len() - i,
    {
        let ghost t = v@.skip(i as int);
        if occurs_at_exec(v, i, &pv) {
            proof {
                assert(t.take(pv@.len() as int) =~= v@.subrange(i as int, i + pv@.len()));
                assert(t.skip(pv@.len() as int) =~= v@.skip(i + pv@.len()));
                assert(out@ + rv@ + replace_all(v@.skip(i + pv@.len()), p@, r@) =~= out@
                    + replace_all(t, p@, r@));
            }
            let mut k: usize = 0;
            let ghost out0 = out@;
            while k < rv.len()
                invariant
                    k <= rv.len(),
                    out@ =~= out0 + rv@.take(k as int),
                decreases rv.len() - k,
            {
                out.push(rv[k]);
                k += 1;
            }
            proof {
                assert(rv@.take(rv@.len() as int) =~= rv@);
            }
            i += pv.len();
        } else {
            proof {
                if t.len() >= pv@.len() {
                    assert(t.take(pv@.len() as int) =~= v@.subrange(i as int, i + pv@.len()));
                }
                assert(t.drop_first() =~= v@.skip(i + 1));
                assert(out@.push(v@[i as int]) + replace_all(v@.skip(i + 1), p@, r@) =~= out@
                    + replace_all(t, p@, r@));
            }
            out.push(v[i]);
            i += 1;
        }
    }
    proof {
        assert(v@.skip(i as int) =~= Seq::<char>::empty());
        assert(out@ + Seq::<char>::empty() =~= out@);
    }
    out
}


/// Digit character for a value below 16 (lowercase letters above 9).
pub open spec fn digit_char(d: nat) -> char {
    if d < 10 {
        (('0' as u32) + d) as char
    } else {
        (('a' as u32) + d - 10) as char
    }
}

/// The numeral of `n` in base `b` without leading zeros, as `{}` and `{:x}`
/// format integers.
pub open spec fn numeral(n: nat, b: nat) -> Seq<char>
    decreases n,
{
    if b < 2 || n < b {
        seq![digit_char(n)]
    } else {
        proof {
            lemma_div_smaller(n, b);
        }
        numeral(n / b, b).push(digit_char(n % b))
    }
}

/// Dividing by at least two makes a positive number smaller.
pub proof fn lemma_div_smaller(n: nat, b: nat)
    requires
        b >= 2,
        n >= b,
    ensures
        n / b < n,
{
    assert(n / b < n) by (nonlinear_arith)
        requires
            b >= 2,
            n >= b,
    ;
}

/// Decimal numeral of `n`.
pub open spec fn decimal(n: nat) -> Seq<char> {
    numeral(n, 10)
}

/// Lowercase hexadecimal numeral of `n`.
pub open spec fn hex(n: nat) -> Seq<char> {
    numeral(n, 16)
}

/// Digit character for a value below 16.
pub fn digit_char_exec(d: u64) -> (c: char)
    requires
        d < 16,
    ensures
        c == digit_char(d as nat),
{
    if d < 10 {
        char_from_ascii((48 + d) as u8)
    } else {
        char_from_ascii((97 + d - 10) as u8)
    }
}

/// The numeral of `n` in base `b` (2 to 16).
pub fn numeral_exec(n: u64, b: u64) -> (out: Vec<char>)
    requires
        2 <= b <= 16,
    ensures
        out@ == numeral(n as nat, b as nat),
    decreases n,
{
    if n < b {
        let mut out = Vec::new();
        out.push(digit_char_exec(n));
        out
    } else {
        proof {
            lemma_div_smaller(n as nat, b as nat);
        }
        let mut out = numeral_exec(n / b, b);
        out.push(digit_char_exec(n % b));
        out
    }
}

/// Decimal numeral of `n` as a `String`.
pub fn decimal_string(n: u64) -> (out: String)
    ensures
        out@ == decimal(n as nat),
{
    let v = numeral_exec(n, 10);
    string_of(&v)
}


/// Whitespace of the chosen kind: ASCII (`split_ascii_whitespace`) or
/// Unicode (`split_whitespace`).
pub open spec fn is_sep(c: char, ascii: bool) -> bool {
    if ascii {
        is_ascii_ws(c)
    } else {
        is_ws(c)
    }
}

/// First separator at or after `i`, or the end.
pub open spec fn word_end(s: Seq<char>, i: int, ascii: bool) -> int
    decreases s.len() - i,
{
    if i < 0 || i >= s.len() || is_sep(s[i], ascii) {
        i
    } else {
        word_end(s, i + 1, ascii)
    }
}

/// First non-separator at or after `i`, or the end.
pub open spec fn word_start(s: Seq<char>, i: int, ascii: bool) -> int
    decreases s.len() - i,
{
    if 0 <= i < s.len() && is_sep(s[i], ascii) {
        word_start(s, i + 1, ascii)
    } else {
        i
    }
}

/// Bounds of `word_start` and `word_end`.
pub proof fn lemma_word_bounds(s: Seq<char>, i: int, ascii: bool)
    requires
        0 <= i <= s.len(),
    ensures
        i <= word_start(s, i, ascii) <= s.len(),
        i <= word_end(s, i, ascii) <= s.len(),
        word_start(s, i, ascii) < s.len() ==> !is_sep(s[word_start(s, i, ascii)], ascii),
        forall|k: int| i <= k < word_end(s, i, ascii) ==> !is_sep(#[trigger] s[k], ascii),
    decreases s.len() - i,
{
    if i < s.len() {
        lemma_word_bounds(s, i + 1, ascii);
    }
}

/// The words of `s[i..]`: maximal runs without separators, in order.
pub open spec fn words_from(s: Seq<char>, i: int, ascii: bool) -> Seq<Seq<char>>
    decreases s.len() - i,
    when 0 <= i <= s.len()
{
    let a = word_start(s, i, ascii);
    if a >= s.len() || a < i {
        Seq::empty()
    } else {
        let b = word_end(s, a, ascii);
        if b <= a || b > s.len() {
            Seq::empty()
        } else {
            seq![s.subrange(a, b)] + words_from(s, b, ascii)
        }
    }
}

/// The words of `s`, as `split_ascii_whitespace` (`ascii`) or
/// `split_whitespace` yields them.
pub open spec fn words(s: Seq<char>, ascii: bool) -> Seq<Seq<char>> {
    words_from(s, 0, ascii)
}

/// `is_sep` computed.
pub fn char_is_sep(c: char, ascii: bool) -> (b: bool)
    ensures
        b == is_sep(c, ascii),
{
    if ascii {
        char_is_ascii_ws(c)
    } else {
        char_is_ws(c)
    }
}

/// The words of `v`, split at ASCII (`ascii`) or Unicode whitespace.
pub fn split_words(v: &Vec<char>, ascii: bool) -> (out: Vec<Vec<char>>)
    ensures
        out@.len() == words(v@, ascii).len(),
        forall|k: int| 0 <= k < out@.len() ==> #[trigger] out@[k]@ == words(v@, ascii)[k],
{
    let mut out: Vec<Vec<char>> = Vec::new();
    let mut i: usize = 0;
    proof {
        assert(Seq::<Seq<char>>::empty() + words_from(v@, 0, ascii) =~= words(v@, ascii));
    }
    while i < v.len()
        invariant
            i <= v.len(),
            Seq::new(out@.len(), |k: int| out@[k]@) + words_from(v@, i as int, ascii) == words(
                v@,
                ascii,
            ),
        decreases v.len() - i,
    {
        proof {
            lemma_word_bounds(v@, i as int, ascii);
        }
        let ghost before = Seq::new(out@.len(), |k: int| out@[k]@);
        let mut a = i;
        while a < v.len() && char_is_sep(v[a], ascii)
            invariant
                i <= a <= v.len(),
                word_start(v@, a as int, ascii) == word_start(v@, i as int, ascii),
            decreases v.len() - a,
        {
            a += 1;
        }
        if a >= v.len() {
            proof {
                assert(words_from(v@, i as int, ascii) =~= Seq::<Seq<char>>::empty());
                assert(before + words_from(v@, v.len() as int, ascii) =~= before);
            }
            i = v.len();
        } else {
            proof {
                lemma_word_bounds(v@, a as int, ascii);
            }
            let mut b = a;
            while b < v.len() && !char_is_sep(v[b], ascii)
                invariant
                    a <= b <= v.len(),
                    word_end(v@, b as int, ascii) == word_end(v@, a as int, ascii),
                decreases v.len() - b,
            {
                b += 1;
            }
            let w = slice_of(v, a, b);
            out.push(w);
            proof {
                let after = Seq::new(out@.len(), |k: int| out@[k]@);
                assert(after =~= before.push(v@.subrange(a as int, b as int)));
                assert(words_from(v@, i as int, ascii) =~= seq![v@.subrange(a as int, b as int)]
                    + words_from(v@, b as int, ascii));
                assert(after + words_from(v@, b as int, ascii) =~= before + words_from(
                    v@,
                    i as int,
                    ascii,
                ));
            }
            i = b;
        }
    }
    proof {
        assert(words_from(v@, v.len() as int, ascii) =~= Seq::<Seq<char>>::empty());
        let m = Seq::new(out@.len(), |k: int| out@[k]@);
        assert(m + Seq::<Seq<char>>::empty() =~= m);
    }
    out
}


/// Appends the characters of `w` to `out`.
pub fn append_chars(out: &mut Vec<char>, w: &Vec<char>)
    ensures
        final(out)@ == old(out)@ + w@,
{
    let ghost before = out@;
    let mut i: usize = 0;
    while i < w.len()
        invariant
            i <= w@.len(),
            out@ == before + w@.take(i as int),
        decreases w@.len() - i,
    {
        out.push(w[i]);
        proof {
            assert(w@.take(i + 1) =~= w@.take(i as int).push(w@[i as int]));
        }
        i += 1;
    }
    proof {
        assert(w@.take(w@.len() as int) =~= w@);
    }
}

/// Appends the characters of `t` to `out`.
pub fn append_str(out: &mut Vec<char>, t: &str)
    ensures
        final(out)@ == old(out)@ + t@,
{
    let w = chars_of(t);
    append_chars(out, &w);
}

/// The value of a run of ASCII digits.
pub open spec fn digits_value(s: Seq<char>) -> nat
    decreases s.len(),
{
    if s.len() == 0 {
        0
    } else {
        digits_value(s.drop_last()) * 10 + ((s.last() as u32) - ('0' as u32)) as nat
    }
}

/// `s` without a leading `+`.
pub open spec fn unsigned_digits(s: Seq<char>) -> Seq<char> {
    if s.len() > 0 && s[0] == '+' {
        s.drop_first()
    } else {
        s
    }
}

/// Whether every character of `d` is an ASCII digit.
pub open spec fn all_digits(d: Seq<char>) -> bool {
    forall|i: int| 0 <= i < d.len() ==> is_digit(#[trigger] d[i])
}

/// Unsigned `from_str` with largest value `max`: an optional `+`, then one
/// or more ASCII digits whose value is at most `max`.
pub open spec fn parse_decimal(s: Seq<char>, max: nat) -> Option<nat> {
    let d = unsigned_digits(s);
    if d.len() > 0 && all_digits(d) && digits_value(d) <= max {
        Some(digits_value(d))
    } else {
        None
    }
}

/// Unsigned `from_str` with largest value `max`, on characters.
pub fn parse_decimal_exec(v: &Vec<char>, max: u64) -> (r: Option<u64>)
    requires
        max >= 9,
    ensures
        match r {
            Some(n) => parse_decimal(v@, max as nat) == Some(n as nat),
            None => parse_decimal(v@, max as nat) is None,
        },
{
    let start: usize = if v.len() > 0 && v[0] == '+' {
        1
    } else {
        0
    };
    let ghost d = if v@.len() > 0 && v@[0] == '+' {
        v@.drop_first()
    } else {
        v@
    };
    proof {
        assert(d =~= v@.subrange(start as int, v@.len() as int));
    }
    if start >= v.len() {
        return None;
    }
    let mut value: u64 = 0;
    let mut i = start;
    while i < v.len()
        invariant
            start <= i <= v@.len(),
            d == v@.subrange(start as int, v@.len() as int),
            d == unsigned_digits(v@),
            d.len() > 0,
            forall|j: int| 0 <= j < i - start ==> is_digit(#[trigger] d[j]),
            value as nat == digits_value(d.take(i - start)),
            value <= max,
            max >= 9,
        decreases v@.len() - i,
    {
        let c = v[i];
        proof {
            assert(d[i - start] == c);
        }
        if !char_is_digit(c) {
            proof {
                assert(!is_digit(d[i - start]));
            }
            return None;
        }
        let digit: u64 = ((c as u32) - 48) as u64;
        proof {
            assert(d.take(i + 1 - start).drop_last() =~= d.take(i - start));
            assert(d.take(i + 1 - start).last() == c);
        }
        if value > (max - digit) / 10 {
            proof {
                lemma_digits_value_prefix(d, i + 1 - start, d.len() as int);
                let dv = digits_value(d.take(i + 1 - start));
                assert(dv == value * 10 + digit);
                assert(value * 10 + digit > max) by (nonlinear_arith)
                    requires
                        value > (max - digit) / 10,
                        digit <= 9,
                        max >= 9,
                ;
                assert(d.take(d.len() as int) =~= d);
            }
            return None;
        }
        proof {
            assert(value * 10 + digit <= max) by (nonlinear_arith)
                requires
                    value <= (max - digit) / 10,
                    digit <= 9,
                    max >= 9,
            ;
        }
        value = value * 10 + digit;
        i += 1;
    }
    proof {
        assert(d.take(d.len() as int) =~= d);
    }
    Some(value)
}

/// The value of a digit run grows with its prefixes.
proof fn lemma_digits_value_prefix(d: Seq<char>, a: int, b: int)
    requires
        0 <= a <= b <= d.len(),
    ensures
        digits_value(d.take(a)) <= digits_value(d.take(b)),
    decreases b - a,
{
    if a < b {
        lemma_digits_value_prefix(d, a, b - 1);
        assert(d.take(b).drop_last() =~= d.take(b - 1));
        assert(digits_value(d.take(b - 1)) <= digits_value(d.take(b - 1)) * 10) by (nonlinear_arith);
    }
}


/// The pieces of `s` between occurrences of `c`, as `str::split` with a
/// character pattern yields them (always at least one piece).
pub open spec fn split_on(s: Seq<char>, c: char) -> Seq<Seq<char>>
    decreases s.len(),
{
    if s.len() == 0 {
        seq![Seq::empty()]
    } else {
        let r = split_on(s.drop_last(), c);
        if s.last() == c {
            r.push(Seq::empty())
        } else {
            r.update(r.len() - 1, r.last().push(s.last()))
        }
    }
}

/// `split_on` never yields an empty list.
pub proof fn lemma_split_on_len(s: Seq<char>, c: char)
    ensures
        split_on(s, c).len() >= 1,
    decreases s.len(),
{
    if s.len() > 0 {
        lemma_split_on_len(s.drop_last(), c);
    }
}

/// The pieces of `v` between occurrences of `c`.
pub fn split_on_exec(v: &Vec<char>, c: char) -> (out: Vec<Vec<char>>)
    ensures
        out@.len() == split_on(v@, c).len(),
        forall|k: int| 0 <= k < out@.len() ==> #[trigger] out@[k]@ == split_on(v@, c)[k],
{
    let mut out: Vec<Vec<char>> = Vec::new();
    let mut cur: Vec<char> = Vec::new();
    let mut i: usize = 0;
    proof {
        assert(v@.take(0) =~= Seq::<char>::empty());
    }
    while i < v.len()
        invariant
            i <= v@.len(),
            out@.len() + 1 == split_on(v@.take(i as int), c).len(),
            forall|k: int| 0 <= k < out@.len() ==> #[trigger] out@[k]@ == split_on(v@.take(i as int), c)[k],
            cur@ == split_on(v@.take(i as int), c).last(),
        decreases v@.len() - i,
    {
        proof {
            lemma_split_on_len(v@.take(i as int), c);
            assert(v@.take(i + 1).drop_last() =~= v@.take(i as int));
            assert(v@.take(i + 1).last() == v@[i as int]);
        }
        if v[i] == c {
            let done = cur;
            out.push(done);
            cur = Vec::new();
            proof {
                assert(cur@ =~= Seq::<char>::empty());
            }
        } else {
            cur.push(v[i]);
        }
        i += 1;
    }
    out.push(cur);
    proof {
        assert(v@.take(v@.len() as int) =~= v@);
        lemma_split_on_len(v@, c);
    }
    out
}
/// First index at or after `i` whose character is not `c`.
pub open spec fn skip_char(s: Seq<char>, c: char, i: int) -> int
    decreases s.len() - i,
{
    if 0 <= i < s.len() && s[i] == c {
        skip_char(s, c, i + 1)
    } else {
        i
    }
}

/// End of `s[lo..j]` once trailing `c` characters are removed.
pub open spec fn skip_char_back(s: Seq<char>, c: char, lo: int, j: int) -> int
    decreases j - lo,
{
    if lo < j && j <= s.len() && s[j - 1] == c {
        skip_char_back(s, c, lo, j - 1)
    } else {
        j
    }
}

/// `str::trim_matches` with one character.
pub open spec fn trim_char(s: Seq<char>, c: char) -> Seq<char> {
    let a = skip_char(s, c, 0);
    s.subrange(a, skip_char_back(s, c, a, s.len() as int))
}

/// `trim_char` computed.
pub fn trim_char_exec(v: &Vec<char>, c: char) -> (r: Vec<char>)
    ensures
        r@ == trim_char(v@, c),
{
    let mut a: usize = 0;
    while a < v.len() && v[a] == c
        invariant
            a <= v@.len(),
            skip_char(v@, c, a as int) == skip_char(v@, c, 0),
        decreases v@.len() - a,
    {
        a += 1;
    }
    let mut b: usize = v.len();
    while a < b && v[b - 1] == c
        invariant
            a <= b <= v@.len(),
            skip_char_back(v@, c, a as int, b as int) == skip_char_back(v@, c, a as int, v@.len() as int),
        decreases b - a,
    {
        b -= 1;
    }
    slice_of(v, a, b)
}

/// Debug formatting of a text (`{:?}`): quoted, with escapes.
pub uninterp spec fn debug_quoted(s: Seq<char>) -> Seq<char>;

/// Whether every character of `s` is printable ASCII other than `"` and `\`.
pub open spec fn plain_ascii(s: Seq<char>) -> bool {
    forall|i: int| 0 <= i < s.len() ==> ' ' <= #[trigger] s[i] <= '~' && s[i] != '"' && s[i] != '\\'
}

/// `<str as Debug>::fmt` through `format!("{:?}", ..)`. The result is named
/// `debug_quoted`; of it the contract states only what std documents for
/// printable ASCII without quotes or backslashes: the text between double
/// quotes. The escapes of other characters are left unsaid.
#[verifier::external_body]
pub(crate) fn debug_string(s: &str) -> (r: String)
    ensures
        r@ == debug_quoted(s@),
        plain_ascii(s@) ==> r@ == "\""@ + s@ + "\""@,
{
    format!("{:?}", s)
}

} // verus!
