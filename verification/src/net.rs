//! Response metadata rules: header lookup and redaction, media types,
//! download and authentication metadata, content sniffing and text
//! decoding. Fetching bytes is not part of this module.

use vstd::prelude::*;
use base64::Engine;
use crate::text::{chars_of, eq_ignore_case, lower, split_on, trim, trim_char};

verus! {

/// Maximum HTTP redirects followed by the default loader.
pub const MAX_REDIRECTS: usize = 10;

/// Maximum response body bytes retained by the default loader.
pub const MAX_RESPONSE_BYTES: usize = 8388608;

/// Default network timeout for connecting and reading responses, in seconds.
pub const DEFAULT_TIMEOUT_SECS: u64 = 15;

/// What `Duration::from_secs` returns for a number of seconds.
pub uninterp spec fn duration_from_secs(secs: u64) -> std::time::Duration;

/// `std::time::Duration::from_secs`. Its result is named
/// `duration_from_secs`; no other fact about it is used.
#[verifier::external_body]
fn duration_of_secs(secs: u64) -> (d: std::time::Duration)
    ensures
        d == duration_from_secs(secs),
{
    std::time::Duration::from_secs(secs)
}

/// Default network timeout for connecting and reading responses.
pub fn default_timeout() -> (d: std::time::Duration)
    ensures
        d == duration_from_secs(DEFAULT_TIMEOUT_SECS),
{
    duration_of_secs(DEFAULT_TIMEOUT_SECS)
}

/// Metadata used by a shell-managed download.
#[derive(Debug, Clone, PartialEq, Eq)]
pub struct DownloadMetadata {
    /// Unsanitized filename suggested by headers or the final URL.
    pub suggested_filename: String,
    /// Deterministic explanation for why the response is downloaded.
    pub reason: String,
}

/// Browser-shell action suggested by top-level response metadata.
#[derive(Debug, Clone, PartialEq, Eq)]
pub enum NavigationResponseDisposition {
    /// Render the response as an HTML document.
    RenderHtml,
    /// Save the response bytes instead of treating them as HTML.
    Download(DownloadMetadata),
}

/// In-memory HTTP Basic credentials supplied by app/CLI coordination code.
#[derive(Clone, PartialEq, Eq)]
pub struct BasicCredentials {
    /// Username for the protected origin.
    pub username: String,
    /// Password for the protected origin.
    pub password: String,
}

/// Redacted HTTP Basic challenge metadata suitable for app diagnostics.
#[derive(Debug, Clone, PartialEq, Eq)]
pub struct BasicAuthChallenge {
    /// Optional server-provided realm.
    pub realm: Option<String>,
}

/// The character of the standard base64 alphabet for the 6-bit value `v`:
/// `A`-`Z`, `a`-`z`, `0`-`9`, `+`, `/`.
pub open spec fn base64_digit(v: int) -> char {
    if v < 26 {
        (65 + v) as char
    } else if v < 52 {
        (97 + v - 26) as char
    } else if v < 62 {
        (48 + v - 52) as char
    } else if v == 62 {
        '+'
    } else {
        '/'
    }
}

/// Standard base64 with padding: each group of three bytes as four
/// characters of six bits each, a last group of one or two bytes padded
/// with `=` to four characters.
pub open spec fn base64_standard(b: Seq<u8>) -> Seq<char>
    decreases b.len(),
{
    if b.len() == 0 {
        Seq::empty()
    } else {
        let x0 = b[0] as int;
        let x1 = if b.len() > 1 {
            b[1] as int
        } else {
            0
        };
        let x2 = if b.len() > 2 {
            b[2] as int
        } else {
            0
        };
        let c0 = base64_digit(x0 / 4);
        let c1 = base64_digit((x0 % 4) * 16 + x1 / 16);
        let c2 = base64_digit((x1 % 16) * 4 + x2 / 64);
        let c3 = base64_digit(x2 % 64);
        if b.len() == 1 {
            seq![c0, c1, '=', '=']
        } else if b.len() == 2 {
            seq![c0, c1, c2, '=']
        } else {
            seq![c0, c1, c2, c3] + base64_standard(b.skip(3))
        }
    }
}

/// `base64::engine::general_purpose::STANDARD.encode` on the UTF-8 bytes of
/// `text`: the contract claims the crate's standard, padded encoding.
#[verifier::external_body]
fn base64_encode(text: &str) -> (r: String)
    ensures
        r@ == base64_standard(vstd::utf8::encode_utf8(text@)),
{
    base64::engine::general_purpose::STANDARD.encode(text.as_bytes())
}

/// The `Authorization` value of credentials: `Basic ` and the base64 of
/// `username:password`.
pub open spec fn authorization_value(username: Seq<char>, password: Seq<char>) -> Seq<char> {
    "Basic "@ + base64_standard(vstd::utf8::encode_utf8(username + ":"@ + password))
}

impl BasicCredentials {
    /// Creates credentials.
    pub fn new(username: &str, password: &str) -> (r: Self)
        ensures
            r.username@ == username@,
            r.password@ == password@,
    {
        BasicCredentials {
            username: crate::text::string_from(username),
            password: crate::text::string_from(password),
        }
    }

    /// Builds an `Authorization` header value. The returned string contains
    /// credentials and must not be logged directly.
    pub fn authorization_header_value(&self) -> (r: String)
        ensures
            r@ == authorization_value(self.username@, self.password@),
    {
        let mut raw = self.username.clone();
        crate::text::push_str(&mut raw, ":");
        crate::text::push_str(&mut raw, self.password.as_str());
        let encoded = base64_encode(raw.as_str());
        let mut r = crate::text::string_from("Basic ");
        crate::text::push_str(&mut r, encoded.as_str());
        r
    }
}

/// Returns a complete `Authorization` request header for HTTP Basic auth.
pub fn basic_auth_header(credentials: &BasicCredentials) -> (r: (String, String))
    ensures
        r.0@ == "Authorization"@,
        r.1@ == authorization_value(credentials.username@, credentials.password@),
{
    (crate::text::string_from("Authorization"), credentials.authorization_header_value())
}

/// Views of header pairs.
pub open spec fn header_views(h: Seq<(String, String)>) -> Seq<(Seq<char>, Seq<char>)> {
    Seq::new(h.len(), |i: int| (h[i].0@, h[i].1@))
}

/// Headers with the value of each `Authorization` header (any case)
/// replaced by `<redacted>`.
pub open spec fn redacted(h: Seq<(Seq<char>, Seq<char>)>) -> Seq<(Seq<char>, Seq<char>)> {
    Seq::new(
        h.len(),
        |i: int|
            if eq_ignore_case(h[i].0, "authorization"@) {
                (h[i].0, "<redacted>"@)
            } else {
                h[i]
            },
    )
}

/// Redaction keeps every header name and the order, hides the value of
/// every `Authorization` header, keeps other values, and changes nothing
/// when applied again.
pub proof fn lemma_redaction_laws(h: Seq<(Seq<char>, Seq<char>)>)
    ensures
        redacted(h).len() == h.len(),
        forall|i: int| 0 <= i < h.len() ==> (#[trigger] redacted(h)[i]).0 == h[i].0,
        forall|i: int|
            0 <= i < h.len() && eq_ignore_case(h[i].0, "authorization"@) ==> (#[trigger] redacted(h)[i]).1
                == "<redacted>"@,
        forall|i: int|
            0 <= i < h.len() && !eq_ignore_case(h[i].0, "authorization"@) ==> #[trigger] redacted(h)[i] == h[i],
        redacted(redacted(h)) == redacted(h),
{
    assert(redacted(redacted(h)) =~= redacted(h));
}

/// Redacts sensitive authorization header values for deterministic diagnostics.
pub fn redact_request_headers(headers: &[(String, String)]) -> (r: Vec<(String, String)>)
    ensures
        header_views(r@) == redacted(header_views(headers@)),
{
    let mut out: Vec<(String, String)> = Vec::new();
    let mut i: usize = 0;
    while i < headers.len()
        invariant
            i <= headers@.len(),
            header_views(out@) == redacted(header_views(headers@)).take(i as int),
        decreases headers@.len() - i,
    {
        let name = &headers[i].0;
        let n = chars_of(name.as_str());
        let value = if crate::text::vec_eq_ignore_case(&n, "authorization") {
            crate::text::string_from("<redacted>")
        } else {
            headers[i].1.clone()
        };
        let ghost old_out = out@;
        let pair = (name.clone(), value);
        proof {
            assert(n@ == headers@[i as int].0@);
            assert((pair.0@, pair.1@) == redacted(header_views(headers@))[i as int]);
        }
        out.push(pair);
        proof {
            assert(out@ == old_out.push(pair));
            assert(header_views(out@) =~= header_views(old_out).push((pair.0@, pair.1@)));
            assert(header_views(out@) =~= redacted(header_views(headers@)).take(i + 1));
        }
        i += 1;
    }
    proof {
        assert(redacted(header_views(headers@)).take(headers@.len() as int) =~= redacted(
            header_views(headers@),
        ));
    }
    out
}

/// The value of the first header named `name` (ASCII case-insensitive).
pub open spec fn header_lookup(h: Seq<(Seq<char>, Seq<char>)>, name: Seq<char>, i: int) -> Option<
    Seq<char>,
>
    decreases h.len() - i,
{
    if i < 0 || i >= h.len() {
        None
    } else if eq_ignore_case(h[i].0, name) {
        Some(h[i].1)
    } else {
        header_lookup(h, name, i + 1)
    }
}

/// The value of the first header named `name`.
pub fn header_value<'a>(headers: &'a [(String, String)], name: &str) -> (r: Option<&'a String>)
    ensures
        match r {
            Some(v) => header_lookup(header_views(headers@), name@, 0) == Some(v@),
            None => header_lookup(header_views(headers@), name@, 0) is None,
        },
{
    let mut i: usize = 0;
    while i < headers.len()
        invariant
            i <= headers@.len(),
            header_lookup(header_views(headers@), name@, i as int) == header_lookup(
                header_views(headers@),
                name@,
                0,
            ),
        decreases headers@.len() - i,
    {
        let n = chars_of(headers[i].0.as_str());
        let l = crate::text::lower_vec(&n);
        let m = crate::text::lower_vec(&chars_of(name));
        if crate::text::vec_eq(&l, &m) {
            return Some(&headers[i].1);
        }
        i += 1;
    }
    None
}

/// The media type of a `Content-Type` value: before any `;`, trimmed and
/// lowercased.
pub open spec fn media_type_of(v: Seq<char>) -> Seq<char> {
    lower(trim(split_on(v, ';')[0]))
}

/// The first `;`-separated piece of `v`.
fn first_piece(v: &str, sep: char) -> (r: Vec<char>)
    ensures
        r@ == split_on(v@, sep)[0],
{
    let pieces = crate::text::split_on_exec(&chars_of(v), sep);
    proof {
        crate::text::lemma_split_on_len(v@, sep);
    }
    pieces[0].clone()
}

/// The media type of a `Content-Type` value.
pub fn media_type(value: &str) -> (r: String)
    ensures
        r@ == media_type_of(value@),
{
    let p = first_piece(value, ';');
    let t = crate::text::trim_vec(&p);
    let l = crate::text::lower_vec(&t);
    crate::text::string_of(&l)
}

/// Whether a `Content-Disposition` value is an attachment.
pub open spec fn is_attachment(v: Seq<char>) -> bool {
    eq_ignore_case(trim(split_on(v, ';')[0]), "attachment"@)
}

/// Whether a `Content-Disposition` value is an attachment.
pub fn content_disposition_is_attachment(value: &str) -> (b: bool)
    ensures
        b == is_attachment(value@),
{
    let p = first_piece(value, ';');
    let t = crate::text::trim_vec(&p);
    crate::text::vec_eq_ignore_case(&t, "attachment")
}

/// `s` split at its first `c`.
pub open spec fn split_once(s: Seq<char>, c: char) -> Option<(Seq<char>, Seq<char>)> {
    match crate::text::find_char_from(s, c, 0) {
        Some(e) => Some((s.subrange(0, e), s.subrange(e + 1, s.len() as int))),
        None => None,
    }
}

/// `split_once` computed.
pub(crate) fn split_once_exec(v: &Vec<char>, c: char) -> (r: Option<(Vec<char>, Vec<char>)>)
    ensures
        match r {
            Some((a, b)) => split_once(v@, c) == Some((a@, b@)),
            None => split_once(v@, c) is None,
        },
{
    match crate::text::find_char_exec(v, c, 0) {
        Some(e) => {
            proof {
                crate::text::lemma_find_char(v@, c, 0);
            }
            Some((crate::text::slice_of(v, 0, e), crate::text::slice_of(v, e + 1, v.len())))
        },
        None => None,
    }
}

/// A parameter value: trimmed, then double and single quotes stripped.
pub open spec fn unquoted(v: Seq<char>) -> Seq<char> {
    trim_char(trim_char(trim(v), '"'), '\'')
}

/// `unquoted` computed.
fn unquoted_exec(v: &Vec<char>) -> (r: Vec<char>)
    ensures
        r@ == unquoted(v@),
{
    let t = crate::text::trim_vec(v);
    let a = crate::text::trim_char_exec(&t, '"');
    crate::text::trim_char_exec(&a, '\'')
}

/// The `filename` parameter among `ps[i..]`: the first piece of the form
/// `name=value` with `name` (trimmed) equal to `filename` in any case and a
/// nonempty unquoted value.
pub open spec fn filename_from(ps: Seq<Seq<char>>, i: int) -> Option<Seq<char>>
    decreases ps.len() - i,
{
    if i < 0 || i >= ps.len() {
        None
    } else {
        match split_once(trim(ps[i]), '=') {
            Some((n, v)) => if eq_ignore_case(trim(n), "filename"@) && unquoted(v).len() > 0 {
                Some(unquoted(v))
            } else {
                filename_from(ps, i + 1)
            },
            None => filename_from(ps, i + 1),
        }
    }
}

/// The filename of a `Content-Disposition` value.
pub open spec fn disposition_filename(v: Seq<char>) -> Option<Seq<char>> {
    filename_from(split_on(v, ';'), 1)
}

/// The filename of a `Content-Disposition` value.
pub fn content_disposition_filename(value: &str) -> (r: Option<String>)
    ensures
        match r {
            Some(f) => disposition_filename(value@) == Some(f@),
            None => disposition_filename(value@) is None,
        },
{
    let pieces = crate::text::split_on_exec(&chars_of(value), ';');
    let ghost ps = split_on(value@, ';');
    let mut i: usize = 1;
    while i < pieces.len()
        invariant
            1 <= i,
            i <= pieces@.len() || pieces@.len() == 0,
            pieces@.len() == ps.len(),
            forall|k: int| 0 <= k < pieces@.len() ==> #[trigger] pieces@[k]@ == ps[k],
            ps == split_on(value@, ';'),
            filename_from(ps, i as int) == filename_from(ps, 1),
        decreases pieces@.len() - i,
    {
        proof {
            assert(pieces@[i as int]@ == ps[i as int]);
        }
        let t = crate::text::trim_vec(&pieces[i]);
        match split_once_exec(&t, '=') {
            Some((n, v)) => {
                let tn = crate::text::trim_vec(&n);
                let u = unquoted_exec(&v);
                if crate::text::vec_eq_ignore_case(&tn, "filename") && u.len() > 0 {
                    proof {
                        assert(t@ == trim(ps[i as int]));
                        assert(filename_from(ps, i as int) == Some(u@));
                    }
                    return Some(crate::text::string_of(&u));
                }
            },
            None => {},
        }
        i += 1;
    }
    None
}

/// The value of parameter `name` among `ps[i..]` (comma-separated
/// `key=value` pieces; the key trimmed, any case).
pub open spec fn auth_param_from(ps: Seq<Seq<char>>, name: Seq<char>, i: int) -> Option<Seq<char>>
    decreases ps.len() - i,
{
    if i < 0 || i >= ps.len() {
        None
    } else {
        match split_once(trim(ps[i]), '=') {
            Some((n, v)) => if eq_ignore_case(trim(n), name) {
                Some(unquoted(v))
            } else {
                auth_param_from(ps, name, i + 1)
            },
            None => auth_param_from(ps, name, i + 1),
        }
    }
}

/// The value of authentication parameter `name` in `v`.
pub open spec fn auth_parameter_of(v: Seq<char>, name: Seq<char>) -> Option<Seq<char>> {
    auth_param_from(split_on(v, ','), name, 0)
}

/// The value of authentication parameter `name` in `value`.
pub fn auth_parameter(value: &Vec<char>, name: &str) -> (r: Option<String>)
    ensures
        match r {
            Some(f) => auth_parameter_of(value@, name@) == Some(f@),
            None => auth_parameter_of(value@, name@) is None,
        },
{
    let pieces = crate::text::split_on_exec(value, ',');
    let ghost ps = split_on(value@, ',');
    let mut i: usize = 0;
    while i < pieces.len()
        invariant
            i <= pieces@.len(),
            pieces@.len() == ps.len(),
            forall|k: int| 0 <= k < pieces@.len() ==> #[trigger] pieces@[k]@ == ps[k],
            ps == split_on(value@, ','),
            auth_param_from(ps, name@, i as int) == auth_param_from(ps, name@, 0),
        decreases pieces@.len() - i,
    {
        proof {
            assert(pieces@[i as int]@ == ps[i as int]);
        }
        let t = crate::text::trim_vec(&pieces[i]);
        match split_once_exec(&t, '=') {
            Some((n, v)) => {
                let tn = crate::text::trim_vec(&n);
                if crate::text::vec_eq_ignore_case(&tn, name) {
                    let u = unquoted_exec(&v);
                    proof {
                        assert(t@ == trim(ps[i as int]));
                        assert(auth_param_from(ps, name@, i as int) == Some(u@));
                    }
                    return Some(crate::text::string_of(&u));
                }
            },
            None => {},
        }
        i += 1;
    }
    None
}

/// Words joined by single spaces.
pub open spec fn join_words(ws: Seq<Seq<char>>) -> Seq<char>
    decreases ws.len(),
{
    if ws.len() == 0 {
        Seq::empty()
    } else if ws.len() == 1 {
        ws[0]
    } else {
        join_words(ws.drop_last()) + " "@ + ws.last()
    }
}

/// A `WWW-Authenticate` value as an HTTP Basic challenge: the first word is
/// `basic` in any case; the realm is read from the remaining words joined
/// by single spaces.
pub open spec fn basic_challenge_of(v: Seq<char>) -> Option<Option<Seq<char>>> {
    let ws = crate::text::words(v, false);
    if ws.len() == 0 || !eq_ignore_case(ws[0], "basic"@) {
        None
    } else {
        Some(auth_parameter_of(join_words(ws.drop_first()), "realm"@))
    }
}

/// Parses a `WWW-Authenticate` value as an HTTP Basic challenge.
pub fn parse_basic_auth_challenge(value: &str) -> (r: Option<BasicAuthChallenge>)
    ensures
        match r {
            Some(c) => basic_challenge_of(value@) == Some(crate::extract::opt_text(c.realm)),
            None => basic_challenge_of(value@) is None,
        },
{
    let ws = crate::text::split_words(&chars_of(value), false);
    let ghost all = crate::text::words(value@, false);
    if ws.len() == 0 {
        return None;
    }
    proof {
        assert(ws@[0]@ == all[0]);
    }
    if !crate::text::vec_eq_ignore_case(&ws[0], "basic") {
        return None;
    }
    let ghost rest = all.drop_first();
    let mut remainder: Vec<char> = Vec::new();
    let mut i: usize = 1;
    proof {
        assert(rest.take(0) =~= Seq::<Seq<char>>::empty());
    }
    while i < ws.len()
        invariant
            1 <= i <= ws@.len(),
            ws@.len() == all.len(),
            forall|k: int| 0 <= k < ws@.len() ==> #[trigger] ws@[k]@ == all[k],
            rest == all.drop_first(),
            remainder@ == join_words(rest.take(i - 1)),
        decreases ws@.len() - i,
    {
        proof {
            assert(ws@[i as int]@ == all[i as int]);
            assert(rest.take(i as int).drop_last() =~= rest.take(i - 1));
            assert(rest.take(i as int).last() == all[i as int]);
        }
        if i > 1 {
            remainder.push(' ');
        }
        crate::text::append_chars(&mut remainder, &ws[i]);
        proof {
            if i == 1 {
                assert(remainder@ =~= join_words(rest.take(i as int)));
            } else {
                reveal_strlit(" ");
                assert(remainder@ =~= join_words(rest.take(i as int)));
            }
        }
        i += 1;
    }
    proof {
        assert(rest.take(rest.len() as int) =~= rest);
    }
    let realm = auth_parameter(&remainder, "realm");
    Some(BasicAuthChallenge { realm })
}

/// The charset parameter among `ps[i..]`: the first `key=value` piece
/// (the piece trimmed, the key itself not) whose key is `charset` in any
/// case; its value unquoted and lowercased.
pub open spec fn charset_param_from(ps: Seq<Seq<char>>, i: int) -> Option<Seq<char>>
    decreases ps.len() - i,
{
    if i < 0 || i >= ps.len() {
        None
    } else {
        match split_once(trim(ps[i]), '=') {
            Some((n, v)) => if eq_ignore_case(n, "charset"@) {
                Some(lower(unquoted(v)))
            } else {
                charset_param_from(ps, i + 1)
            },
            None => charset_param_from(ps, i + 1),
        }
    }
}

/// The charset of a `Content-Type` value.
pub open spec fn content_type_charset(v: Seq<char>) -> Option<Seq<char>> {
    charset_param_from(split_on(v, ';'), 0)
}

/// The charset of a `Content-Type` value.
pub fn charset_from_content_type(content_type: &str) -> (r: Option<String>)
    ensures
        match r {
            Some(f) => content_type_charset(content_type@) == Some(f@),
            None => content_type_charset(content_type@) is None,
        },
{
    let pieces = crate::text::split_on_exec(&chars_of(content_type), ';');
    let ghost ps = split_on(content_type@, ';');
    let mut i: usize = 0;
    while i < pieces.len()
        invariant
            i <= pieces@.len(),
            pieces@.len() == ps.len(),
            forall|k: int| 0 <= k < pieces@.len() ==> #[trigger] pieces@[k]@ == ps[k],
            ps == split_on(content_type@, ';'),
            charset_param_from(ps, i as int) == charset_param_from(ps, 0),
        decreases pieces@.len() - i,
    {
        proof {
            assert(pieces@[i as int]@ == ps[i as int]);
        }
        let t = crate::text::trim_vec(&pieces[i]);
        match split_once_exec(&t, '=') {
            Some((n, v)) => {
                if crate::text::vec_eq_ignore_case(&n, "charset") {
                    let u = unquoted_exec(&v);
                    let l = crate::text::lower_vec(&u);
                    proof {
                        assert(t@ == trim(ps[i as int]));
                        assert(charset_param_from(ps, i as int) == Some(l@));
                    }
                    return Some(crate::text::string_of(&l));
                }
            },
            None => {},
        }
        i += 1;
    }
    None
}


/// The text `String::from_utf8_lossy` makes of a byte sequence.
pub uninterp spec fn utf8_lossy(bytes: Seq<u8>) -> Seq<char>;

/// `String::from_utf8_lossy(..).into_owned()`. Its result is named
/// `utf8_lossy`; the contract also states what std documents for valid
/// UTF-8: the decoded text itself. How invalid sequences are replaced is
/// left unsaid.
#[verifier::external_body]
fn from_utf8_lossy(bytes: &[u8]) -> (r: String)
    ensures
        r@ == utf8_lossy(bytes@),
        vstd::utf8::valid_utf8(bytes@) ==> r@ == vstd::utf8::decode_utf8(bytes@),
{
    String::from_utf8_lossy(bytes).into_owned()
}

/// Decodes bytes as UTF-8, replacing invalid sequences instead of failing.
pub fn decode_text_utf8(bytes: &[u8]) -> (r: String)
    ensures
        r@ == utf8_lossy(bytes@),
        vstd::utf8::valid_utf8(bytes@) ==> r@ == vstd::utf8::decode_utf8(bytes@),
{
    from_utf8_lossy(bytes)
}

/// Bytes as Latin-1 text: each byte is the character with its value.
pub open spec fn latin1(bytes: Seq<u8>) -> Seq<char> {
    Seq::new(bytes.len(), |i: int| (bytes[i] as u32) as char)
}

/// The character whose code is `b`.
fn char_from_byte(b: u8) -> (c: char)
    ensures
        c == (b as u32) as char,
{
    b as char
}

/// First index at or after `i` that is not one of `"` and `'`.
pub open spec fn skip_quotes(s: Seq<char>, i: int) -> int
    decreases s.len() - i,
{
    if 0 <= i < s.len() && (s[i] == '"' || s[i] == '\'') {
        skip_quotes(s, i + 1)
    } else {
        i
    }
}

/// Whether `c` ends a charset value in a `<meta>` tag.
pub open spec fn ends_charset(c: char) -> bool {
    crate::text::is_ascii_ws(c) || c == '"' || c == '\'' || c == '>' || c == ';'
}

/// First index at or after `i` whose character ends a charset value.
pub open spec fn charset_end(s: Seq<char>, i: int) -> int
    decreases s.len() - i,
{
    if 0 <= i < s.len() && !ends_charset(s[i]) {
        charset_end(s, i + 1)
    } else {
        i
    }
}

/// The charset a lowercased text declares in a `<meta>` tag: after the first
/// `<meta`, the first `charset`, optional whitespace, `=`, optional
/// whitespace and quotes, up to whitespace, a quote, `>` or `;`.
pub open spec fn meta_charset(t: Seq<char>) -> Option<Seq<char>> {
    match crate::text::find_from(t, "<meta"@, 0) {
        None => None,
        Some(m) => match crate::text::find_from(t, "charset"@, m) {
            None => None,
            Some(c) => {
                let a1 = crate::text::skip_ws(t, c + 7, t.len() as int);
                if a1 >= t.len() || t[a1] != '=' {
                    None
                } else {
                    let a2 = skip_quotes(t, crate::text::skip_ws(t, a1 + 1, t.len() as int));
                    let v = t.subrange(a2, charset_end(t, a2));
                    if v.len() > 0 {
                        Some(lower(v))
                    } else {
                        None
                    }
                }
            },
        },
    }
}

/// The charset declared by a `<meta>` tag in the first 2048 bytes.
pub open spec fn html_meta_charset(bytes: Seq<u8>) -> Option<Seq<char>> {
    let n = if bytes.len() < 2048 {
        bytes.len() as int
    } else {
        2048
    };
    meta_charset(lower(utf8_lossy(bytes.take(n))))
}

/// The charset declared by a `<meta>` tag in the first 2048 bytes.
pub fn charset_from_html_meta(bytes: &[u8]) -> (r: Option<String>)
    ensures
        match r {
            Some(c) => html_meta_charset(bytes@) == Some(c@),
            None => html_meta_charset(bytes@) is None,
        },
{
    let n = if bytes.len() < 2048 {
        bytes.len()
    } else {
        2048
    };
    let prefix = vstd::slice::slice_subrange(bytes, 0, n);
    proof {
        assert(prefix@ =~= bytes@.take(n as int));
    }
    let text = from_utf8_lossy(prefix);
    let t = crate::text::lower_vec(&chars_of(text.as_str()));
    let m = match crate::text::find_exec(&t, &chars_of("<meta"), 0) {
        Some(m) => m,
        None => {
            return None;
        },
    };
    proof {
        crate::text::lemma_find_from(t@, "<meta"@, 0);
    }
    let c = match crate::text::find_exec(&t, &chars_of("charset"), m) {
        Some(c) => c,
        None => {
            return None;
        },
    };
    proof {
        crate::text::lemma_find_from(t@, "charset"@, m as int);
        reveal_strlit("charset");
    }
    let a1 = crate::text::skip_ws_exec(&t, c + 7, t.len());
    if a1 >= t.len() || t[a1] != '=' {
        return None;
    }
    let mut a2 = crate::text::skip_ws_exec(&t, a1 + 1, t.len());
    while a2 < t.len() && (t[a2] == '"' || t[a2] == '\'')
        invariant
            a1 + 1 <= a2 <= t@.len(),
            skip_quotes(t@, a2 as int) == skip_quotes(
                t@,
                crate::text::skip_ws(t@, a1 + 1, t@.len() as int),
            ),
        decreases t@.len() - a2,
    {
        a2 += 1;
    }
    let mut e = a2;
    while e < t.len() && !(crate::text::char_is_ascii_ws(t[e]) || t[e] == '"' || t[e] == '\''
        || t[e] == '>' || t[e] == ';')
        invariant
            a2 <= e <= t@.len(),
            charset_end(t@, e as int) == charset_end(t@, a2 as int),
        decreases t@.len() - e,
    {
        e += 1;
    }
    if e == a2 {
        return None;
    }
    let v = crate::text::slice_of(&t, a2, e);
    let l = crate::text::lower_vec(&v);
    Some(crate::text::string_of(&l))
}

/// The charset that `decode_text` uses: from the content type, else from
/// a `<meta>` tag.
pub open spec fn declared_charset(bytes: Seq<u8>, content_type: Option<Seq<char>>) -> Option<
    Seq<char>,
> {
    match content_type {
        Some(c) => match content_type_charset(c) {
            Some(x) => Some(x),
            None => html_meta_charset(bytes),
        },
        None => html_meta_charset(bytes),
    }
}

/// Charset names decoded as Latin-1.
pub open spec fn is_latin1_charset(c: Seq<char>) -> bool {
    let l = lower(c);
    l == "iso-8859-1"@ || l == "latin1"@ || l == "latin-1"@ || l == "windows-1252"@
}

/// The text `decode_text` makes of bytes.
pub open spec fn decoded_text(bytes: Seq<u8>, content_type: Option<Seq<char>>) -> Seq<char> {
    match declared_charset(bytes, content_type) {
        Some(c) => if is_latin1_charset(c) {
            latin1(bytes)
        } else {
            utf8_lossy(bytes)
        },
        None => utf8_lossy(bytes),
    }
}

/// Decodes text using the HTTP content type first, then an HTML
/// `<meta charset>`: Latin-1 for `iso-8859-1`, `latin1`, `latin-1` and
/// `windows-1252`, UTF-8 with replacement otherwise.
pub fn decode_text(bytes: &[u8], content_type: Option<&str>) -> (r: String)
    ensures
        r@ == decoded_text(
            bytes@,
            match content_type {
                Some(c) => Some(c@),
                None => None,
            },
        ),
{
    let from_header = match content_type {
        Some(c) => charset_from_content_type(c),
        None => None,
    };
    let charset = match from_header {
        Some(c) => Some(c),
        None => charset_from_html_meta(bytes),
    };
    let latin = match &charset {
        Some(c) => {
            let l = crate::text::lower_vec(&chars_of(c.as_str()));
            crate::text::vec_eq_str(&l, "iso-8859-1") || crate::text::vec_eq_str(&l, "latin1")
                || crate::text::vec_eq_str(&l, "latin-1") || crate::text::vec_eq_str(
                &l,
                "windows-1252",
            )
        },
        None => false,
    };
    if latin {
        let mut out: Vec<char> = Vec::new();
        let mut i: usize = 0;
        while i < bytes.len()
            invariant
                i <= bytes@.len(),
                out@ == latin1(bytes@).take(i as int),
            decreases bytes@.len() - i,
        {
            out.push(char_from_byte(bytes[i]));
            proof {
                assert(out@ =~= latin1(bytes@).take(i + 1));
            }
            i += 1;
        }
        proof {
            assert(latin1(bytes@).take(bytes@.len() as int) =~= latin1(bytes@));
        }
        crate::text::string_of(&out)
    } else {
        decode_text_utf8(bytes)
    }
}

/// ASCII whitespace bytes, as `u8::is_ascii_whitespace` classifies them.
pub open spec fn is_ascii_ws_byte(b: u8) -> bool {
    b == 32 || b == 9 || b == 10 || b == 12 || b == 13
}

/// ASCII lowercase of a byte.
pub open spec fn lower_byte(b: u8) -> u8 {
    if 65 <= b <= 90 {
        (b + 32) as u8
    } else {
        b
    }
}

/// First index at or after `i` that is not an ASCII whitespace byte.
pub open spec fn skip_ws_bytes(b: Seq<u8>, i: int) -> int
    decreases b.len() - i,
{
    if 0 <= i < b.len() && is_ascii_ws_byte(b[i]) {
        skip_ws_bytes(b, i + 1)
    } else {
        i
    }
}

/// Whether `b[i..]` starts with the ASCII text `p`, ignoring ASCII case.
pub open spec fn starts_ci(b: Seq<u8>, i: int, p: Seq<char>) -> bool {
    i + p.len() <= b.len() && forall|k: int|
        0 <= k < p.len() ==> (lower_byte(#[trigger] b[i + k]) as u32) == (p[k] as u32)
}

/// Whether `b` starts with the bytes `p`.
pub open spec fn starts_bytes(b: Seq<u8>, p: Seq<u8>) -> bool {
    p.len() <= b.len() && b.take(p.len() as int) == p
}

/// The content type sniffed from the first bytes: PNG, JPEG, GIF and WebP
/// signatures, then (after ASCII whitespace) an HTML start in any case.
/// Only the 32 bytes after the whitespace are read for the HTML start,
/// which both patterns fit in.
pub open spec fn sniffed_type(b: Seq<u8>) -> Option<Seq<char>> {
    if starts_bytes(b, seq![0x89u8, 0x50, 0x4e, 0x47, 0x0d, 0x0a, 0x1a, 0x0a]) {
        Some("image/png"@)
    } else if starts_bytes(b, seq![0xffu8, 0xd8, 0xff]) {
        Some("image/jpeg"@)
    } else if starts_bytes(b, seq![0x47u8, 0x49, 0x46, 0x38, 0x37, 0x61]) || starts_bytes(
        b,
        seq![0x47u8, 0x49, 0x46, 0x38, 0x39, 0x61],
    ) {
        Some("image/gif"@)
    } else if b.len() >= 12 && starts_bytes(b, seq![0x52u8, 0x49, 0x46, 0x46])
        && b.subrange(8, 12) == seq![0x57u8, 0x45, 0x42, 0x50] {
        Some("image/webp"@)
    } else if starts_ci(b, skip_ws_bytes(b, 0), "<!doctype html"@) || starts_ci(
        b,
        skip_ws_bytes(b, 0),
        "<html"@,
    ) {
        Some("text/html; charset=utf-8"@)
    } else {
        None
    }
}

/// Splitting text without the separator gives the text itself.
proof fn lemma_split_plain(s: Seq<char>, c: char)
    requires
        forall|i: int| 0 <= i < s.len() ==> #[trigger] s[i] != c,
    ensures
        split_on(s, c) == seq![s],
    decreases s.len(),
{
    if s.len() > 0 {
        lemma_split_plain(s.drop_last(), c);
        assert(s.drop_last().push(s.last()) =~= s);
    } else {
        assert(s =~= Seq::<char>::empty());
    }
}

/// Appending text without the separator extends the last piece.
proof fn lemma_split_extend(p: Seq<char>, y: Seq<char>, c: char)
    requires
        forall|i: int| 0 <= i < y.len() ==> #[trigger] y[i] != c,
    ensures
        split_on(p + y, c) == split_on(p, c).update(
            split_on(p, c).len() - 1,
            split_on(p, c).last() + y,
        ),
    decreases y.len(),
{
    crate::text::lemma_split_on_len(p, c);
    if y.len() == 0 {
        assert(p + y =~= p);
        assert(split_on(p, c).last() + y =~= split_on(p, c).last());
        assert(split_on(p, c).update(split_on(p, c).len() - 1, split_on(p, c).last()) =~= split_on(p, c));
    } else {
        let y0 = y.drop_last();
        lemma_split_extend(p, y0, c);
        assert((p + y).drop_last() =~= p + y0);
        assert((p + y).last() == y.last());
        crate::text::lemma_split_on_len(p + y0, c);
        let r = split_on(p, c);
        assert(split_on(p + y, c) =~= r.update(r.len() - 1, r.last() + y)) by {
            assert(r.last() + y0 + seq![y.last()] =~= r.last() + y);
            assert((r.last() + y0).push(y.last()) =~= r.last() + y);
        }
    }
}

/// Whether `w` can stand as a bare charset parameter value: not empty, and
/// no space, `;`, `=` or quote in it.
pub open spec fn bare_value(w: Seq<char>) -> bool {
    &&& w.len() > 0
    &&& forall|i: int|
        0 <= i < w.len() ==> !crate::text::is_ws(#[trigger] w[i]) && w[i] != ';' && w[i] != '='
            && w[i] != '"' && w[i] != '\''
}

/// The charset of `text/html; charset=w` is `w` in lowercase, and when it
/// is `windows-1252` in any case the body decodes as Latin-1: one
/// character per byte, the character whose code is the byte.
pub proof fn lemma_content_type_charset(w: Seq<char>, b: Seq<u8>)
    requires
        bare_value(w),
    ensures
        content_type_charset("text/html; charset="@ + w) == Some(lower(w)),
        lower(w) == "windows-1252"@ ==> decoded_text(b, Some("text/html; charset="@ + w)) =~= Seq::new(
            b.len(),
            |i: int| (b[i] as u32) as char,
        ),
{
    reveal_strlit("text/html; charset=");
    reveal_strlit("text/html");
    reveal_strlit(" charset=");
    reveal_strlit("charset=");
    reveal_strlit("charset");
    reveal_strlit("windows-1252");
    let a = "text/html"@;
    let y = " charset="@ + w;
    let s = "text/html; charset="@ + w;
    assert(s =~= a + seq![';'] + y);
    assert forall|i: int| 0 <= i < a.len() implies #[trigger] a[i] != ';' && a[i] != '=' by {}
    lemma_split_plain(a, ';');
    assert((a + seq![';']).drop_last() =~= a);
    assert(split_on(a + seq![';'], ';') =~= seq![a, Seq::<char>::empty()]);
    assert forall|i: int| 0 <= i < y.len() implies #[trigger] y[i] != ';' by {
        if i >= 9 {
            assert(y[i] == w[i - 9]);
        }
    }
    lemma_split_extend(a + seq![';'], y, ';');
    let ps = split_on(s, ';');
    assert(ps =~= seq![a, Seq::<char>::empty() + y]);
    assert(Seq::<char>::empty() + y =~= y);
    // the media type has no parameter value
    assert(crate::text::skip_ws(a, 0, a.len() as int) == 0);
    assert(crate::text::skip_ws_back(a, 0, a.len() as int) == a.len());
    assert(trim(a) =~= a);
    crate::text::lemma_find_char(a, '=', 0);
    assert(split_once(trim(ps[0]), '=') is None);
    // the parameter
    let q = "charset="@ + w;
    assert(crate::text::skip_ws(y, 1, y.len() as int) == 1);
    assert(crate::text::skip_ws(y, 0, y.len() as int) == 1);
    assert(y[y.len() - 1] == w[w.len() - 1]);
    assert(y.subrange(1, y.len() as int) =~= q);
    assert(q[q.len() - 1] == w[w.len() - 1]);
    assert(crate::text::skip_ws_back(q, 0, q.len() as int) == q.len());
    assert(crate::text::trim_start(y) =~= q);
    assert(crate::text::trim_end(q) =~= q);
    assert(trim(y) =~= q);
    crate::text::lemma_find_char(q, '=', 0);
    let k = crate::text::find_char_from(q, '=', 0);
    assert(q[7] == '=');
    assert(k == Some(7int)) by {
        if k is None {
            assert(q[7] != '=');
        } else {
            let kk = k.unwrap();
            if kk > 7 {
                assert(q[7] != '=');
            }
            if kk < 7 {
                assert(q[kk] == "charset"@[kk]);
            }
        }
    }
    assert(q.subrange(0, 7) =~= "charset"@);
    assert(q.subrange(8, q.len() as int) =~= w);
    assert(eq_ignore_case(q.subrange(0, 7), "charset"@));
    // the value, unquoted
    assert(crate::text::skip_ws(w, 0, w.len() as int) == 0);
    assert(crate::text::skip_ws_back(w, 0, w.len() as int) == w.len());
    assert(trim(w) =~= w);
    assert(crate::text::skip_char(w, '"', 0) == 0);
    assert(crate::text::skip_char_back(w, '"', 0, w.len() as int) == w.len());
    assert(crate::text::trim_char(w, '"') =~= w);
    assert(crate::text::skip_char(w, '\'', 0) == 0);
    assert(crate::text::skip_char_back(w, '\'', 0, w.len() as int) == w.len());
    assert(crate::text::trim_char(w, '\'') =~= w);
    assert(unquoted(w) == w);
    assert(charset_param_from(ps, 1) == Some(lower(w)));
    if lower(w) == "windows-1252"@ {
        assert(lower(lower(w)) =~= lower(w));
        lemma_latin1_decoding(b, Some(s));
    }
}

/// Bytes sniff by their signature: `89 50 4E 47 0D 0A 1A 0A` as PNG,
/// `FF D8 FF` as JPEG, `GIF87a` and `GIF89a` as GIF, and `RIFF`, four
/// bytes, `WEBP` as WebP.
pub proof fn lemma_sniffed_signatures(b: Seq<u8>)
    ensures
        b.len() >= 8 && b[0] == 0x89 && b[1] == 0x50 && b[2] == 0x4e && b[3] == 0x47 && b[4] == 0x0d
            && b[5] == 0x0a && b[6] == 0x1a && b[7] == 0x0a ==> sniffed_type(b) == Some("image/png"@),
        b.len() >= 3 && b[0] == 0xff && b[1] == 0xd8 && b[2] == 0xff ==> sniffed_type(b) == Some(
            "image/jpeg"@,
        ),
        b.len() >= 6 && b[0] == 0x47 && b[1] == 0x49 && b[2] == 0x46 && b[3] == 0x38 && (b[4] == 0x37
            || b[4] == 0x39) && b[5] == 0x61 ==> sniffed_type(b) == Some("image/gif"@),
        b.len() >= 12 && b[0] == 0x52 && b[1] == 0x49 && b[2] == 0x46 && b[3] == 0x46 && b[8] == 0x57
            && b[9] == 0x45 && b[10] == 0x42 && b[11] == 0x50 ==> sniffed_type(b) == Some("image/webp"@),
        b.len() >= 5 && b[0] == 0x3c && (b[1] == 0x68 || b[1] == 0x48) && (b[2] == 0x74 || b[2] == 0x54)
            && (b[3] == 0x6d || b[3] == 0x4d) && (b[4] == 0x6c || b[4] == 0x4c) ==> sniffed_type(b) == Some(
            "text/html; charset=utf-8"@,
        ),
{
    if b.len() >= 5 && b[0] == 0x3c && (b[1] == 0x68 || b[1] == 0x48) && (b[2] == 0x74 || b[2] == 0x54)
        && (b[3] == 0x6d || b[3] == 0x4d) && (b[4] == 0x6c || b[4] == 0x4c) {
        reveal_strlit("<html");
        assert(!is_ascii_ws_byte(b[0]));
        assert(skip_ws_bytes(b, 0) == 0);
        assert(b.take(3)[0] == 0x3c);
        if b.len() >= 6 {
            assert(b.take(6)[0] == 0x3c);
        }
        if b.len() >= 8 {
            assert(b.take(8)[0] == 0x3c);
        }
        if b.len() >= 4 {
            assert(b.take(4)[0] == 0x3c);
        }
        assert(starts_ci(b, 0, "<html"@));
    }
    if b.len() >= 8 && b[0] == 0x89 && b[1] == 0x50 && b[2] == 0x4e && b[3] == 0x47 && b[4] == 0x0d
        && b[5] == 0x0a && b[6] == 0x1a && b[7] == 0x0a {
        assert(b.take(8) =~= seq![0x89u8, 0x50, 0x4e, 0x47, 0x0d, 0x0a, 0x1a, 0x0a]);
    }
    if b.len() >= 3 && b[0] == 0xff && b[1] == 0xd8 && b[2] == 0xff {
        assert(b.take(3) =~= seq![0xffu8, 0xd8, 0xff]);
    }
    if b.len() >= 6 && b[0] == 0x47 && b[1] == 0x49 && b[2] == 0x46 && b[3] == 0x38 && (b[4] == 0x37
        || b[4] == 0x39) && b[5] == 0x61 {
        if b[4] == 0x37 {
            assert(b.take(6) =~= seq![0x47u8, 0x49, 0x46, 0x38, 0x37, 0x61]);
        } else {
            assert(b.take(6) =~= seq![0x47u8, 0x49, 0x46, 0x38, 0x39, 0x61]);
        }
        if b.len() >= 8 {
            assert(b.take(8)[0] == 0x47);
        }
        assert(b.take(3)[0] == 0x47);
    }
    if b.len() >= 12 && b[0] == 0x52 && b[1] == 0x49 && b[2] == 0x46 && b[3] == 0x46 && b[8] == 0x57
        && b[9] == 0x45 && b[10] == 0x42 && b[11] == 0x50 {
        assert(b.take(4) =~= seq![0x52u8, 0x49, 0x46, 0x46]);
        assert(b.subrange(8, 12) =~= seq![0x57u8, 0x45, 0x42, 0x50]);
        assert(b.take(8)[0] == 0x52);
        assert(b.take(3)[0] == 0x52);
        assert(b.take(6)[0] == 0x52);
    }
}

/// When the declared charset is a Latin-1 name in any ASCII case
/// (`iso-8859-1`, `latin1`, `latin-1`, `windows-1252`), the decoded text
/// has one character per byte: the character whose code is the byte.
pub proof fn lemma_latin1_decoding(b: Seq<u8>, content_type: Option<Seq<char>>)
    ensures
        declared_charset(b, content_type) matches Some(c) && (lower(c) == "windows-1252"@ || lower(c)
            == "iso-8859-1"@ || lower(c) == "latin1"@ || lower(c) == "latin-1"@) ==> {
            &&& decoded_text(b, content_type).len() == b.len()
            &&& forall|i: int| 0 <= i < b.len() ==> #[trigger] decoded_text(b, content_type)[i] == (b[i] as u32) as char
        },
        declared_charset(b, content_type) is None ==> decoded_text(b, content_type) == utf8_lossy(b),
        declared_charset(b, content_type) matches Some(c) && lower(c) == "utf-8"@ ==> decoded_text(
            b,
            content_type,
        ) == utf8_lossy(b),
{
    reveal_strlit("utf-8");
    reveal_strlit("windows-1252");
    reveal_strlit("iso-8859-1");
    reveal_strlit("latin1");
    reveal_strlit("latin-1");
    if declared_charset(b, content_type) matches Some(c) && lower(c) == "utf-8"@ {
        assert("utf-8"@.len() != "windows-1252"@.len() && "utf-8"@.len() != "iso-8859-1"@.len()
            && "utf-8"@.len() != "latin1"@.len() && "utf-8"@[0] != "latin-1"@[0]);
    }
}

/// Whether `b` starts with the bytes `p`.
fn starts_bytes_exec(b: &[u8], p: &[u8]) -> (r: bool)
    ensures
        r == starts_bytes(b@, p@),
{
    if p.len() > b.len() {
        return false;
    }
    let mut i: usize = 0;
    while i < p.len()
        invariant
            i <= p@.len() <= b@.len(),
            b@.take(i as int) == p@.take(i as int),
        decreases p@.len() - i,
    {
        if b[i] != p[i] {
            proof {
                assert(b@.take(p@.len() as int)[i as int] != p@[i as int]);
            }
            return false;
        }
        proof {
            assert(b@.take(i + 1) =~= b@.take(i as int).push(b@[i as int]));
            assert(p@.take(i + 1) =~= p@.take(i as int).push(p@[i as int]));
        }
        i += 1;
    }
    proof {
        assert(p@.take(p@.len() as int) =~= p@);
    }
    true
}

/// Whether `b[i..]` starts with the ASCII text `p`, ignoring ASCII case.
fn starts_ci_exec(b: &[u8], i: usize, p: &str) -> (r: bool)
    requires
        i <= b.len(),
    ensures
        r == starts_ci(b@, i as int, p@),
{
    let pv = chars_of(p);
    if pv.len() > b.len() - i {
        return false;
    }
    let mut k: usize = 0;
    while k < pv.len()
        invariant
            k <= pv@.len(),
            pv@ == p@,
            i + pv@.len() <= b.len(),
            forall|j: int| 0 <= j < k ==> (lower_byte(#[trigger] b@[i + j]) as u32) == (pv@[j] as u32),
        decreases pv@.len() - k,
    {
        assert(i + k < b.len());
        let x = b[i + k];
        let l: u8 = if 65 <= x && x <= 90 {
            x + 32
        } else {
            x
        };
        if l as u32 != pv[k] as u32 {
            proof {
                assert(lower_byte(b@[i + k]) == l);
            }
            return false;
        }
        k += 1;
    }
    true
}

/// Sniffs common static resource content types from bytes.
pub fn sniff_content_type(bytes: &[u8]) -> (r: Option<&'static str>)
    ensures
        match r {
            Some(t) => sniffed_type(bytes@) == Some(t@),
            None => sniffed_type(bytes@) is None,
        },
{
    let png: [u8; 8] = [0x89, 0x50, 0x4e, 0x47, 0x0d, 0x0a, 0x1a, 0x0a];
    let jpeg: [u8; 3] = [0xff, 0xd8, 0xff];
    let gif7: [u8; 6] = [0x47, 0x49, 0x46, 0x38, 0x37, 0x61];
    let gif9: [u8; 6] = [0x47, 0x49, 0x46, 0x38, 0x39, 0x61];
    let riff: [u8; 4] = [0x52, 0x49, 0x46, 0x46];
    let webp: [u8; 4] = [0x57, 0x45, 0x42, 0x50];
    proof {
        assert(png@ =~= seq![0x89u8, 0x50, 0x4e, 0x47, 0x0d, 0x0a, 0x1a, 0x0a]);
        assert(jpeg@ =~= seq![0xffu8, 0xd8, 0xff]);
        assert(gif7@ =~= seq![0x47u8, 0x49, 0x46, 0x38, 0x37, 0x61]);
        assert(gif9@ =~= seq![0x47u8, 0x49, 0x46, 0x38, 0x39, 0x61]);
        assert(riff@ =~= seq![0x52u8, 0x49, 0x46, 0x46]);
        assert(webp@ =~= seq![0x57u8, 0x45, 0x42, 0x50]);
    }
    if starts_bytes_exec(bytes, png.as_slice()) {
        return Some("image/png");
    }
    if starts_bytes_exec(bytes, jpeg.as_slice()) {
        return Some("image/jpeg");
    }
    if starts_bytes_exec(bytes, gif7.as_slice()) || starts_bytes_exec(bytes, gif9.as_slice()) {
        return Some("image/gif");
    }
    if bytes.len() >= 12 && starts_bytes_exec(bytes, riff.as_slice()) {
        let tail = vstd::slice::slice_subrange(bytes, 8, 12);
        if starts_bytes_exec(tail, webp.as_slice()) {
            proof {
                assert(tail@ =~= bytes@.subrange(8, 12));
                assert(tail@.take(4) =~= tail@);
            }
            return Some("image/webp");
        }
        proof {
            assert(tail@ =~= bytes@.subrange(8, 12));
            assert(tail@.take(4) =~= tail@);
        }
    }
    let mut i: usize = 0;
    while i < bytes.len() && (bytes[i] == 32 || bytes[i] == 9 || bytes[i] == 10 || bytes[i] == 12
        || bytes[i] == 13)
        invariant
            i <= bytes@.len(),
            skip_ws_bytes(bytes@, i as int) == skip_ws_bytes(bytes@, 0),
        decreases bytes@.len() - i,
    {
        i += 1;
    }
    if starts_ci_exec(bytes, i, "<!doctype html") || starts_ci_exec(bytes, i, "<html") {
        return Some("text/html; charset=utf-8");
    }
    None
}

/// The content type of a file extension.
pub open spec fn extension_type(e: Seq<char>) -> Option<Seq<char>> {
    if e == "html"@ || e == "htm"@ {
        Some("text/html; charset=utf-8"@)
    } else if e == "txt"@ {
        Some("text/plain; charset=utf-8"@)
    } else if e == "css"@ {
        Some("text/css; charset=utf-8"@)
    } else if e == "js"@ {
        Some("text/javascript; charset=utf-8"@)
    } else if e == "png"@ {
        Some("image/png"@)
    } else if e == "jpg"@ || e == "jpeg"@ {
        Some("image/jpeg"@)
    } else if e == "gif"@ {
        Some("image/gif"@)
    } else if e == "webp"@ {
        Some("image/webp"@)
    } else if e == "ico"@ {
        Some("image/x-icon"@)
    } else {
        None
    }
}

/// The content type of a file by its extension (case-sensitive).
pub fn content_type_for_extension(extension: Option<&str>) -> (r: Option<String>)
    ensures
        match (extension, r) {
            (Some(e), Some(t)) => extension_type(e@) == Some(t@),
            (Some(e), None) => extension_type(e@) is None,
            (None, r) => r is None,
        },
{
    let e = match extension {
        Some(e) => chars_of(e),
        None => {
            return None;
        },
    };
    let t = if crate::text::vec_eq_str(&e, "html") || crate::text::vec_eq_str(&e, "htm") {
        "text/html; charset=utf-8"
    } else if crate::text::vec_eq_str(&e, "txt") {
        "text/plain; charset=utf-8"
    } else if crate::text::vec_eq_str(&e, "css") {
        "text/css; charset=utf-8"
    } else if crate::text::vec_eq_str(&e, "js") {
        "text/javascript; charset=utf-8"
    } else if crate::text::vec_eq_str(&e, "png") {
        "image/png"
    } else if crate::text::vec_eq_str(&e, "jpg") || crate::text::vec_eq_str(&e, "jpeg") {
        "image/jpeg"
    } else if crate::text::vec_eq_str(&e, "gif") {
        "image/gif"
    } else if crate::text::vec_eq_str(&e, "webp") {
        "image/webp"
    } else if crate::text::vec_eq_str(&e, "ico") {
        "image/x-icon"
    } else {
        return None;
    };
    Some(crate::text::string_from(t))
}
} // verus!
