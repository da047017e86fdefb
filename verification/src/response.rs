//! Loaded resources: what a top-level response asks the shell to do, its
//! HTTP Basic challenge, its diagnostic summary, and `data:` URLs.
//!
//! URLs are `WebUrl`s: their text and path segments are plain values, and
//! the contracts below are stated over them.

use vstd::prelude::*;
use base64::Engine;
use crate::error::WebbyError;
use crate::weburl::WebUrl;
use crate::extract::opt_text;
use crate::js::string_views;
use crate::net::{
    BasicAuthChallenge, BasicCredentials, DownloadMetadata, NavigationResponseDisposition,
    basic_challenge_of, disposition_filename, header_lookup, header_views, is_attachment,
    media_type_of, sniffed_type, split_once,
};
use crate::text::{chars_of, debug_quoted, decimal, eq_ignore_case, lower, split_on, starts_with};

verus! {

/// Metadata and bytes returned by a resource load.
#[derive(Debug, PartialEq, Eq)]
pub struct ResourceResponse {
    /// URL requested by the caller.
    pub requested_url: WebUrl,
    /// Final URL after redirects.
    pub final_url: WebUrl,
    /// HTTP status when the resource came from HTTP(S).
    pub status: Option<u16>,
    /// Response content type when known.
    pub content_type: Option<String>,
    /// Response headers in source order.
    pub headers: Vec<(String, String)>,
    /// Response body bytes.
    pub bytes: Vec<u8>,
}

impl Clone for ResourceResponse {
    fn clone(&self) -> (r: Self)
        ensures
            r.requested_url@ == self.requested_url@,
            r.final_url@ == self.final_url@,
            r.status == self.status,
    {
        ResourceResponse {
            requested_url: self.requested_url.clone(),
            final_url: self.final_url.clone(),
            status: self.status,
            content_type: self.content_type.clone(),
            headers: self.headers.clone(),
            bytes: self.bytes.clone(),
        }
    }
}

/// Interface through which the pipeline loads resources.
pub trait ResourceLoader {
    /// Loads a URL and returns response metadata plus bytes.
    fn load(&self, url: &WebUrl) -> Result<ResourceResponse, WebbyError>;

    /// Loads a URL with request headers. Loaders that cannot send headers
    /// may keep this default, which ignores them.
    fn load_with_headers(&self, url: &WebUrl, headers: &[(String, String)]) -> Result<
        ResourceResponse,
        WebbyError,
    > {
        self.load(url)
    }

    /// Submits an `application/x-www-form-urlencoded` POST request. The
    /// default refuses it as unsupported.
    fn submit_form_urlencoded(
        &self,
        url: &WebUrl,
        headers: &[(String, String)],
        body: &[u8],
    ) -> (r: Result<ResourceResponse, WebbyError>)
        default_ensures
            r matches Err(WebbyError::Unsupported { message }) && crate::text::starts_with(
                message@,
                "form POST is unsupported by this resource loader for "@,
            ),
    {
        let mut m = crate::text::string_from("form POST is unsupported by this resource loader for ");
        let ghost prefix = m@;
        crate::text::push_str(&mut m, url.as_str());
        proof {
            assert(m@.take(prefix.len() as int) =~= prefix);
        }
        Err(WebbyError::unsupported(m))
    }
}

/// The URLs that were handed to a loader, in order.
pub struct LoadLog {
    requested: Ghost<Seq<Seq<char>>>,
}

impl LoadLog {
    /// The texts of the requested URLs.
    pub closed spec fn requested(&self) -> Seq<Seq<char>> {
        self.requested@
    }

    /// A log of no requests.
    pub fn new() -> (r: Self)
        ensures
            r.requested() == Seq::<Seq<char>>::empty(),
    {
        LoadLog { requested: Ghost(Seq::empty()) }
    }
}

/// Loads `url` through `loader`, recording the URL in `log`; what comes
/// back is the loader's to decide.
pub(crate) fn logged_load<L: ResourceLoader>(loader: &L, url: &WebUrl, log: &mut LoadLog) -> (r: Result<
    ResourceResponse,
    WebbyError,
>)
    ensures
        final(log).requested() == old(log).requested().push(url@.text),
{
    proof {
        log.requested@ = log.requested@.push(url@.text);
    }
    loader.load(url)
}

/// `o` as an optional text.
pub open spec fn opt_str(o: Option<&str>) -> Option<Seq<char>> {
    match o {
        Some(s) => Some(s@),
        None => None,
    }
}

/// Optional texts as optional sequences of texts.
pub open spec fn opt_texts(o: Option<Vec<String>>) -> Option<Seq<Seq<char>>> {
    match o {
        Some(v) => Some(string_views(v@)),
        None => None,
    }
}

/// The last non-empty path segment.
pub open spec fn last_nonempty(segments: Seq<Seq<char>>) -> Option<Seq<char>>
    decreases segments.len(),
{
    if segments.len() == 0 {
        None
    } else if segments.last().len() > 0 {
        Some(segments.last())
    } else {
        last_nonempty(segments.drop_last())
    }
}

/// The filename suggested for a download: the `filename` parameter of the
/// `Content-Disposition` value, else the last non-empty segment of the
/// final URL's path, else `download`.
pub open spec fn suggested_filename(
    disposition: Option<Seq<char>>,
    segments: Option<Seq<Seq<char>>>,
) -> Seq<char> {
    let named = match disposition {
        Some(v) => disposition_filename(v),
        None => None,
    };
    let chosen = match named {
        Some(f) => Some(f),
        None => match segments {
            Some(s) => last_nonempty(s),
            None => None,
        },
    };
    match chosen {
        Some(f) => if f.len() > 0 {
            f
        } else {
            "download"@
        },
        None => "download"@,
    }
}

/// A navigation disposition as plain values.
pub enum DispositionModel {
    /// Render as HTML.
    Render,
    /// Download with a filename and a reason.
    Download(Seq<char>, Seq<char>),
}

/// `d` as plain values.
pub open spec fn disposition_model(d: NavigationResponseDisposition) -> DispositionModel {
    match d {
        NavigationResponseDisposition::RenderHtml => DispositionModel::Render,
        NavigationResponseDisposition::Download(m) => DispositionModel::Download(
            m.suggested_filename@,
            m.reason@,
        ),
    }
}

/// The media type of a response: from its content type, else sniffed
/// from its bytes.
pub open spec fn response_media_type(content_type: Option<Seq<char>>, bytes: Seq<u8>) -> Option<
    Seq<char>,
> {
    match content_type {
        Some(c) => Some(media_type_of(c)),
        None => match sniffed_type(bytes) {
            Some(s) => Some(media_type_of(s)),
            None => None,
        },
    }
}

/// What a top-level response asks for: an attachment is downloaded; HTML
/// and XHTML are rendered; anything else is downloaded with its media type
/// as the reason.
pub open spec fn navigation_of(
    headers: Seq<(Seq<char>, Seq<char>)>,
    content_type: Option<Seq<char>>,
    bytes: Seq<u8>,
    segments: Option<Seq<Seq<char>>>,
) -> DispositionModel {
    let cd = header_lookup(headers, "content-disposition"@, 0);
    if cd is Some && is_attachment(cd->0) {
        DispositionModel::Download(
            suggested_filename(cd, segments),
            "content-disposition attachment"@,
        )
    } else {
        let m = response_media_type(content_type, bytes);
        if m == Some("text/html"@) || m == Some("application/xhtml+xml"@) {
            DispositionModel::Render
        } else {
            DispositionModel::Download(
                suggested_filename(None, segments),
                match m {
                    Some(t) => "unsupported media type "@ + t,
                    None => "unknown media type"@,
                },
            )
        }
    }
}

/// The last non-empty segment of a path.
pub fn last_nonempty_segment(segments: &Vec<String>) -> (r: Option<String>)
    ensures
        opt_text(r) == last_nonempty(string_views(segments@)),
{
    let ghost all = string_views(segments@);
    let mut k: usize = segments.len();
    proof {
        assert(all.take(k as int) =~= all);
    }
    while k > 0
        invariant
            k <= segments@.len(),
            all == string_views(segments@),
            last_nonempty(all.take(k as int)) == last_nonempty(all),
        decreases k,
    {
        proof {
            assert(all.take(k as int).last() == segments@[k - 1]@);
            assert(all.take(k as int).drop_last() =~= all.take(k - 1));
        }
        if chars_of(segments[k - 1].as_str()).len() > 0 {
            return Some(segments[k - 1].clone());
        }
        k -= 1;
    }
    proof {
        assert(all.take(0) =~= Seq::<Seq<char>>::empty());
    }
    None
}

/// The filename suggested for a download from the `Content-Disposition`
/// value and the final URL's path segments.
pub fn suggested_download_filename(
    content_disposition: Option<&str>,
    segments: Option<Vec<String>>,
) -> (r: String)
    ensures
        r@ == suggested_filename(opt_str(content_disposition), opt_texts(segments)),
{
    let named = match content_disposition {
        Some(v) => crate::net::content_disposition_filename(v),
        None => None,
    };
    let chosen = match named {
        Some(f) => Some(f),
        None => match &segments {
            Some(s) => last_nonempty_segment(s),
            None => None,
        },
    };
    match chosen {
        Some(f) => if chars_of(f.as_str()).len() > 0 {
            f
        } else {
            crate::text::string_from("download")
        },
        None => crate::text::string_from("download"),
    }
}

/// Whether `v` is `text/html` or `application/xhtml+xml`.
fn is_html_media(v: &str) -> (b: bool)
    ensures
        b == (v@ == "text/html"@ || v@ == "application/xhtml+xml"@),
{
    let c = chars_of(v);
    proof {
        reveal_strlit("text/html");
        reveal_strlit("application/xhtml+xml");
    }
    crate::text::vec_eq_str(&c, "text/html") || crate::text::vec_eq_str(&c, "application/xhtml+xml")
}

/// The disposition of a response given its headers, content type, bytes
/// and the path segments of its final URL.
pub fn disposition_for(
    headers: &[(String, String)],
    content_type: Option<&str>,
    bytes: &[u8],
    segments: Option<Vec<String>>,
) -> (r: NavigationResponseDisposition)
    ensures
        disposition_model(r) == navigation_of(
            header_views(headers@),
            opt_str(content_type),
            bytes@,
            opt_texts(segments),
        ),
{
    let cd = crate::net::header_value(headers, "content-disposition");
    match cd {
        Some(v) => {
            if crate::net::content_disposition_is_attachment(v.as_str()) {
                let filename = suggested_download_filename(Some(v.as_str()), segments);
                return NavigationResponseDisposition::Download(
                    DownloadMetadata {
                        suggested_filename: filename,
                        reason: crate::text::string_from("content-disposition attachment"),
                    },
                );
            }
        },
        None => {},
    }
    let media = match content_type {
        Some(c) => Some(crate::net::media_type(c)),
        None => match crate::net::sniff_content_type(bytes) {
            Some(s) => Some(crate::net::media_type(s)),
            None => None,
        },
    };
    let ghost m = response_media_type(opt_str(content_type), bytes@);
    assert(opt_text(media) == m);
    let render = match &media {
        Some(t) => is_html_media(t.as_str()),
        None => false,
    };
    if render {
        return NavigationResponseDisposition::RenderHtml;
    }
    let filename = suggested_download_filename(None, segments);
    let reason = match media {
        Some(t) => {
            let mut r = crate::text::string_from("unsupported media type ");
            crate::text::push_str(&mut r, t.as_str());
            r
        },
        None => crate::text::string_from("unknown media type"),
    };
    NavigationResponseDisposition::Download(DownloadMetadata { suggested_filename: filename, reason })
}

/// `Some(n)` or `None` as `{:?}` prints an optional status.
pub open spec fn status_text(s: Option<u16>) -> Seq<char> {
    match s {
        Some(n) => "Some("@ + decimal(n as nat) + ")"@,
        None => "None"@,
    }
}

/// `Some("…")` or `None` as `{:?}` prints an optional text.
pub open spec fn optional_text(t: Option<Seq<char>>) -> Seq<char> {
    match t {
        Some(s) => "Some("@ + debug_quoted(s) + ")"@,
        None => "None"@,
    }
}

/// The one-line network diagnostic of a response.
pub open spec fn network_summary(
    requested: Seq<char>,
    final_url: Seq<char>,
    status: Option<u16>,
    content_type: Option<Seq<char>>,
    byte_len: nat,
) -> Seq<char> {
    "network requested="@ + requested + " final="@ + final_url + " status="@ + status_text(status)
        + " content_type="@ + optional_text(content_type) + " bytes="@ + decimal(byte_len)
}

/// The network diagnostic given the texts of the requested and final URLs.
pub fn network_summary_text(
    requested: &str,
    final_url: &str,
    status: Option<u16>,
    content_type: Option<&str>,
    byte_len: usize,
) -> (r: String)
    ensures
        r@ == network_summary(requested@, final_url@, status, opt_str(content_type), byte_len as nat),
{
    let mut r = crate::text::string_from("network requested=");
    crate::text::push_str(&mut r, requested);
    crate::text::push_str(&mut r, " final=");
    crate::text::push_str(&mut r, final_url);
    crate::text::push_str(&mut r, " status=");
    match status {
        Some(n) => {
            crate::text::push_str(&mut r, "Some(");
            crate::text::push_str(&mut r, crate::text::decimal_string(n as u64).as_str());
            crate::text::push_str(&mut r, ")");
        },
        None => crate::text::push_str(&mut r, "None"),
    }
    crate::text::push_str(&mut r, " content_type=");
    match content_type {
        Some(c) => {
            crate::text::push_str(&mut r, "Some(");
            crate::text::push_str(&mut r, crate::text::debug_string(c).as_str());
            crate::text::push_str(&mut r, ")");
        },
        None => crate::text::push_str(&mut r, "None"),
    }
    crate::text::push_str(&mut r, " bytes=");
    crate::text::push_str(&mut r, crate::text::decimal_string(byte_len as u64).as_str());
    r
}

/// The Basic challenge of a `401` response's `WWW-Authenticate` header.
pub open spec fn response_challenge(
    status: Option<u16>,
    headers: Seq<(Seq<char>, Seq<char>)>,
) -> Option<Option<Seq<char>>> {
    if status == Some(401u16) {
        match header_lookup(headers, "www-authenticate"@, 0) {
            Some(v) => basic_challenge_of(v),
            None => None,
        }
    } else {
        None
    }
}

impl ResourceResponse {
    /// Number of response body bytes.
    pub fn byte_len(&self) -> (r: usize)
        ensures
            r == self.bytes@.len(),
    {
        self.bytes.len()
    }

    /// Deterministic diagnostic summary for debugging network loads.
    pub fn network_diagnostic(&self) -> (r: String)
        ensures
            r@ == network_summary(
                self.requested_url@.text,
                self.final_url@.text,
                self.status,
                opt_text(self.content_type),
                self.bytes@.len(),
            ),
    {
        let requested = self.requested_url.as_str();
        let final_text = self.final_url.as_str();
        let content_type = match &self.content_type {
            Some(c) => Some(c.as_str()),
            None => None,
        };
        network_summary_text(
            requested,
            final_text,
            self.status,
            content_type,
            self.bytes.len(),
        )
    }

    /// Classifies whether a top-level response should render or download.
    pub fn navigation_disposition(&self) -> (r: NavigationResponseDisposition)
        ensures
            disposition_model(r) == navigation_of(
                header_views(self.headers@),
                opt_text(self.content_type),
                self.bytes@,
                self.final_url@.segments,
            ),
    {
        let segments = self.final_url.clone().into_segments();
        let content_type = match &self.content_type {
            Some(c) => Some(c.as_str()),
            None => None,
        };
        disposition_for(self.headers.as_slice(), content_type, self.bytes.as_slice(), segments)
    }

    /// Returns whether the response asks for HTTP Basic authentication.
    pub fn basic_auth_challenge(&self) -> (r: Option<BasicAuthChallenge>)
        ensures
            match r {
                Some(c) => response_challenge(self.status, header_views(self.headers@)) == Some(
                    opt_text(c.realm),
                ),
                None => response_challenge(self.status, header_views(self.headers@)) is None,
            },
    {
        if self.status != Some(401u16) {
            return None;
        }
        match crate::net::header_value(self.headers.as_slice(), "www-authenticate") {
            Some(v) => crate::net::parse_basic_auth_challenge(v.as_str()),
            None => None,
        }
    }
}

/// The redacted diagnostic of a Basic challenge for a URL's text.
pub open spec fn challenge_diagnostic(realm: Option<Seq<char>>, url: Seq<char>) -> Seq<char> {
    match realm {
        Some(r) => "HTTP Basic authentication required for "@ + url + " realm="@ + debug_quoted(r),
        None => "HTTP Basic authentication required for "@ + url,
    }
}

impl BasicAuthChallenge {
    /// The diagnostic text given the URL's text.
    pub fn diagnostic_text(&self, url_text: &str) -> (r: String)
        ensures
            r@ == challenge_diagnostic(opt_text(self.realm), url_text@),
    {
        let mut r = crate::text::string_from("HTTP Basic authentication required for ");
        crate::text::push_str(&mut r, url_text);
        match &self.realm {
            Some(realm) => {
                crate::text::push_str(&mut r, " realm=");
                crate::text::push_str(&mut r, crate::text::debug_string(realm.as_str()).as_str());
            },
            None => {},
        }
        r
    }

    /// Deterministic redacted diagnostic text.
    pub fn diagnostic(&self, url: &WebUrl) -> (r: String)
        ensures
            r@ == challenge_diagnostic(opt_text(self.realm), url@.text),
    {
        self.diagnostic_text(url.as_str())
    }
}

/// The debug text of credentials, with the password redacted.
pub open spec fn credentials_debug(username: Seq<char>) -> Seq<char> {
    "BasicCredentials { username: "@ + debug_quoted(username) + ", password: \"<redacted>\" }"@
}

impl BasicCredentials {
    /// The `{:?}` text of the credentials: the username, and the password
    /// redacted.
    pub fn debug_text(&self) -> (r: String)
        ensures
            r@ == credentials_debug(self.username@),
    {
        let mut r = crate::text::string_from("BasicCredentials { username: ");
        crate::text::push_str(&mut r, crate::text::debug_string(self.username.as_str()).as_str());
        crate::text::push_str(&mut r, ", password: \"<redacted>\" }");
        r
    }
}

/// The content type of a data URL from its `;`-separated metadata: the
/// first piece, lowercased, unless it is empty or `base64`.
pub open spec fn data_content_type(parts: Seq<Seq<char>>) -> Option<Seq<char>> {
    if parts.len() > 0 && !eq_ignore_case(parts[0], "base64"@) && parts[0].len() > 0 {
        Some(lower(parts[0]))
    } else {
        None
    }
}

/// Whether some metadata piece of a data URL is `base64` (any case).
pub open spec fn data_is_base64(parts: Seq<Seq<char>>) -> bool {
    exists|k: int| 0 <= k < parts.len() && eq_ignore_case(#[trigger] parts[k], "base64"@)
}

/// A data URL's text read as its content type, base64 flag and payload, or
/// the message of the URL error.
pub open spec fn data_url_of(t: Seq<char>) -> Result<(Option<Seq<char>>, bool, Seq<char>), Seq<char>> {
    if !starts_with(t, "data:"@) {
        Err("invalid data URL: "@ + t)
    } else {
        match split_once(t.subrange(5, t.len() as int), ',') {
            None => Err("invalid data URL: missing comma separator"@),
            Some((meta, data)) => Ok(
                (data_content_type(split_on(meta, ';')), data_is_base64(split_on(meta, ';')), data),
            ),
        }
    }
}

/// Whether `e` is a URL error with message `m`.
pub open spec fn is_url_error(e: WebbyError, m: Seq<char>) -> bool {
    e matches WebbyError::Url { message } && message@ == m
}

/// Reads a data URL's text: its content type, whether the payload is
/// base64, and the payload.
pub fn parse_data_url(text: &str) -> (r: Result<(Option<String>, bool, String), WebbyError>)
    ensures
        match r {
            Ok((c, b, d)) => data_url_of(text@) == Ok::<(Option<Seq<char>>, bool, Seq<char>), Seq<char>>(
                (opt_text(c), b, d@),
            ),
            Err(e) => data_url_of(text@) matches Err(m) && is_url_error(e, m),
        },
{
    let v = chars_of(text);
    proof {
        reveal_strlit("data:");
    }
    if v.len() < 5 || !crate::text::starts_with_at(&v, 0, "data:") {
        proof {
            assert(!starts_with(text@, "data:"@));
        }
        let mut m = crate::text::string_from("invalid data URL: ");
        crate::text::push_str(&mut m, text);
        return Err(WebbyError::Url { message: m });
    }
    proof {
        assert(starts_with(text@, "data:"@));
    }
    let raw = crate::text::slice_of(&v, 5, v.len());
    let (meta, data) = match crate::net::split_once_exec(&raw, ',') {
        Some(p) => p,
        None => {
            return Err(
                WebbyError::Url {
                    message: crate::text::string_from("invalid data URL: missing comma separator"),
                },
            );
        },
    };
    let parts = crate::text::split_on_exec(&meta, ';');
    let ghost ps = split_on(meta@, ';');
    proof {
        crate::text::lemma_split_on_len(meta@, ';');
    }
    let mut is_base64 = false;
    let mut i: usize = 0;
    while i < parts.len()
        invariant
            i <= parts@.len(),
            parts@.len() == ps.len(),
            forall|k: int| 0 <= k < ps.len() ==> (#[trigger] parts@[k])@ == ps[k],
            is_base64 == exists|k: int| 0 <= k < i && eq_ignore_case(#[trigger] ps[k], "base64"@),
        decreases parts@.len() - i,
    {
        if crate::text::vec_eq_ignore_case(&parts[i], "base64") {
            is_base64 = true;
        }
        proof {
            if is_base64 {
                if !eq_ignore_case(ps[i as int], "base64"@) {
                    let k = choose|k: int| 0 <= k < i && eq_ignore_case(#[trigger] ps[k], "base64"@);
                    assert(0 <= k < i + 1 && eq_ignore_case(ps[k], "base64"@));
                }
            } else {
                assert forall|k: int| 0 <= k < i + 1 implies !eq_ignore_case(#[trigger] ps[k], "base64"@) by {
                    if k == i {
                        assert(parts@[k]@ == ps[k]);
                    }
                }
            }
        }
        i += 1;
    }
    let first = &parts[0];
    let content_type = if !crate::text::vec_eq_ignore_case(first, "base64") && first.len() > 0 {
        Some(crate::text::string_of(&crate::text::lower_vec(first)))
    } else {
        None
    };
    Ok((content_type, is_base64, crate::text::string_of(&data)))
}

/// Standard base64 decoding (with padding) of bytes: the decoded bytes, or
/// the text of the error.
pub uninterp spec fn base64_standard_decoded(bytes: Seq<u8>) -> Result<Seq<u8>, Seq<char>>;

/// `base64::engine::general_purpose::STANDARD.decode` on the UTF-8 bytes of
/// `data`; its result, or its error's text, is named
/// `base64_standard_decoded`.
#[verifier::external_body]
fn base64_decode(data: &str) -> (r: Result<Vec<u8>, String>)
    ensures
        match r {
            Ok(b) => base64_standard_decoded(vstd::utf8::encode_utf8(data@)) == Ok::<Seq<u8>, Seq<char>>(b@),
            Err(e) => base64_standard_decoded(vstd::utf8::encode_utf8(data@)) == Err::<Seq<u8>, Seq<char>>(e@),
        },
{
    base64::engine::general_purpose::STANDARD.decode(data.as_bytes()).map_err(|error| error.to_string())
}

/// The value of a hexadecimal digit byte (either case).
pub open spec fn hex_digit(b: u8) -> Option<u8> {
    if 48 <= b <= 57 {
        Some((b - 48) as u8)
    } else if 65 <= b <= 70 {
        Some((b - 55) as u8)
    } else if 97 <= b <= 102 {
        Some((b - 87) as u8)
    } else {
        None
    }
}

/// Percent-decoding of bytes: each `%` followed by two hexadecimal digits
/// becomes the byte they spell; every other byte, `+` and a lone `%`
/// included, stays as it is.
pub open spec fn percent_decoded(s: Seq<u8>) -> Seq<u8>
    decreases s.len(),
{
    if s.len() == 0 {
        Seq::empty()
    } else if s[0] == 37 && s.len() >= 3 && hex_digit(s[1]) is Some && hex_digit(s[2]) is Some {
        seq![(hex_digit(s[1])->0 * 16 + hex_digit(s[2])->0) as u8] + percent_decoded(
            s.subrange(3, s.len() as int),
        )
    } else {
        seq![s[0]] + percent_decoded(s.subrange(1, s.len() as int))
    }
}

/// `urlencoding::decode_binary` on the UTF-8 bytes of `data`: percent
/// escapes decoded, as `percent_decoded` states.
#[verifier::external_body]
fn percent_decode(data: &str) -> (r: Vec<u8>)
    ensures
        r@ == percent_decoded(vstd::utf8::encode_utf8(data@)),
{
    urlencoding::decode_binary(data.as_bytes()).into_owned()
}

/// A data URL's content type and bytes: the declared content type, else
/// the one sniffed from the bytes. The error is whether it is a URL error
/// (`true`) or a parse error, and its message.
pub open spec fn data_resource_of(t: Seq<char>) -> Result<(Option<Seq<char>>, Seq<u8>), (bool, Seq<char>)> {
    match data_url_of(t) {
        Err(m) => Err((true, m)),
        Ok((ct, b64, data)) => {
            let decoded = if b64 {
                base64_standard_decoded(vstd::utf8::encode_utf8(data))
            } else {
                Ok(percent_decoded(vstd::utf8::encode_utf8(data)))
            };
            match decoded {
                Err(e) => Err((false, "invalid base64 data URL payload: "@ + e)),
                Ok(b) => Ok(
                    (
                        match ct {
                            Some(c) => Some(c),
                            None => sniffed_type(b),
                        },
                        b,
                    ),
                ),
            }
        },
    }
}

/// Whether `e` is the error that `want` describes.
pub open spec fn data_error_is(e: WebbyError, want: Result<(Option<Seq<char>>, Seq<u8>), (bool, Seq<char>)>) -> bool {
    match want {
        Err((true, m)) => is_url_error(e, m),
        Err((false, m)) => e matches WebbyError::Parse { message } && message@ == m,
        Ok(_) => false,
    }
}

/// The content type and bytes of a data URL's text.
pub fn data_resource(text: &str) -> (r: Result<(Option<String>, Vec<u8>), WebbyError>)
    ensures
        match r {
            Ok((c, b)) => data_resource_of(text@) == Ok::<(Option<Seq<char>>, Seq<u8>), (bool, Seq<char>)>(
                (opt_text(c), b@),
            ),
            Err(e) => data_error_is(e, data_resource_of(text@)),
        },
{
    let (content_type, is_base64, data) = match parse_data_url(text) {
        Ok(p) => p,
        Err(e) => {
            return Err(e);
        },
    };
    let bytes = if is_base64 {
        match base64_decode(data.as_str()) {
            Ok(b) => b,
            Err(e) => {
                let mut m = crate::text::string_from("invalid base64 data URL payload: ");
                crate::text::push_str(&mut m, e.as_str());
                return Err(WebbyError::Parse { message: m });
            },
        }
    } else {
        percent_decode(data.as_str())
    };
    let content_type = match content_type {
        Some(c) => Some(c),
        None => match crate::net::sniff_content_type(bytes.as_slice()) {
            Some(s) => Some(crate::text::string_from(s)),
            None => None,
        },
    };
    Ok((content_type, bytes))
}

/// Loads bytes embedded in a `data:` URL.
pub fn load_data_resource(url: &WebUrl) -> (r: Result<ResourceResponse, WebbyError>)
    ensures
        match r {
            Ok(resp) => data_resource_of(url@.text) == Ok::<(Option<Seq<char>>, Seq<u8>), (bool, Seq<char>)>(
                (opt_text(resp.content_type), resp.bytes@),
            ) && resp.requested_url@ == url@ && resp.final_url@ == url@ && resp.status is None
                && resp.headers@.len() == 0,
            Err(e) => data_error_is(e, data_resource_of(url@.text)),
        },
{
    match data_resource(url.as_str()) {
        Ok((content_type, bytes)) => Ok(
            ResourceResponse {
                requested_url: url.clone(),
                final_url: url.clone(),
                status: None,
                content_type,
                headers: Vec::new(),
                bytes,
            },
        ),
        Err(e) => Err(e),
    }
}

} // verus!
