//! Origins, the CORS decision and mixed-content diagnostics.
//!
//! A URL is taken as its parts (scheme, host, port, text), which the `url`
//! crate reads; the decisions on those parts are verified here.

use vstd::prelude::*;
use crate::error::WebbyError;
use crate::text::{chars_of, eq_ignore_case, lower, trim};
use crate::weburl::{UrlModel, WebUrl};

verus! {

/// The origin model.
#[derive(Debug, Clone, PartialEq, Eq, PartialOrd, Ord)]
pub enum Origin {
    /// Tuple origin for network schemes.
    Tuple {
        /// URL scheme.
        scheme: String,
        /// Lowercase host.
        host: String,
        /// Explicit or known-default port.
        port: u16,
    },
    /// The shared local-file origin.
    LocalFile,
}

/// An origin as plain values.
pub enum OriginModel {
    /// Scheme, host and port.
    Tuple(Seq<char>, Seq<char>, u16),
    /// Local files.
    LocalFile,
}

impl View for Origin {
    type V = OriginModel;

    open spec fn view(&self) -> OriginModel {
        match self {
            Origin::Tuple { scheme, host, port } => OriginModel::Tuple(scheme@, host@, *port),
            Origin::LocalFile => OriginModel::LocalFile,
        }
    }
}

/// The key of an origin: `scheme://host:port`, or `file://local`.
pub open spec fn origin_key_of(o: OriginModel) -> Seq<char> {
    match o {
        OriginModel::Tuple(s, h, p) => s + "://"@ + h + ":"@ + crate::text::decimal(p as nat),
        OriginModel::LocalFile => "file://local"@,
    }
}

impl Origin {
    /// Returns the deterministic key used by storage and diagnostics.
    pub fn key(&self) -> (r: String)
        ensures
            r@ == origin_key_of(self@),
    {
        match self {
            Origin::Tuple { scheme, host, port } => {
                let mut r = scheme.clone();
                crate::text::push_str(&mut r, "://");
                crate::text::push_str(&mut r, host.as_str());
                crate::text::push_str(&mut r, ":");
                crate::text::push_str(&mut r, crate::text::decimal_string(*port as u64).as_str());
                r
            },
            Origin::LocalFile => crate::text::string_from("file://local"),
        }
    }

    /// Returns the value used for CORS `Access-Control-Allow-Origin` matching.
    pub fn serialized_for_cors(&self) -> (r: String)
        ensures
            r@ == origin_key_of(self@),
    {
        self.key()
    }
}

/// The origin of a URL from its scheme, host and port (`port`: explicit or
/// the scheme's default): `http` and `https` need a host and a port, `file`
/// is the local-file origin, other schemes have none. The error is the
/// message and whether it is an invalid-input (`true`) or unsupported error.
pub open spec fn origin_from_parts(scheme: Seq<char>, host: Option<Seq<char>>, port: Option<u16>) -> Result<
    OriginModel,
    (bool, Seq<char>),
> {
    if scheme == "http"@ || scheme == "https"@ {
        match host {
            None => Err((true, "origin requires host for "@ + scheme)),
            Some(h) => match port {
                None => Err((true, "origin requires port for "@ + scheme)),
                Some(p) => Ok(OriginModel::Tuple(lower(scheme), lower(h), p)),
            },
        }
    } else if scheme == "file"@ {
        Ok(OriginModel::LocalFile)
    } else {
        Err((false, "security origin is unsupported for "@ + scheme + ": URLs"@))
    }
}

/// Whether an origin result matches its plain-value description.
pub open spec fn origin_result_is(r: Result<Origin, WebbyError>, want: Result<OriginModel, (bool, Seq<char>)>) -> bool {
    match (r, want) {
        (Ok(o), Ok(m)) => o@ == m,
        (Err(WebbyError::InvalidInput { message }), Err((true, m))) => message@ == m,
        (Err(WebbyError::Unsupported { message }), Err((false, m))) => message@ == m,
        _ => false,
    }
}

/// The origin of a URL from its scheme, host and port.
pub fn origin_from_url_parts(scheme: &str, host: Option<&str>, port: Option<u16>) -> (r: Result<
    Origin,
    WebbyError,
>)
    ensures
        origin_result_is(
            r,
            origin_from_parts(
                scheme@,
                match host {
                    Some(h) => Some(h@),
                    None => None,
                },
                port,
            ),
        ),
{
    let s = chars_of(scheme);
    if crate::text::vec_eq_str(&s, "http") || crate::text::vec_eq_str(&s, "https") {
        let h = match host {
            Some(h) => h,
            None => {
                let mut m = crate::text::string_from("origin requires host for ");
                crate::text::push_str(&mut m, scheme);
                return Err(WebbyError::invalid_input(m));
            },
        };
        let p = match port {
            Some(p) => p,
            None => {
                let mut m = crate::text::string_from("origin requires port for ");
                crate::text::push_str(&mut m, scheme);
                return Err(WebbyError::invalid_input(m));
            },
        };
        Ok(Origin::Tuple { scheme: crate::text::lower_string(scheme), host: crate::text::lower_string(h), port: p })
    } else if crate::text::vec_eq_str(&s, "file") {
        Ok(Origin::LocalFile)
    } else {
        let mut m = crate::text::string_from("security origin is unsupported for ");
        crate::text::push_str(&mut m, scheme);
        crate::text::push_str(&mut m, ": URLs");
        Err(WebbyError::unsupported(m))
    }
}

/// The origin of a URL, as plain values: that of its scheme, host and
/// port, or `None` when it has none.
pub open spec fn url_origin(u: UrlModel) -> Option<OriginModel> {
    match origin_from_parts(u.scheme, u.host, u.port) {
        Ok(o) => Some(o),
        Err(_) => None,
    }
}

/// Builds an origin from a URL: the origin of its scheme, host and port.
pub fn origin_for_url(url: &WebUrl) -> (r: Result<Origin, WebbyError>)
    ensures
        origin_result_is(r, origin_from_parts(url@.scheme, url@.host, url@.port)),
{
    match url.host() {
        Some(h) => origin_from_url_parts(url.scheme(), Some(h.as_str()), url.port()),
        None => origin_from_url_parts(url.scheme(), None, url.port()),
    }
}

/// Returns the origin key for a URL.
pub fn origin_key(url: &WebUrl) -> (r: Result<String, WebbyError>)
    ensures
        match origin_from_parts(url@.scheme, url@.host, url@.port) {
            Ok(o) => r matches Ok(k) && k@ == origin_key_of(o),
            Err((true, m)) => r matches Err(WebbyError::InvalidInput { message }) && message@ == m,
            Err((false, m)) => r matches Err(WebbyError::Unsupported { message }) && message@ == m,
        },
{
    match origin_for_url(url) {
        Ok(o) => Ok(o.key()),
        Err(e) => Err(e),
    }
}

/// Whether two origins are the same.
pub fn origin_eq(a: &Origin, b: &Origin) -> (r: bool)
    ensures
        r == (a@ == b@),
{
    match (a, b) {
        (
            Origin::Tuple { scheme: s1, host: h1, port: p1 },
            Origin::Tuple { scheme: s2, host: h2, port: p2 },
        ) => {
            crate::text::vec_eq(&chars_of(s1.as_str()), &chars_of(s2.as_str())) && crate::text::vec_eq(
                &chars_of(h1.as_str()),
                &chars_of(h2.as_str()),
            ) && *p1 == *p2
        },
        (Origin::LocalFile, Origin::LocalFile) => true,
        _ => false,
    }
}

/// An origin result as an optional origin (errors forgotten).
pub open spec fn ok_origin(r: Result<Origin, WebbyError>) -> Option<OriginModel> {
    match r {
        Ok(o) => Some(o@),
        Err(_) => None,
    }
}

/// Whether two origin results are the same once errors are forgotten.
pub fn same_ok_origin(a: &Result<Origin, WebbyError>, b: &Result<Origin, WebbyError>) -> (r: bool)
    ensures
        r == (ok_origin(*a) == ok_origin(*b)),
{
    match (a, b) {
        (Ok(x), Ok(y)) => origin_eq(x, y),
        (Err(_), Err(_)) => true,
        _ => false,
    }
}

/// Returns true when two URLs share an origin (two URLs without one count
/// as sharing).
pub fn same_origin(left: &WebUrl, right: &WebUrl) -> (r: bool)
    ensures
        r == (url_origin(left@) == url_origin(right@)),
{
    let a = origin_for_url(left);
    let b = origin_for_url(right);
    same_ok_origin(&a, &b)
}

/// Result of evaluating a fetch/XHR CORS check.
#[derive(Debug, Clone, PartialEq, Eq)]
pub enum CorsDecision {
    /// Request is allowed.
    Allowed,
    /// Request is blocked with a deterministic reason.
    Blocked(String),
}

/// Whether some `Access-Control-Allow-Origin` header (any case) has the
/// value `*` or `expected`, trimmed.
pub open spec fn allows_origin(h: Seq<(Seq<char>, Seq<char>)>, expected: Seq<char>) -> bool {
    exists|k: int|
        0 <= k < h.len() && eq_ignore_case((#[trigger] h[k]).0, "access-control-allow-origin"@) && (
        trim(h[k].1) == "*"@ || trim(h[k].1) == expected)
}

/// The CORS decision for a page and a resource given their origins and
/// texts: allowed when the origins are the same (both missing counts as
/// the same), else when an allow-origin header admits the page's origin;
/// blocked with a reason otherwise. `None` is allowed.
pub open spec fn cors_outcome(
    page: Option<OriginModel>,
    resource: Option<OriginModel>,
    page_text: Seq<char>,
    resource_text: Seq<char>,
    headers: Seq<(Seq<char>, Seq<char>)>,
) -> Option<Seq<char>> {
    if page == resource {
        None
    } else {
        match page {
            None => Some(
                "CORS blocked request from unsupported origin "@ + page_text + " to "@
                    + resource_text,
            ),
            Some(o) => if allows_origin(headers, origin_key_of(o)) {
                None
            } else {
                Some("CORS blocked request from "@ + origin_key_of(o) + " to "@ + resource_text)
            },
        }
    }
}

/// A request to the page's own origin (or between two URLs without one)
/// is allowed; a page with an origin is allowed anything by a wildcard
/// `Access-Control-Allow-Origin` header.
pub proof fn lemma_cors_allows(
    page: Option<OriginModel>,
    resource: Option<OriginModel>,
    page_text: Seq<char>,
    resource_text: Seq<char>,
    headers: Seq<(Seq<char>, Seq<char>)>,
    k: int,
)
    ensures
        cors_outcome(page, page, page_text, resource_text, headers) is None,
        page is Some && 0 <= k < headers.len() && eq_ignore_case(
            headers[k].0,
            "access-control-allow-origin"@,
        ) && trim(headers[k].1) == "*"@ ==> cors_outcome(
            page,
            resource,
            page_text,
            resource_text,
            headers,
        ) is None,
{
    if page is Some && 0 <= k < headers.len() && eq_ignore_case(headers[k].0, "access-control-allow-origin"@)
        && trim(headers[k].1) == "*"@ {
        assert(allows_origin(headers, origin_key_of(page->0)));
    }
}

/// A CORS decision as an optional reason.
pub open spec fn decision_reason(d: CorsDecision) -> Option<Seq<char>> {
    match d {
        CorsDecision::Allowed => None,
        CorsDecision::Blocked(m) => Some(m@),
    }
}

/// The CORS decision given the origins of the page and resource (as
/// computed from their URLs) and their texts.
pub fn cors_decision(
    page: &Result<Origin, WebbyError>,
    resource: &Result<Origin, WebbyError>,
    page_text: &str,
    resource_text: &str,
    headers: &[(String, String)],
) -> (r: CorsDecision)
    ensures
        decision_reason(r) == cors_outcome(
            ok_origin(*page),
            ok_origin(*resource),
            page_text@,
            resource_text@,
            crate::net::header_views(headers@),
        ),
{
    if same_ok_origin(page, resource) {
        return CorsDecision::Allowed;
    }
    let origin = match page {
        Ok(o) => o,
        Err(_) => {
            let mut m = crate::text::string_from("CORS blocked request from unsupported origin ");
            crate::text::push_str(&mut m, page_text);
            crate::text::push_str(&mut m, " to ");
            crate::text::push_str(&mut m, resource_text);
            return CorsDecision::Blocked(m);
        },
    };
    let expected = origin.serialized_for_cors();
    let ev = chars_of(expected.as_str());
    let ghost hv = crate::net::header_views(headers@);
    let mut k: usize = 0;
    while k < headers.len()
        invariant
            k <= headers@.len(),
            hv == crate::net::header_views(headers@),
            ev@ == expected@,
            ok_origin(*page) == Some(origin@),
            ok_origin(*page) != ok_origin(*resource),
            expected@ == origin_key_of(origin@),
            forall|j: int|
                0 <= j < k ==> !(eq_ignore_case((#[trigger] hv[j]).0, "access-control-allow-origin"@) && (
                trim(hv[j].1) == "*"@ || trim(hv[j].1) == expected@)),
        decreases headers@.len() - k,
    {
        let name = crate::text::lower_vec(&chars_of(headers[k].0.as_str()));
        let target = crate::text::lower_vec(&chars_of("access-control-allow-origin"));
        let value = crate::text::trimmed_chars(headers[k].1.as_str());
        proof {
            assert(hv[k as int] == (headers@[k as int].0@, headers@[k as int].1@));
        }
        if crate::text::vec_eq(&name, &target) && (crate::text::vec_eq_str(&value, "*")
            || crate::text::vec_eq(&value, &ev)) {
            proof {
                reveal_strlit("access-control-allow-origin");
                assert(eq_ignore_case(hv[k as int].0, "access-control-allow-origin"@));
                assert(allows_origin(hv, expected@));
            }
            return CorsDecision::Allowed;
        }
        k += 1;
    }
    let mut m = crate::text::string_from("CORS blocked request from ");
    crate::text::push_str(&mut m, expected.as_str());
    crate::text::push_str(&mut m, " to ");
    crate::text::push_str(&mut m, resource_text);
    CorsDecision::Blocked(m)
}

/// Evaluates the CORS policy for a loaded fetch/XHR resource.
pub fn check_cors(page_url: &WebUrl, resource_url: &WebUrl, headers: &[(String, String)]) -> (r: CorsDecision)
    ensures
        decision_reason(r) == cors_outcome(
            url_origin(page_url@),
            url_origin(resource_url@),
            page_url@.text,
            resource_url@.text,
            crate::net::header_views(headers@),
        ),
{
    let page = origin_for_url(page_url);
    let resource = origin_for_url(resource_url);
    cors_decision(&page, &resource, page_url.as_str(), resource_url.as_str(), headers)
}

/// The mixed-content diagnostic for an HTTPS page and an HTTP resource.
pub open spec fn mixed_content_of(
    page_scheme: Seq<char>,
    resource_scheme: Seq<char>,
    page_text: Seq<char>,
    resource_text: Seq<char>,
) -> Option<Seq<char>> {
    if page_scheme == "https"@ && resource_scheme == "http"@ {
        Some(
            "mixed content diagnostic: HTTPS page "@ + page_text + " referenced insecure resource "@
                + resource_text,
        )
    } else {
        None
    }
}

/// The mixed-content diagnostic given the schemes and texts of the URLs.
pub fn mixed_content_for(
    page_scheme: &str,
    resource_scheme: &str,
    page_text: &str,
    resource_text: &str,
) -> (r: Option<String>)
    ensures
        crate::extract::opt_text(r) == mixed_content_of(
            page_scheme@,
            resource_scheme@,
            page_text@,
            resource_text@,
        ),
{
    if crate::text::vec_eq_str(&chars_of(page_scheme), "https") && crate::text::vec_eq_str(
        &chars_of(resource_scheme),
        "http",
    ) {
        let mut m = crate::text::string_from("mixed content diagnostic: HTTPS page ");
        crate::text::push_str(&mut m, page_text);
        crate::text::push_str(&mut m, " referenced insecure resource ");
        crate::text::push_str(&mut m, resource_text);
        Some(m)
    } else {
        None
    }
}

/// Returns a mixed-content warning when an HTTPS page references an HTTP
/// subresource.
pub fn mixed_content_diagnostic(page_url: &WebUrl, resource_url: &WebUrl) -> (r: Option<String>)
    ensures
        crate::extract::opt_text(r) == mixed_content_of(
            page_url@.scheme,
            resource_url@.scheme,
            page_url@.text,
            resource_url@.text,
        ),
{
    mixed_content_for(
        page_url.scheme(),
        resource_url.scheme(),
        page_url.as_str(),
        resource_url.as_str(),
    )
}

} // verus!
