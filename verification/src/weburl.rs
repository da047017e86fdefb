//! Absolute URLs held as plain values: the serialization and the parts that
//! the pipeline reads (scheme, host, port, path segments). Parsing and
//! joining are the `url` crate's work; every decision on the parts is
//! verified where it is made.

use vstd::prelude::*;
use crate::extract::opt_text;
use crate::js::string_views;

verus! {

/// An absolute URL as the `url` crate reads it. Its parts are always
/// those of one URL that the crate parsed or joined.
#[derive(Debug, PartialEq, Eq)]
pub struct WebUrl {
    /// The serialization (`Url::as_str`, which `Display` also writes).
    pub(crate) text: String,
    /// The scheme, lowercase.
    pub(crate) scheme: String,
    /// The host, as text, when there is one.
    pub(crate) host: Option<String>,
    /// The explicit port, or the scheme's known default.
    pub(crate) port: Option<u16>,
    /// The path segments, when the URL can be a base.
    pub(crate) segments: Option<Vec<String>>,
}

/// A URL as plain values.
pub struct UrlModel {
    /// Serialization.
    pub text: Seq<char>,
    /// Scheme.
    pub scheme: Seq<char>,
    /// Host.
    pub host: Option<Seq<char>>,
    /// Port or known default.
    pub port: Option<u16>,
    /// Path segments.
    pub segments: Option<Seq<Seq<char>>>,
}

impl View for WebUrl {
    type V = UrlModel;

    closed spec fn view(&self) -> UrlModel {
        UrlModel {
            text: self.text@,
            scheme: self.scheme@,
            host: opt_text(self.host),
            port: self.port,
            segments: match self.segments {
                Some(v) => Some(string_views(v@)),
                None => None,
            },
        }
    }
}

/// What `url::Url::parse` reads from `text`: the parts of the URL, or
/// `None` when the text is not an absolute URL.
pub uninterp spec fn parsed_url(text: Seq<char>) -> Option<UrlModel>;

/// What `url::Url::join` gives for `input` resolved against the URL whose
/// serialization is `base`: the parts of the joined URL, or the text of
/// the parse error.
pub uninterp spec fn joined_url(base: Seq<char>, input: Seq<char>) -> Result<UrlModel, Seq<char>>;

/// Whether `m` is a URL that the `url` crate gave: what it parsed from
/// some text, or what it joined from some base and input.
pub open spec fn url_from_crate(m: UrlModel) -> bool {
    ||| exists|t: Seq<char>| parsed_url(t) == Some(m)
    ||| exists|b: Seq<char>, i: Seq<char>| joined_url(b, i) == Ok::<UrlModel, Seq<char>>(m)
}

/// `url::Url::parse`, the parsed URL read into its parts. Its contract
/// names the outcome `parsed_url` of the text; nothing more is stated.
#[verifier::external_body]
fn parse_url_text(text: &str) -> (r: Option<WebUrl>)
    ensures
        match r {
            Some(u) => parsed_url(text@) == Some(u@),
            None => parsed_url(text@) is None,
        },
{
    let u = url::Url::parse(text).ok()?;
    let segments = u.path_segments().map(|s| s.map(str::to_string).collect());
    Some(WebUrl { text: u.as_str().to_string(), scheme: u.scheme().to_string(),
        host: u.host_str().map(str::to_string), port: u.port_or_known_default(), segments })
}

/// `url::Url::join` on the URL that `base` serializes (read back with
/// `Url::parse`, which gives that URL again), the joined URL read into its
/// parts, the error as its text. Its contract names the outcome
/// `joined_url` of the two texts; nothing more is stated.
#[verifier::external_body]
fn join_url_text(base: &str, input: &str) -> (r: Result<WebUrl, String>)
    ensures
        match r {
            Ok(u) => joined_url(base@, input@) == Ok::<UrlModel, Seq<char>>(u@),
            Err(e) => joined_url(base@, input@) == Err::<UrlModel, Seq<char>>(e@),
        },
{
    let b = url::Url::parse(base).map_err(|error| error.to_string())?;
    let u = b.join(input).map_err(|error| error.to_string())?;
    let segments = u.path_segments().map(|s| s.map(str::to_string).collect());
    Ok(WebUrl { text: u.as_str().to_string(), scheme: u.scheme().to_string(),
        host: u.host_str().map(str::to_string), port: u.port_or_known_default(), segments })
}

/// Copies of texts.
fn copy_texts(v: &Vec<String>) -> (r: Vec<String>)
    ensures
        string_views(r@) == string_views(v@),
{
    let mut out: Vec<String> = Vec::new();
    let mut i: usize = 0;
    while i < v.len()
        invariant
            i <= v@.len(),
            string_views(out@) == string_views(v@).take(i as int),
        decreases v@.len() - i,
    {
        let ghost before = string_views(out@);
        out.push(v[i].clone());
        proof {
            assert(string_views(out@) =~= before.push(v@[i as int]@));
            assert(string_views(v@).take(i + 1) =~= string_views(v@).take(i as int).push(v@[i as int]@));
        }
        i += 1;
    }
    proof {
        assert(string_views(v@).take(v@.len() as int) =~= string_views(v@));
    }
    out
}

impl WebUrl {
    /// The parts of a `WebUrl` are those of one URL of the `url` crate.
    #[verifier::type_invariant]
    spec fn from_crate(self) -> bool {
        url_from_crate(self@)
    }

    /// Parses an absolute URL.
    pub fn parse(text: &str) -> (r: Option<WebUrl>)
        ensures
            match r {
                Some(u) => parsed_url(text@) == Some(u@),
                None => parsed_url(text@) is None,
            },
    {
        parse_url_text(text)
    }

    /// Resolves `input` against this URL.
    pub fn join(&self, input: &str) -> (r: Result<WebUrl, String>)
        ensures
            match r {
                Ok(u) => joined_url(self@.text, input@) == Ok::<UrlModel, Seq<char>>(u@),
                Err(e) => joined_url(self@.text, input@) == Err::<UrlModel, Seq<char>>(e@),
            },
    {
        join_url_text(self.text.as_str(), input)
    }

    /// The URL's serialization.
    pub fn as_str(&self) -> (r: &str)
        ensures
            r@ == self@.text,
            url_from_crate(self@),
    {
        proof {
            use_type_invariant(self);
        }
        self.text.as_str()
    }

    /// The scheme, lowercase.
    pub fn scheme(&self) -> (r: &str)
        ensures
            r@ == self@.scheme,
            url_from_crate(self@),
    {
        proof {
            use_type_invariant(self);
        }
        self.scheme.as_str()
    }

    /// The host, when there is one.
    pub fn host(&self) -> (r: &Option<String>)
        ensures
            opt_text(*r) == self@.host,
            url_from_crate(self@),
    {
        proof {
            use_type_invariant(self);
        }
        &self.host
    }

    /// The explicit port, or the scheme's known default.
    pub fn port(&self) -> (r: Option<u16>)
        ensures
            r == self@.port,
            url_from_crate(self@),
    {
        proof {
            use_type_invariant(self);
        }
        self.port
    }

    /// The path segments, when the URL can be a base.
    pub fn segments(&self) -> (r: &Option<Vec<String>>)
        ensures
            match *r {
                Some(v) => self@.segments == Some(string_views(v@)),
                None => self@.segments is None,
            },
            url_from_crate(self@),
    {
        proof {
            use_type_invariant(self);
        }
        &self.segments
    }

    /// The path segments, taking the URL apart.
    pub fn into_segments(self) -> (r: Option<Vec<String>>)
        ensures
            match r {
                Some(v) => self@.segments == Some(string_views(v@)),
                None => self@.segments is None,
            },
    {
        self.segments
    }
}

impl Clone for WebUrl {
    fn clone(&self) -> (r: Self)
        ensures
            r@ == self@,
    {
        proof {
            use_type_invariant(self);
        }
        let host = match &self.host {
            Some(h) => Some(h.clone()),
            None => None,
        };
        let segments = match &self.segments {
            Some(v) => Some(copy_texts(v)),
            None => None,
        };
        WebUrl { text: self.text.clone(), scheme: self.scheme.clone(), host, port: self.port, segments }
    }
}

} // verus!
