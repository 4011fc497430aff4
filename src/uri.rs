//! The parts of a URI that the server reads, as the `http` crate parses them.
use vstd::prelude::*;

verus! {

/// The components of a parsed URI.
#[derive(Debug)]
pub struct UriParts {
    pub path: String,
    pub path_and_query: Option<String>,
    pub scheme: Option<String>,
    pub host: Option<String>,
    pub port: Option<u16>,
}

/// The components of a parsed URI, as character sequences.
pub struct UriView {
    pub path: Seq<char>,
    pub path_and_query: Option<Seq<char>>,
    pub scheme: Option<Seq<char>>,
    pub host: Option<Seq<char>>,
    pub port: Option<u16>,
}

/// The view of an optional string.
pub open spec fn opt_chars(s: Option<String>) -> Option<Seq<char>> {
    match s {
        Some(x) => Some(x@),
        None => None,
    }
}

impl View for UriParts {
    type V = UriView;

    open spec fn view(&self) -> UriView {
        UriView {
            path: self.path@,
            path_and_query: opt_chars(self.path_and_query),
            scheme: opt_chars(self.scheme),
            host: opt_chars(self.host),
            port: self.port,
        }
    }
}

/// The view of an optional parse result.
pub open spec fn opt_uri(u: Option<UriParts>) -> Option<UriView> {
    match u {
        Some(x) => Some(x@),
        None => None,
    }
}

/// What the `http` crate parses a URI string into; `None` where it is not a
/// valid URI.
pub uninterp spec fn uri_of(s: Seq<char>) -> Option<UriView>;

/// Relies on `<http::Uri as FromStr>::from_str`: the URI's path, path and
/// query, scheme, host and port, or `None` for a string that is no URI.
#[verifier::external_body]
pub(crate) fn parse_uri(s: &str) -> (r: Option<UriParts>)
    ensures
        opt_uri(r) == uri_of(s@),
{
    s.parse::<http::Uri>().ok().map(
        |u| UriParts {
            path: u.path().to_string(),
            path_and_query: u.path_and_query().map(|pq| pq.as_str().to_string()),
            scheme: u.scheme_str().map(|x| x.to_string()),
            host: u.host().map(|x| x.to_string()),
            port: u.port_u16(),
        },
    )
}

} // verus!
