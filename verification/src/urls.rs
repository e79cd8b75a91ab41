//! URL parsing, reached through one trusted wrapper around the `url` crate.
//! The parser's outcome is deterministic in its input, so it is named by the
//! uninterpreted function `url_parse`; everything downstream of the wrapper is
//! verified against that name.

use vstd::prelude::*;

verus! {

/// What the URL parser yields of a parsed absolute URL, as plain values.
pub struct UrlParts {
    /// The scheme, lower-cased, without the `:` delimiter.
    pub scheme: String,
    /// The serialization of the host, if the URL has one.
    pub host: Option<String>,
    /// The host, when it is a domain name rather than an IP address.
    pub domain: Option<String>,
}

/// The mathematical content of a parsed URL.
pub ghost struct UrlView {
    pub scheme: Seq<char>,
    pub host: Option<Seq<char>>,
    pub domain: Option<Seq<char>>,
}

impl View for UrlParts {
    type V = UrlView;

    open spec fn view(&self) -> UrlView {
        UrlView {
            scheme: self.scheme@,
            host: self.host.deep_view(),
            domain: self.domain.deep_view(),
        }
    }
}

/// What `url::Url::parse` yields on a given string: `None` where parsing
/// fails, otherwise the scheme, host and domain of the parsed URL.
pub uninterp spec fn url_parse(s: Seq<char>) -> Option<UrlView>;

/// Relies on `url::Url::parse` and the accessors `Url::scheme`,
/// `Url::host_str` and `Url::domain`: parsing is deterministic, so the
/// outcome is a function of the input string alone.  `domain`, when present,
/// returns the very host slice that `host_str` returns, so a domain implies
/// that host.
#[verifier::external_body]
pub(crate) fn parse_url_parts(s: &str) -> (r: Option<UrlParts>)
    ensures
        match r {
            Some(p) => url_parse(s@) == Some(p@) && (p@.domain matches Some(d) ==> p@.host
                == Some(d)),
            None => url_parse(s@) is None,
        },
{
    match url::Url::parse(s) {
        Ok(u) => Some(UrlParts {
            scheme: u.scheme().to_string(),
            host: u.host_str().map(|h| h.to_string()),
            domain: u.domain().map(|d| d.to_string()),
        }),
        Err(_) => None,
    }
}

} // verus!
