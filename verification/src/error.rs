//! The error kinds of the crawler, collapsed into one tagged enum.

use vstd::prelude::*;

verus! {

/// Everything that can go wrong during a run.
#[derive(Clone, Copy, Debug, PartialEq, Eq, Structural)]
pub enum Error {
    /// Connection or network failure while fetching a page.
    TransportError,
    /// A non-2xx HTTP response.
    StatusError,
    /// A response body that could not be decoded as text.
    BodyReadError,
    /// A URL that failed to parse during normalization.
    UrlParseError,
    /// Session statistics queried before a start timestamp was set.
    InvalidState,
}

impl Error {
    /// A short description of the error kind.
    pub fn message(&self) -> (r: String)
        ensures
            match self {
                Error::TransportError => r@ == "error getting content"@,
                Error::StatusError => r@ == "404"@,
                Error::BodyReadError => r@ == "malformed content"@,
                Error::UrlParseError => r@ == "could not parse url"@,
                Error::InvalidState => r@ == "Session has not been started or finished"@,
            },
    {
        match self {
            Error::TransportError => String::from_str("error getting content"),
            Error::StatusError => String::from_str("404"),
            Error::BodyReadError => String::from_str("malformed content"),
            Error::UrlParseError => String::from_str("could not parse url"),
            Error::InvalidState => String::from_str("Session has not been started or finished"),
        }
    }
}

} // verus!
