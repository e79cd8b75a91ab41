//! The fetch capability, abstracted as a narrow interface so the crawl engine
//! can be exercised with deterministic fakes as well as a real HTTP client.

use vstd::prelude::*;

use crate::cli::Opts;
use crate::error::Error;
use crate::node::Node;

verus! {

/// One fetch: the page at `url`, or the failure.  An implementation hands
/// back a node for exactly the requested URL, carrying the options it was
/// given.
pub trait FetchProvider {
    fn fetch(&self, url: &str, opts: &Opts) -> (r: Result<Node, Error>)
        ensures
            r matches Ok(n) ==> n.url@ == url@ && n.options.same_domain == opts.same_domain,
    ;
}

} // verus!
