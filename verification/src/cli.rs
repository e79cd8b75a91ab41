//! The crawl options shared by the engine and the command-line surface.

use vstd::prelude::*;

verus! {

/// Options for one crawl run, immutable for the run.
#[derive(Debug, Clone)]
pub struct Opts {
    /// The url(s) to start crawling from.
    pub urls: Vec<String>,
    /// Only crawl pages from the same domain.
    pub same_domain: bool,
    /// Include session stats in output.
    pub stats: bool,
    /// Output json.
    pub json: bool,
}

} // verus!
