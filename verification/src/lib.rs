//! A breadth-first web crawler: starting from a set of seed URLs it fetches
//! pages, extracts hyperlinks, canonicalizes and filters them, deduplicates
//! against the visited set, and repeats on the newly discovered frontier until
//! no new URLs remain.  The crawl engine, the URL normalizer/filter and the
//! session statistics are verified; fetching, HTML parsing, URL parsing and
//! the clock are outside capabilities reached through narrow trusted items.

pub mod api;
pub mod cli;
pub mod client;
pub mod crawler;
pub mod error;
pub mod node;
pub mod output;
pub mod session_stats;
pub mod strutil;
pub mod urls;
