//! The crawl subcommand: run the engine and assemble the output payload.

use vstd::prelude::*;

use crate::api::OutputFormat;
use crate::cli::Opts;
use crate::client::FetchProvider;
use crate::crawler::{
    accepted_by_log, accepted_from, fetched_urls, lemma_accepted_mono, lemma_log_covered_mono,
    log_covered, Crawler,
};
use crate::error::Error;
use crate::output::{sort_strings, sorted_lex, CrawlOutput};
use crate::strutil::clone_string_vec;

verus! {

/// Options of the crawl subcommand.
#[derive(Debug, Clone)]
pub struct CrawlOpts {
    /// The url(s) to start crawling from.
    pub urls: Vec<String>,
    /// Only crawl pages from the same domain.
    pub same_domain: bool,
    /// Include session stats in output.
    pub stats: bool,
    /// Output format.
    pub output: Option<OutputFormat>,
}

/// Run one crawl with the given client and assemble the output payload: the
/// seeds as given, the visited URLs sorted lexicographically and free of
/// duplicates (every seed among them, every member a seed or an accepted
/// link), and a statistics snapshot counting exactly the visited URLs.  The
/// payload carries the run's fetch log: its URLs are exactly the listed
/// links, and every link accepted out of a fetched body is itself listed.
/// An empty seed list always succeeds; an error only ever comes from a
/// failed first-round seed fetch.
pub fn crawl<F: FetchProvider>(client: F, craw_opts: CrawlOpts) -> (r: Result<
    CrawlOutput,
    Error,
>)
    ensures
        craw_opts.urls.deep_view().len() == 0 ==> r is Ok,
        match r {
            Ok(out) => {
                &&& out.seeds.deep_view() == craw_opts.urls.deep_view()
                &&& sorted_lex(out.links.deep_view())
                &&& out.links.deep_view().no_duplicates()
                &&& forall|u: Seq<char>|
                    craw_opts.urls.deep_view().contains(u) ==> out.links.deep_view().contains(u)
                &&& forall|u: Seq<char>|
                    #[trigger] out.links.deep_view().contains(u)
                        ==> craw_opts.urls.deep_view().contains(u) || accepted_from(
                        out.links.deep_view(),
                        u,
                        craw_opts.same_domain,
                    )
                &&& forall|u: Seq<char>|
                    #[trigger] out.links.deep_view().contains(u)
                        ==> craw_opts.urls.deep_view().contains(u) || accepted_by_log(
                        out.fetched@,
                        u,
                        craw_opts.same_domain,
                    )
                &&& out.stats matches Some(st) && st.total_visited
                    == out.links.deep_view().len() && st.started_at is Some
                    && st.finished_at is Some && st.started_at.unwrap() <= st.finished_at.unwrap()
                &&& fetched_urls(out.fetched@).no_duplicates()
                &&& forall|u: Seq<char>|
                    fetched_urls(out.fetched@).contains(u) <==> out.links.deep_view().contains(u)
                &&& log_covered(out.fetched@, craw_opts.same_domain, out.links.deep_view())
            },
            Err(e) => craw_opts.urls.deep_view().len() > 0,
        },
{
    let opts = Opts {
        urls: clone_string_vec(&craw_opts.urls),
        same_domain: craw_opts.same_domain,
        stats: craw_opts.stats,
        json: match craw_opts.output {
            Some(OutputFormat::Json) => true,
            _ => false,
        },
    };
    let mut session = Crawler::new(client, opts);
    match session.crawl() {
        Ok(links) => {
            let sorted = sort_strings(&links);
            proof {
                let sd = craw_opts.same_domain;
                assert forall|u: Seq<char>| #[trigger] sorted.deep_view().contains(u) implies
                    craw_opts.urls.deep_view().contains(u) || accepted_from(
                    sorted.deep_view(),
                    u,
                    sd,
                ) by {
                    assert(links.deep_view().contains(u));
                    if !craw_opts.urls.deep_view().contains(u) {
                        lemma_accepted_mono(links.deep_view(), sorted.deep_view(), u, sd);
                    }
                }
                assert forall|u: Seq<char>| #[trigger] sorted.deep_view().contains(u) implies
                    craw_opts.urls.deep_view().contains(u) || accepted_by_log(
                    session.fetched@,
                    u,
                    sd,
                ) by {
                    assert(links.deep_view().contains(u));
                }
                assert forall|u: Seq<char>|
                    fetched_urls(session.fetched@).contains(u) <==> sorted.deep_view().contains(
                        u,
                    ) by {
                    assert(fetched_urls(session.fetched@).contains(u) <==> links.deep_view().contains(u));
                }
                lemma_log_covered_mono(session.fetched@, sd, links.deep_view(), sorted.deep_view());
            }
            let st = *session.stats();
            Ok(
                CrawlOutput {
                    links: sorted,
                    seeds: clone_string_vec(&craw_opts.urls),
                    stats: Some(st),
                    fetched: Ghost(session.fetched@),
                },
            )
        },
        Err(e) => Err(e),
    }
}

} // verus!
