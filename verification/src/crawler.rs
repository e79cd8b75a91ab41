//! The crawl engine: owns the visited set, drives the round-based
//! breadth-first loop, invokes fetch and link extraction, applies the
//! normalizer/filter, and computes successive frontiers.
//!
//! Each round fetches every URL of the current frontier, collects the
//! accepted links of the successful fetches, then adds the whole frontier to
//! the visited set, counts it into the session statistics, and takes as the
//! next frontier the collected links that are not yet visited.  The run ends
//! when a computed frontier is empty.  A fetch failure on the first round
//! aborts the run; later fetch failures contribute no links and the round
//! goes on.
//!
//! The engine keeps a ghost log of every fetch it performs: the URL handed
//! to the fetch capability and, on success, the body that came back.  The
//! contract of [`Crawler::crawl`] states the run's soundness and
//! completeness over that log: the logged URLs are exactly the visited set
//! (each visited once), and every link the normalizer/filter accepts out of
//! a logged body is itself visited.

use vstd::prelude::*;

use crate::cli::Opts;
use crate::client::FetchProvider;
use crate::error::Error;
use crate::node::{hrefs_of, link_of};
use crate::session_stats::SessionStats;
use crate::strutil::{
    clone_string_vec, dedup_strings, lemma_concat_contains, lemma_no_dups_push, vec_contains_str,
};

verus! {

broadcast use vstd::seq_lib::lemma_seq_contains_after_push;

/// `u` is a link that the normalizer/filter accepts against some base URL
/// among `bases`.
pub open spec fn accepted_from(bases: Seq<Seq<char>>, u: Seq<char>, sd: bool) -> bool {
    exists|b: Seq<char>, h: Seq<char>|
        #![trigger bases.contains(b), link_of(b, h, sd)]
        bases.contains(b) && link_of(b, h, sd) == Some(u)
}

/// Accepted links stay accepted when the set of bases grows.
pub proof fn lemma_accepted_mono(s: Seq<Seq<char>>, t: Seq<Seq<char>>, u: Seq<char>, sd: bool)
    requires
        accepted_from(s, u, sd),
        forall|b: Seq<char>| s.contains(b) ==> t.contains(b),
    ensures
        accepted_from(t, u, sd),
{
    let (b, h) = choose|b: Seq<char>, h: Seq<char>|
        #![trigger s.contains(b), link_of(b, h, sd)]
        s.contains(b) && link_of(b, h, sd) == Some(u);
    assert(t.contains(b) && link_of(b, h, sd) == Some(u));
}

/// The URLs of a fetch log, in fetch order.
pub open spec fn fetched_urls(log: Seq<(Seq<char>, Option<Seq<char>>)>) -> Seq<Seq<char>> {
    log.map_values(|e: (Seq<char>, Option<Seq<char>>)| e.0)
}

/// Every link that the normalizer/filter accepts against `url` out of the
/// hrefs of `body` is a member of `vs`.
pub open spec fn links_covered(
    url: Seq<char>,
    body: Seq<char>,
    sd: bool,
    vs: Seq<Seq<char>>,
) -> bool {
    forall|h: Seq<char>|
        #[trigger] hrefs_of(body).contains(h) ==> match link_of(url, h, sd) {
            Some(u) => vs.contains(u),
            None => true,
        }
}

/// Every successfully fetched page of the log has all its accepted links in
/// `vs`.
pub open spec fn log_covered(
    log: Seq<(Seq<char>, Option<Seq<char>>)>,
    sd: bool,
    vs: Seq<Seq<char>>,
) -> bool {
    forall|i: int|
        #![trigger log[i]]
        0 <= i < log.len() ==> match log[i].1 {
            Some(b) => links_covered(log[i].0, b, sd, vs),
            None => true,
        }
}

/// Coverage survives growing the covering set.
pub proof fn lemma_log_covered_mono(
    log: Seq<(Seq<char>, Option<Seq<char>>)>,
    sd: bool,
    vs: Seq<Seq<char>>,
    ws: Seq<Seq<char>>,
)
    requires
        log_covered(log, sd, vs),
        forall|u: Seq<char>| vs.contains(u) ==> ws.contains(u),
    ensures
        log_covered(log, sd, ws),
{
    assert forall|i: int|
        0 <= i < log.len() implies match #[trigger] log[i].1 {
        Some(b) => links_covered(log[i].0, b, sd, ws),
        None => true,
    } by {
        match log[i].1 {
            Some(b) => {
                assert(links_covered(log[i].0, b, sd, vs));
                assert forall|h: Seq<char>|
                    #[trigger] hrefs_of(b).contains(h) implies match link_of(log[i].0, h, sd) {
                    Some(u) => ws.contains(u),
                    None => true,
                } by {
                    match link_of(log[i].0, h, sd) {
                        Some(u) => {
                            assert(vs.contains(u));
                        },
                        None => {},
                    }
                }
            },
            None => {},
        }
    }
}

/// `u` is a link that the normalizer/filter accepts against some logged
/// page, out of that page's actual hrefs.
pub open spec fn accepted_by_log(
    log: Seq<(Seq<char>, Option<Seq<char>>)>,
    u: Seq<char>,
    sd: bool,
) -> bool {
    exists|i: int, h: Seq<char>|
        #![trigger link_of(log[i].0, h, sd)]
        0 <= i < log.len() && log[i].1 is Some && hrefs_of(log[i].1.unwrap()).contains(h)
            && link_of(log[i].0, h, sd) == Some(u)
}

/// Links accepted by a log stay accepted when the log grows.
proof fn lemma_accepted_by_log_push(
    log: Seq<(Seq<char>, Option<Seq<char>>)>,
    e: (Seq<char>, Option<Seq<char>>),
    u: Seq<char>,
    sd: bool,
)
    requires
        accepted_by_log(log, u, sd),
    ensures
        accepted_by_log(log.push(e), u, sd),
{
    let (i, h) = choose|i: int, h: Seq<char>|
        #![trigger link_of(log[i].0, h, sd)]
        0 <= i < log.len() && log[i].1 is Some && hrefs_of(log[i].1.unwrap()).contains(h)
            && link_of(log[i].0, h, sd) == Some(u);
    assert(log.push(e)[i] == log[i]);
    assert(0 <= i < log.push(e).len() && log.push(e)[i].1 is Some && hrefs_of(
        log.push(e)[i].1.unwrap(),
    ).contains(h) && link_of(log.push(e)[i].0, h, sd) == Some(u));
}

/// One step of the fetch log: appending an entry whose URL is the next
/// unfetched frontier member, and whose accepted links (on success) are
/// already in the covering set, preserves the log's invariants.
proof fn lemma_log_step(
    log: Seq<(Seq<char>, Option<Seq<char>>)>,
    e: (Seq<char>, Option<Seq<char>>),
    vis0: Seq<Seq<char>>,
    front: Seq<Seq<char>>,
    i: int,
    sd: bool,
    vs: Seq<Seq<char>>,
)
    requires
        0 <= i < front.len(),
        e.0 == front[i],
        front.no_duplicates(),
        forall|u: Seq<char>| #[trigger] front.contains(u) ==> !vis0.contains(u),
        fetched_urls(log).no_duplicates(),
        forall|u: Seq<char>|
            (#[trigger] fetched_urls(log).contains(u)) <==> vis0.contains(u) || front.take(
                i,
            ).contains(u),
        log_covered(log, sd, vs),
        match e.1 {
            Some(b) => links_covered(e.0, b, sd, vs),
            None => true,
        },
    ensures
        fetched_urls(log.push(e)).no_duplicates(),
        forall|u: Seq<char>|
            (#[trigger] fetched_urls(log.push(e)).contains(u)) <==> vis0.contains(u) || front.take(
                i + 1,
            ).contains(u),
        forall|u: Seq<char>|
            (#[trigger] front.take(i + 1).contains(u)) ==> fetched_urls(log.push(e)).contains(u),
        log_covered(log.push(e), sd, vs),
        log.push(e).last() == e,
{
    let urls = fetched_urls(log);
    let urls1 = fetched_urls(log.push(e));
    assert(urls1 =~= urls.push(e.0));
    front.lemma_index_contains(i);
    front.lemma_take_succ_push(i);
    assert(!urls.contains(e.0)) by {
        if front.take(i).contains(e.0) {
            let j = choose|j: int| 0 <= j < i && #[trigger] front.take(i)[j] == e.0;
            assert(front[j] == front[i]);
        }
    }
    lemma_no_dups_push(urls, e.0);
    assert forall|u: Seq<char>|
        ((#[trigger] urls1.contains(u)) <==> vis0.contains(u) || front.take(i + 1).contains(u))
            && ((#[trigger] front.take(i + 1).contains(u)) ==> urls1.contains(u)) by {
        assert(urls.push(e.0).contains(u) <==> urls.contains(u) || u == e.0);
        assert(front.take(i).push(front[i]).contains(u) <==> front.take(i).contains(u) || u
            == front[i]);
        assert(front.take(i + 1) == front.take(i).push(front[i]));
    }
    assert forall|j: int|
        0 <= j < log.push(e).len() implies match #[trigger] log.push(e)[j].1 {
        Some(b) => links_covered(log.push(e)[j].0, b, sd, vs),
        None => true,
    } by {
        if j < log.len() {
            assert(log.push(e)[j] == log[j]);
        } else {
            assert(log.push(e)[j] == e);
        }
    }
}

/// The crawl engine.  It exclusively owns the visited set and the session
/// statistics for the duration of a run.
pub struct Crawler<F: FetchProvider> {
    pub options: Opts,
    pub client: F,
    /// The deduplicated set of canonical URLs visited so far.
    pub visited: Vec<String>,
    pub stats: SessionStats,
    /// The log of every fetch performed, in order: the URL handed to the
    /// fetch capability and, on success, the body that came back.
    pub fetched: Ghost<Seq<(Seq<char>, Option<Seq<char>>)>>,
}

impl<F: FetchProvider> Crawler<F> {
    pub fn new(client: F, opts: Opts) -> (r: Crawler<F>)
        ensures
            r.options == opts,
            r.client == client,
            r.visited@.len() == 0,
            r.stats.total_visited == 0,
            r.stats.started_at is None,
            r.stats.finished_at is None,
    {
        Crawler {
            options: opts,
            client,
            visited: Vec::new(),
            stats: SessionStats::new(),
            fetched: Ghost(Seq::empty()),
        }
    }

    /// A read-only view of the session statistics.
    pub fn stats(&self) -> (r: &SessionStats)
        ensures
            r == &self.stats,
    {
        &self.stats
    }

    /// Run one crawl to completion.  The run starts fresh: the visited set
    /// begins empty, the statistics begin zeroed with `started_at` recorded,
    /// and the initial frontier is the seed set.  On success the returned
    /// vector is the visited set: duplicate-free, containing every seed,
    /// every member a seed or a link accepted by the normalizer/filter
    /// against a visited page, counted exactly by the statistics.  The fetch
    /// log pins the run down: its URLs are exactly the visited set (each
    /// fetched exactly once), and every accepted link of every fetched body
    /// is itself visited, so the run followed every qualifying link.  An
    /// empty seed list always succeeds.  An error is only ever the failure
    /// of a first-round seed fetch, returned with nothing visited; failures
    /// in later rounds contribute no links and the round goes on.
    pub fn crawl(&mut self) -> (r: Result<Vec<String>, Error>)
        ensures
            final(self).options == old(self).options,
            final(self).client == old(self).client,
            final(self).stats.started_at is Some,
            old(self).options.urls.deep_view().len() == 0 ==> r is Ok,
            match r {
                Ok(v) => {
                    &&& v.deep_view() == final(self).visited.deep_view()
                    &&& final(self).visited.deep_view().no_duplicates()
                    &&& forall|u: Seq<char>|
                        old(self).options.urls.deep_view().contains(u) ==> final(self).visited.deep_view().contains(u)
                    &&& forall|u: Seq<char>|
                        #[trigger] final(self).visited.deep_view().contains(u) ==> old(self).options.urls.deep_view().contains(u) || accepted_from(
                            final(self).visited.deep_view(),
                            u,
                            old(self).options.same_domain,
                        )
                    &&& forall|u: Seq<char>|
                        #[trigger] final(self).visited.deep_view().contains(u) ==> old(self).options.urls.deep_view().contains(u) || accepted_by_log(
                            final(self).fetched@,
                            u,
                            old(self).options.same_domain,
                        )
                    &&& final(self).stats.total_visited == final(self).visited.deep_view().len()
                    &&& final(self).stats.finished_at is Some
                    &&& final(self).stats.started_at.unwrap() <= final(self).stats.finished_at.unwrap()
                    &&& fetched_urls(final(self).fetched@).no_duplicates()
                    &&& forall|u: Seq<char>|
                        fetched_urls(final(self).fetched@).contains(u) <==> final(self).visited.deep_view().contains(u)
                    &&& log_covered(
                        final(self).fetched@,
                        old(self).options.same_domain,
                        final(self).visited.deep_view(),
                    )
                },
                Err(e) => {
                    &&& final(self).visited.deep_view().len() == 0
                    &&& final(self).stats.total_visited == 0
                    &&& final(self).stats.finished_at is None
                    &&& final(self).fetched@.len() > 0
                    &&& final(self).fetched@.last().1 is None
                    &&& old(self).options.urls.deep_view().contains(final(self).fetched@.last().0)
                    &&& forall|u: Seq<char>|
                        #[trigger] fetched_urls(final(self).fetched@).contains(u) ==> old(self).options.urls.deep_view().contains(u)
                },
            },
    {
        self.visited = Vec::new();
        self.stats = SessionStats::new();
        self.stats.start_session();
        self.fetched = Ghost(Seq::empty());

        let ghost seeds = self.options.urls.deep_view();
        let ghost sd = self.options.same_domain;

        // The initial frontier is the seed set.
        let mut frontier: Vec<String> = dedup_strings(&self.options.urls);
        let mut is_first: bool = true;

        while frontier.len() > 0
            invariant
                self.options == old(self).options,
                self.client == old(self).client,
                seeds == self.options.urls.deep_view(),
                sd == self.options.same_domain,
                self.stats.started_at is Some,
                self.stats.finished_at is None,
                self.visited.deep_view().no_duplicates(),
                frontier.deep_view().no_duplicates(),
                forall|u: Seq<char>|
                    #[trigger] frontier.deep_view().contains(u)
                        ==> !self.visited.deep_view().contains(u),
                self.stats.total_visited == self.visited.deep_view().len(),
                fetched_urls(self.fetched@).no_duplicates(),
                forall|u: Seq<char>|
                    fetched_urls(self.fetched@).contains(u) <==> self.visited.deep_view().contains(
                        u,
                    ),
                log_covered(
                    self.fetched@,
                    sd,
                    self.visited.deep_view() + frontier.deep_view(),
                ),
                forall|u: Seq<char>|
                    seeds.contains(u) ==> self.visited.deep_view().contains(u)
                        || frontier.deep_view().contains(u),
                forall|u: Seq<char>|
                    self.visited.deep_view().contains(u) || frontier.deep_view().contains(u)
                        ==> seeds.contains(u) || accepted_from(self.visited.deep_view(), u, sd),
                forall|u: Seq<char>|
                    self.visited.deep_view().contains(u) || frontier.deep_view().contains(u)
                        ==> seeds.contains(u) || accepted_by_log(self.fetched@, u, sd),
                is_first ==> self.visited.deep_view().len() == 0,
                is_first ==> (forall|u: Seq<char>|
                    frontier.deep_view().contains(u) <==> seeds.contains(u)),
                self.visited.deep_view().len() <= usize::MAX,
            decreases usize::MAX - self.visited.deep_view().len(),
        {
            let ghost vis0 = self.visited.deep_view();
            let ghost front = frontier.deep_view();
            let ghost stats0 = self.stats;

            // Fetch the whole frontier, collecting the accepted links.
            let mut candidates: Vec<String> = Vec::new();
            proof {
                lemma_log_covered_mono(
                    self.fetched@,
                    sd,
                    vis0 + front,
                    vis0 + front + candidates.deep_view(),
                );
            }
            let mut i: usize = 0;
            while i < frontier.len()
                invariant
                    i <= front.len(),
                    front == frontier.deep_view(),
                    self.options == old(self).options,
                    self.client == old(self).client,
                    seeds == self.options.urls.deep_view(),
                    sd == self.options.same_domain,
                    self.visited.deep_view() == vis0,
                    self.stats == stats0,
                    stats0.started_at is Some,
                    stats0.finished_at is None,
                    stats0.total_visited == vis0.len(),
                    is_first ==> vis0.len() == 0,
                    is_first ==> (forall|u: Seq<char>| front.contains(u) <==> seeds.contains(u)),
                    front.no_duplicates(),
                    forall|u: Seq<char>| #[trigger] front.contains(u) ==> !vis0.contains(u),
                    fetched_urls(self.fetched@).no_duplicates(),
                    forall|u: Seq<char>|
                        (#[trigger] fetched_urls(self.fetched@).contains(u)) <==> vis0.contains(u)
                            || front.take(i as int).contains(u),
                    forall|u: Seq<char>|
                        (#[trigger] front.take(i as int).contains(u)) ==> fetched_urls(
                            self.fetched@,
                        ).contains(u),
                    log_covered(self.fetched@, sd, vis0 + front + candidates.deep_view()),
                    forall|u: Seq<char>|
                        vis0.contains(u) || front.contains(u) ==> seeds.contains(u)
                            || accepted_by_log(self.fetched@, u, sd),
                    candidates.deep_view().no_duplicates(),
                    forall|u: Seq<char>|
                        #[trigger] candidates.deep_view().contains(u) ==> accepted_from(
                            front,
                            u,
                            sd,
                        ),
                    forall|u: Seq<char>|
                        #[trigger] candidates.deep_view().contains(u) ==> accepted_by_log(
                            self.fetched@,
                            u,
                            sd,
                        ),
                decreases front.len() - i,
            {
                let url = &frontier[i];
                proof {
                    assert(url@ == front[i as int]);
                    front.lemma_index_contains(i as int);
                }
                match self.client.fetch(url.as_str(), &self.options) {
                    Ok(node) => {
                        let links = node.get_links_from_html();
                        let ghost ldv = links.deep_view();
                        let ghost cand0 = candidates.deep_view();
                        proof {
                            assert forall|u: Seq<char>| #[trigger] ldv.contains(u) implies exists|
                                h: Seq<char>,
                            |
                                #[trigger] hrefs_of(node.body@).contains(h) && link_of(
                                    node.url@,
                                    h,
                                    sd,
                                ) == Some(u) by {
                                let h = choose|h: Seq<char>|
                                    #[trigger] hrefs_of(node.body@).contains(h) && link_of(
                                        node.url@,
                                        h,
                                        node.options.same_domain,
                                    ) == Some(u);
                                assert(hrefs_of(node.body@).contains(h) && link_of(
                                    node.url@,
                                    h,
                                    sd,
                                ) == Some(u));
                            }
                        }
                        let mut j: usize = 0;
                        while j < links.len()
                            invariant
                                j <= ldv.len(),
                                ldv == links.deep_view(),
                                front.contains(node.url@),
                                sd == node.options.same_domain,
                                forall|u: Seq<char>|
                                    #[trigger] ldv.contains(u) ==> exists|h: Seq<char>|
                                        #[trigger] hrefs_of(node.body@).contains(h) && link_of(
                                            node.url@,
                                            h,
                                            sd,
                                        ) == Some(u),
                                candidates.deep_view().no_duplicates(),
                                forall|u: Seq<char>|
                                    #[trigger] candidates.deep_view().contains(u)
                                        ==> accepted_from(front, u, sd),
                                forall|u: Seq<char>|
                                    #[trigger] cand0.contains(u) ==> candidates.deep_view().contains(u),
                                forall|u: Seq<char>|
                                    #[trigger] ldv.take(j as int).contains(u)
                                        ==> candidates.deep_view().contains(u),
                                forall|u: Seq<char>|
                                    #[trigger] candidates.deep_view().contains(u) ==> cand0.contains(u)
                                        || ldv.contains(u),
                            decreases ldv.len() - j,
                        {
                            let l = &links[j];
                            let ghost prevc = candidates.deep_view();
                            proof {
                                assert(l@ == ldv[j as int]);
                                ldv.lemma_take_succ_push(j as int);
                                ldv.lemma_index_contains(j as int);
                            }
                            if !vec_contains_str(&candidates, l.as_str()) {
                                candidates.push(l.clone());
                                proof {
                                    assert(candidates.deep_view() =~= prevc.push(l@));
                                    lemma_no_dups_push(prevc, l@);
                                    let h = choose|h: Seq<char>|
                                        #[trigger] hrefs_of(node.body@).contains(h) && link_of(
                                            node.url@,
                                            h,
                                            sd,
                                        ) == Some(l@);
                                    assert(front.contains(node.url@) && link_of(node.url@, h, sd)
                                        == Some(l@));
                                    assert(accepted_from(front, l@, sd));
                                    assert forall|u: Seq<char>|
                                        #[trigger] candidates.deep_view().contains(u) implies
                                        accepted_from(front, u, sd) && (cand0.contains(u)
                                            || ldv.contains(u)) by {
                                        if prevc.contains(u) {
                                        } else {
                                            assert(u == l@);
                                        }
                                    }
                                }
                            }
                            proof {
                                assert(candidates.deep_view().contains(l@));
                                assert forall|u: Seq<char>|
                                    #[trigger] ldv.take(j as int + 1).contains(u) implies
                                    candidates.deep_view().contains(u) by {
                                    assert(ldv.take(j as int + 1) == ldv.take(j as int).push(
                                        ldv[j as int],
                                    ));
                                    if ldv.take(j as int).contains(u) {
                                        assert(prevc.contains(u) || candidates.deep_view().contains(u));
                                    } else {
                                        assert(u == l@);
                                    }
                                }
                            }
                            j += 1;
                        }
                        proof {
                            assert(ldv.take(ldv.len() as int) =~= ldv);
                            let vs = vis0 + front + candidates.deep_view();
                            // every accepted link of this body is a candidate
                            assert(links_covered(url@, node.body@, sd, vs)) by {
                                assert forall|h: Seq<char>|
                                    #[trigger] hrefs_of(node.body@).contains(h) implies match
                                    link_of(url@, h, sd) {
                                    Some(u) => vs.contains(u),
                                    None => true,
                                } by {
                                    match link_of(url@, h, sd) {
                                        Some(u) => {
                                            assert(node.url@ == url@);
                                            assert(ldv.contains(u));
                                            assert(candidates.deep_view().contains(u));
                                            lemma_concat_contains(
                                                vis0 + front,
                                                candidates.deep_view(),
                                                u,
                                            );
                                        },
                                        None => {},
                                    }
                                }
                            }
                            // old log entries are covered by the grown candidates
                            assert forall|u: Seq<char>|
                                (vis0 + front + cand0).contains(u) implies vs.contains(u) by {
                                lemma_concat_contains(vis0 + front, cand0, u);
                                lemma_concat_contains(vis0 + front, candidates.deep_view(), u);
                            }
                            lemma_log_covered_mono(self.fetched@, sd, vis0 + front + cand0, vs);
                            let log0 = self.fetched@;
                            let e = (url@, Some(node.body@));
                            lemma_log_step(log0, e, vis0, front, i as int, sd, vs);
                            self.fetched@ = log0.push(e);
                            assert forall|u: Seq<char>|
                                vis0.contains(u) || front.contains(u) implies seeds.contains(u)
                                || accepted_by_log(self.fetched@, u, sd) by {
                                if !seeds.contains(u) {
                                    lemma_accepted_by_log_push(log0, e, u, sd);
                                }
                            }
                            assert forall|u: Seq<char>|
                                #[trigger] candidates.deep_view().contains(u) implies
                                accepted_by_log(self.fetched@, u, sd) by {
                                if cand0.contains(u) {
                                    lemma_accepted_by_log_push(log0, e, u, sd);
                                } else {
                                    assert(ldv.contains(u));
                                    let h = choose|h: Seq<char>|
                                        #[trigger] hrefs_of(node.body@).contains(h) && link_of(
                                            node.url@,
                                            h,
                                            sd,
                                        ) == Some(u);
                                    let n = log0.len() as int;
                                    assert(self.fetched@[n] == e);
                                    assert(self.fetched@[n].1 is Some && hrefs_of(
                                        self.fetched@[n].1.unwrap(),
                                    ).contains(h) && link_of(self.fetched@[n].0, h, sd) == Some(
                                        u,
                                    ));
                                    assert(accepted_by_log(self.fetched@, u, sd));
                                }
                            }
                        }
                    },
                    Err(e) => {
                        proof {
                            let log0 = self.fetched@;
                            let entry = (url@, None::<Seq<char>>);
                            lemma_log_step(
                                log0,
                                entry,
                                vis0,
                                front,
                                i as int,
                                sd,
                                vis0 + front + candidates.deep_view(),
                            );
                            self.fetched@ = log0.push(entry);
                            assert forall|u: Seq<char>|
                                vis0.contains(u) || front.contains(u) implies seeds.contains(u)
                                || accepted_by_log(self.fetched@, u, sd) by {
                                if !seeds.contains(u) {
                                    lemma_accepted_by_log_push(log0, entry, u, sd);
                                }
                            }
                            assert forall|u: Seq<char>|
                                #[trigger] candidates.deep_view().contains(u) implies
                                accepted_by_log(self.fetched@, u, sd) by {
                                lemma_accepted_by_log_push(log0, entry, u, sd);
                            }
                        }
                        if is_first {
                            proof {
                                assert(seeds.contains(url@));
                                assert forall|u: Seq<char>|
                                    #[trigger] fetched_urls(self.fetched@).contains(u) implies
                                    seeds.contains(u) by {
                                    if front.take(i as int + 1).contains(u) {
                                        let j = choose|j: int|
                                            0 <= j < i + 1 && #[trigger] front.take(
                                                i as int + 1,
                                            )[j] == u;
                                        assert(front[j] == u);
                                        assert(front.contains(u));
                                    }
                                }
                            }
                            return Err(e);
                        }
                    },
                }
                i += 1;
            }
            proof {
                assert(front.take(front.len() as int) =~= front);
            }

            // The whole frontier is now visited.
            let flen = frontier.len();
            let mut k: usize = 0;
            while k < frontier.len()
                invariant
                    k <= front.len(),
                    front == frontier.deep_view(),
                    flen == front.len(),
                    self.options == old(self).options,
                    self.client == old(self).client,
                    sd == self.options.same_domain,
                    self.stats == stats0,
                    stats0.started_at is Some,
                    stats0.finished_at is None,
                    stats0.total_visited == vis0.len(),
                    fetched_urls(self.fetched@).no_duplicates(),
                    forall|u: Seq<char>|
                        fetched_urls(self.fetched@).contains(u) <==> vis0.contains(u)
                            || front.contains(u),
                    log_covered(self.fetched@, sd, vis0 + front + candidates.deep_view()),
                    forall|u: Seq<char>|
                        vis0.contains(u) || front.contains(u) ==> seeds.contains(u)
                            || accepted_by_log(self.fetched@, u, sd),
                    forall|u: Seq<char>|
                        #[trigger] candidates.deep_view().contains(u) ==> accepted_by_log(
                            self.fetched@,
                            u,
                            sd,
                        ),
                    vis0.no_duplicates(),
                    front.no_duplicates(),
                    forall|u: Seq<char>| #[trigger] front.contains(u) ==> !vis0.contains(u),
                    self.visited@.len() == vis0.len() + k,
                    self.visited.deep_view() =~= vis0 + front.take(k as int),
                    self.visited.deep_view().no_duplicates(),
                decreases front.len() - k,
            {
                let ghost prevv = self.visited.deep_view();
                proof {
                    front.lemma_take_succ_push(k as int);
                    front.lemma_index_contains(k as int);
                    assert(!prevv.contains(front[k as int])) by {
                        if prevv.contains(front[k as int]) {
                            let j = choose|j: int|
                                0 <= j < prevv.len() && #[trigger] prevv[j] == front[k as int];
                            if j < vis0.len() {
                                assert(vis0[j] == front[k as int]);
                            } else {
                                assert(front.take(k as int)[j - vis0.len()] == front[k as int]);
                                assert(front[j - vis0.len()] == front[k as int]);
                            }
                        }
                    }
                    lemma_no_dups_push(prevv, front[k as int]);
                }
                self.visited.push(frontier[k].clone());
                proof {
                    assert(self.visited.deep_view() =~= prevv.push(front[k as int]));
                    assert(self.visited.deep_view() =~= vis0 + front.take(k as int + 1));
                }
                k += 1;
            }
            proof {
                assert(front.take(front.len() as int) =~= front);
                assert(self.visited.deep_view() =~= vis0 + front);
            }

            // Count the round: the whole frontier was visited.
            let ghost vis1 = self.visited.deep_view();
            let newlen = self.visited.len();
            proof {
                assert(newlen == vis1.len());
                assert(vis1.len() == vis0.len() + front.len());
                assert(stats0.total_visited + flen == newlen);
                assert(flen as u64 == flen);
            }
            self.stats.add_visit(Some(flen as u64));

            // The next frontier: the collected links not yet visited.
            let mut next: Vec<String> = Vec::new();
            let mut c: usize = 0;
            while c < candidates.len()
                invariant
                    c <= candidates.deep_view().len(),
                    vis1 == self.visited.deep_view(),
                    next.deep_view().no_duplicates(),
                    forall|u: Seq<char>|
                        #[trigger] next.deep_view().contains(u) ==> candidates.deep_view().contains(
                            u,
                        ) && !vis1.contains(u),
                    forall|u: Seq<char>|
                        #[trigger] candidates.deep_view().take(c as int).contains(u)
                            ==> vis1.contains(u) || next.deep_view().contains(u),
                decreases candidates.deep_view().len() - c,
            {
                let ghost cdv = candidates.deep_view();
                let u = &candidates[c];
                let ghost prevn = next.deep_view();
                proof {
                    assert(u@ == cdv[c as int]);
                    cdv.lemma_take_succ_push(c as int);
                    cdv.lemma_index_contains(c as int);
                }
                if !vec_contains_str(&self.visited, u.as_str()) && !vec_contains_str(
                    &next,
                    u.as_str(),
                ) {
                    next.push(u.clone());
                    proof {
                        assert(next.deep_view() =~= prevn.push(u@));
                        lemma_no_dups_push(prevn, u@);
                        assert forall|w: Seq<char>|
                            #[trigger] next.deep_view().contains(w) implies cdv.contains(w)
                            && !vis1.contains(w) by {
                            if prevn.contains(w) {
                            } else {
                                assert(w == u@);
                            }
                        }
                    }
                }
                proof {
                    assert(vis1.contains(u@) || next.deep_view().contains(u@));
                    assert forall|w: Seq<char>|
                        #[trigger] cdv.take(c as int + 1).contains(w) implies vis1.contains(w)
                        || next.deep_view().contains(w) by {
                        assert(cdv.take(c as int + 1) == cdv.take(c as int).push(cdv[c as int]));
                        if cdv.take(c as int).contains(w) {
                            if prevn.contains(w) {
                                assert(next.deep_view().contains(w));
                            }
                        } else {
                            assert(w == u@);
                        }
                    }
                }
                c += 1;
            }
            proof {
                assert(candidates.deep_view().take(candidates.deep_view().len() as int)
                    =~= candidates.deep_view());
            }

            // Re-establish the round invariants for the grown visited set.
            proof {
                assert forall|u: Seq<char>| #[trigger]
                    vis1.contains(u) implies vis0.contains(u) || front.contains(u) by {
                    let j = choose|j: int| 0 <= j < vis1.len() && #[trigger] vis1[j] == u;
                    if j < vis0.len() {
                        assert(vis0[j] == u);
                    } else {
                        assert(front[j - vis0.len()] == u);
                    }
                }
                assert forall|u: Seq<char>| #[trigger] vis0.contains(u) implies vis1.contains(
                    u,
                ) by {
                    let j = choose|j: int| 0 <= j < vis0.len() && #[trigger] vis0[j] == u;
                    assert(vis1[j] == u);
                }
                assert forall|u: Seq<char>| #[trigger] front.contains(u) implies vis1.contains(
                    u,
                ) by {
                    let j = choose|j: int| 0 <= j < front.len() && #[trigger] front[j] == u;
                    assert(vis1[j + vis0.len()] == u);
                }
                assert forall|u: Seq<char>|
                    fetched_urls(self.fetched@).contains(u) <==> vis1.contains(u) by {
                    if fetched_urls(self.fetched@).contains(u) {
                        assert(vis0.contains(u) || front.contains(u));
                        assert(vis1.contains(u));
                    }
                    if vis1.contains(u) {
                        assert(vis0.contains(u) || front.contains(u));
                    }
                }
                assert forall|u: Seq<char>|
                    vis1.contains(u) || next.deep_view().contains(u) implies seeds.contains(u)
                    || accepted_from(vis1, u, sd) by {
                    if vis1.contains(u) {
                        if !seeds.contains(u) {
                            assert(vis0.contains(u) || front.contains(u));
                            assert(accepted_from(vis0, u, sd));
                            lemma_accepted_mono(vis0, vis1, u, sd);
                        }
                    } else {
                        assert(next.deep_view().contains(u));
                        assert(candidates.deep_view().contains(u));
                        assert(accepted_from(front, u, sd));
                        lemma_accepted_mono(front, vis1, u, sd);
                    }
                }
                assert forall|u: Seq<char>|
                    vis1.contains(u) || next.deep_view().contains(u) implies seeds.contains(u)
                    || accepted_by_log(self.fetched@, u, sd) by {
                    if vis1.contains(u) {
                        if !seeds.contains(u) {
                            assert(vis0.contains(u) || front.contains(u));
                        }
                    } else {
                        assert(next.deep_view().contains(u));
                        assert(candidates.deep_view().contains(u));
                    }
                }
                // the grown visited set and the next frontier cover the log
                assert forall|u: Seq<char>|
                    (vis0 + front + candidates.deep_view()).contains(u) implies (vis1
                        + next.deep_view()).contains(u) by {
                    lemma_concat_contains(vis0 + front, candidates.deep_view(), u);
                    lemma_concat_contains(vis0, front, u);
                    lemma_concat_contains(vis1, next.deep_view(), u);
                    if (vis0 + front).contains(u) {
                        assert(vis0.contains(u) || front.contains(u));
                        assert(vis1.contains(u));
                    } else {
                        assert(candidates.deep_view().contains(u));
                        assert(vis1.contains(u) || next.deep_view().contains(u));
                    }
                }
                lemma_log_covered_mono(
                    self.fetched@,
                    sd,
                    vis0 + front + candidates.deep_view(),
                    vis1 + next.deep_view(),
                );
            }
            frontier = next;
            is_first = false;
        }
        proof {
            // the frontier is empty, so the visited set alone covers the log
            assert(frontier.deep_view().len() == 0);
            assert forall|u: Seq<char>|
                (self.visited.deep_view() + frontier.deep_view()).contains(u) implies
                self.visited.deep_view().contains(u) by {
                lemma_concat_contains(self.visited.deep_view(), frontier.deep_view(), u);
            }
            lemma_log_covered_mono(
                self.fetched@,
                sd,
                self.visited.deep_view() + frontier.deep_view(),
                self.visited.deep_view(),
            );
        }
        self.stats.finish_session();
        let out = clone_string_vec(&self.visited);
        Ok(out)
    }
}

} // verus!
