//! The result of a crawl as handed to the caller: the seeds, the visited
//! URLs in lexicographic order, and an optional statistics snapshot.

use vstd::prelude::*;

use crate::session_stats::SessionStats;
use crate::strutil::{lex_le, lemma_lex_total_from, lemma_lex_trans_from, str_lex_le};

verus! {

broadcast use vstd::seq_lib::lemma_seq_contains_after_push;

/// The output payload of one crawl run.
pub struct CrawlOutput {
    pub seeds: Vec<String>,
    /// All visited URLs, lexicographically sorted.
    pub links: Vec<String>,
    pub stats: Option<SessionStats>,
    /// The run's fetch log: each URL handed to the fetch capability and, on
    /// success, the body that came back.
    pub fetched: Ghost<Seq<(Seq<char>, Option<Seq<char>>)>>,
}

/// Every pair of positions is in lexicographic order.
pub open spec fn sorted_lex(s: Seq<Seq<char>>) -> bool {
    forall|i: int, j: int| 0 <= i <= j < s.len() ==> lex_le(s[i], s[j])
}

/// The first position of `r` whose entry `x` precedes (all entries before it
/// precede `x`).
fn insert_pos(r: &Vec<String>, x: &str) -> (p: usize)
    ensures
        p <= r.deep_view().len(),
        forall|k: int| 0 <= k < p ==> lex_le(#[trigger] r.deep_view()[k], x@),
        p < r.deep_view().len() ==> lex_le(x@, r.deep_view()[p as int]),
{
    let mut p: usize = 0;
    while p < r.len()
        invariant
            p <= r.deep_view().len(),
            forall|k: int| 0 <= k < p ==> lex_le(#[trigger] r.deep_view()[k], x@),
        decreases r.deep_view().len() - p,
    {
        if !str_lex_le(r[p].as_str(), x) {
            proof {
                lemma_lex_total_from(r.deep_view()[p as int], x@, 0);
            }
            return p;
        }
        p += 1;
    }
    p
}

/// The strings of `v` in lexicographic order: same members, same length, and
/// sorted (insertion sort).
pub fn sort_strings(v: &Vec<String>) -> (r: Vec<String>)
    ensures
        sorted_lex(r.deep_view()),
        r.deep_view().len() == v.deep_view().len(),
        forall|u: Seq<char>| r.deep_view().contains(u) <==> v.deep_view().contains(u),
        v.deep_view().no_duplicates() ==> r.deep_view().no_duplicates(),
{
    let ghost s = v.deep_view();
    let mut r: Vec<String> = Vec::new();
    let mut i: usize = 0;
    while i < v.len()
        invariant
            i <= s.len(),
            s == v.deep_view(),
            r.deep_view().len() == i,
            sorted_lex(r.deep_view()),
            forall|u: Seq<char>| r.deep_view().contains(u) <==> s.take(i as int).contains(u),
            s.no_duplicates() ==> r.deep_view().no_duplicates(),
        decreases s.len() - i,
    {
        let x = v[i].clone();
        proof {
            assert(x@ == s[i as int]);
            s.lemma_take_succ_push(i as int);
            s.lemma_index_contains(i as int);
        }
        let ghost prev = r.deep_view();

        // insert x at the first position whose entry it precedes
        let p = insert_pos(&r, x.as_str());
        r.insert(p, x);
        proof {
            let cur = r.deep_view();
            assert(cur.len() == prev.len() + 1);
            assert forall|k: int| 0 <= k < cur.len() implies (if k < p {
                cur[k] == prev[k]
            } else if k == p {
                cur[k] == x@
            } else {
                cur[k] == prev[k - 1]
            }) by {}
            // sortedness of the extended sequence
            assert forall|a: int, b: int| 0 <= a <= b < cur.len() implies lex_le(
                cur[a],
                cur[b],
            ) by {
                if a == b {
                    lemma_lex_total_from(cur[a], cur[a], 0);
                } else if b < p {
                    assert(lex_le(prev[a], prev[b]));
                } else if a > p {
                    assert(lex_le(prev[a - 1], prev[b - 1]));
                } else if a < p && b == p {
                    assert(lex_le(prev[a], x@));
                } else if a == p && b > p {
                    // x precedes r[p], which precedes everything after it
                    assert(lex_le(x@, prev[p as int]));
                    if b == p + 1 {
                        assert(lex_le(prev[p as int], prev[b - 1]));
                    }
                    assert(lex_le(prev[p as int], prev[b - 1]));
                    lemma_lex_trans_from(x@, prev[p as int], prev[b - 1], 0);
                } else {
                    // a < p < b
                    assert(lex_le(prev[a], x@));
                    assert(lex_le(x@, prev[p as int]));
                    assert(lex_le(prev[p as int], prev[b - 1]));
                    lemma_lex_trans_from(x@, prev[p as int], prev[b - 1], 0);
                    lemma_lex_trans_from(prev[a], x@, prev[b - 1], 0);
                }
            }
            // membership
            assert forall|u: Seq<char>| cur.contains(u) <==> prev.contains(u) || u == x@ by {
                if cur.contains(u) {
                    let k = choose|k: int| 0 <= k < cur.len() && #[trigger] cur[k] == u;
                    if k < p {
                        assert(prev[k] == u);
                    } else if k > p {
                        assert(prev[k - 1] == u);
                    }
                }
                if prev.contains(u) {
                    let k = choose|k: int| 0 <= k < prev.len() && #[trigger] prev[k] == u;
                    if k < p {
                        assert(cur[k] == u);
                    } else {
                        assert(cur[k + 1] == u);
                    }
                }
                if u == x@ {
                    assert(cur[p as int] == u);
                }
            }
            // duplicate-freedom
            if s.no_duplicates() {
                assert(!prev.contains(x@)) by {
                    if prev.contains(x@) {
                        assert(s.take(i as int).contains(x@));
                        let k = choose|k: int|
                            0 <= k < i && #[trigger] s.take(i as int)[k] == x@;
                        assert(s[k] == s[i as int]);
                    }
                }
                assert forall|a: int, b: int| 0 <= a < b < cur.len() implies cur[a] != cur[b] by {
                    if a != p && b != p {
                        let a0: int = if a < p {
                            a
                        } else {
                            a - 1
                        };
                        let b0: int = if b < p {
                            b
                        } else {
                            b - 1
                        };
                        assert(cur[a] == prev[a0] && cur[b] == prev[b0]);
                        assert(a0 < b0);
                    } else if a == p {
                        assert(cur[b] == prev[b - 1]);
                        assert(prev.contains(prev[b - 1]));
                    } else {
                        assert(cur[a] == prev[a]);
                        assert(prev.contains(prev[a]));
                    }
                }
            }
        }
        i += 1;
    }
    proof {
        assert(s.take(s.len() as int) =~= s);
    }
    r
}

} // verus!
