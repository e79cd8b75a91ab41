//! A fetched page and the URL normalizer/filter that turns its raw hrefs into
//! canonical absolute URLs.
//!
//! The normalizer works in three steps, any failure rejecting the link:
//! when `same_domain` is set, only root-relative hrefs and hrefs containing
//! the base URL's domain pass; hrefs containing a resource-file extension are
//! dropped; the rest resolve to an absolute URL with a host, root-relative
//! ones against the base URL's scheme and host with a trailing slash
//! stripped.

use vstd::prelude::*;

use crate::cli::Opts;
use crate::strutil::{
    contains_at, contains_seq, ends_with_slash, starts_with_slash, str_contains, str_ends_with_slash,
    str_starts_with_slash, lemma_no_dups_push, vec_contains_str,
};
use crate::urls::{parse_url_parts, url_parse, UrlParts};
use select::document::Document;
use select::predicate::{Name, Predicate};

verus! {

broadcast use vstd::seq_lib::lemma_seq_contains_after_push;

/// The hrefs that HTML parsing finds on `a` and `link` elements of a page
/// body, in document order.
pub uninterp spec fn hrefs_of(body: Seq<char>) -> Seq<Seq<char>>;

/// Relies on `select::document::Document`'s HTML parsing and its `find`
/// iterator over `a` and `link` elements: the extracted `href` attributes are
/// a function of the HTML text alone.
#[verifier::external_body]
fn extract_hrefs(body: &str) -> (r: Vec<String>)
    ensures
        r.deep_view() == hrefs_of(body@),
{
    Document::from(body)
        .find(Name("a").or(Name("link")))
        .filter_map(|n| n.attr("href"))
        .map(|href| href.to_string())
        .collect()
}

/// The domain filter: a root-relative href always passes; any other href
/// passes only when the base URL parses with a domain that occurs in the href.
pub open spec fn same_domain_ok(base: Seq<char>, href: Seq<char>) -> bool {
    starts_with_slash(href) || (match url_parse(base) {
        Some(p) => match p.domain {
            Some(d) => contains_seq(href, d),
            None => false,
        },
        None => false,
    })
}

/// An href naming one of the fixed resource-file extensions (substring
/// match, as the inherited behaviour has it).
pub open spec fn has_resource_ext(href: Seq<char>) -> bool {
    ||| contains_seq(href, ".png"@)
    ||| contains_seq(href, ".jpg"@)
    ||| contains_seq(href, ".jpeg"@)
    ||| contains_seq(href, ".gif"@)
    ||| contains_seq(href, ".svg"@)
    ||| contains_seq(href, ".ico"@)
    ||| contains_seq(href, ".pdf"@)
    ||| contains_seq(href, ".css"@)
    ||| contains_seq(href, ".js"@)
}

pub open spec fn strip_trailing_slash(s: Seq<char>) -> Seq<char> {
    if ends_with_slash(s) {
        s.drop_last()
    } else {
        s
    }
}

/// The absolute canonical form of an href: a root-relative href becomes
/// `scheme://host` of the base plus the href, with a trailing slash stripped;
/// any other href is accepted unchanged exactly when it parses with a host.
pub open spec fn resolve_of(base: Seq<char>, href: Seq<char>) -> Option<Seq<char>> {
    if starts_with_slash(href) {
        match url_parse(base) {
            Some(p) => match p.host {
                Some(host) => Some(strip_trailing_slash(p.scheme + "://"@ + host + href)),
                None => None,
            },
            None => None,
        }
    } else {
        match url_parse(href) {
            Some(p) => if p.host is Some {
                Some(href)
            } else {
                None
            },
            None => None,
        }
    }
}

/// The whole normalizer/filter pipeline: domain filter, resource-extension
/// filter, then resolution to a canonical absolute URL.
pub open spec fn link_of(base: Seq<char>, href: Seq<char>, same_domain: bool) -> Option<
    Seq<char>,
> {
    if same_domain && !same_domain_ok(base, href) {
        None
    } else if has_resource_ext(href) {
        None
    } else {
        resolve_of(base, href)
    }
}

fn same_domain_check(base: &str, href: &str) -> (r: bool)
    ensures
        r == same_domain_ok(base@, href@),
{
    if str_starts_with_slash(href) {
        return true;
    }
    match parse_url_parts(base) {
        Some(p) => match p.domain {
            Some(d) => str_contains(href, d.as_str()),
            None => false,
        },
        None => false,
    }
}

fn has_resource_ext_exec(href: &str) -> (r: bool)
    ensures
        r == has_resource_ext(href@),
{
    str_contains(href, ".png") || str_contains(href, ".jpg") || str_contains(href, ".jpeg")
        || str_contains(href, ".gif") || str_contains(href, ".svg") || str_contains(href, ".ico")
        || str_contains(href, ".pdf") || str_contains(href, ".css") || str_contains(href, ".js")
}

/// The canonical URL built from a scheme, a host and a nonempty path
/// contains the host as a substring, also after a trailing slash is
/// stripped.
proof fn lemma_built_contains_host(scheme: Seq<char>, host: Seq<char>, path: Seq<char>)
    requires
        path.len() >= 1,
    ensures
        contains_seq(strip_trailing_slash(scheme + "://"@ + host + path), host),
{
    reveal_strlit("://");
    assert("://"@.len() == 3);
    let s = scheme + "://"@ + host + path;
    let t = strip_trailing_slash(s);
    let i = scheme.len() as int + 3;
    assert(s.len() == scheme.len() + 3 + host.len() + path.len());
    assert(t.len() >= s.len() - 1);
    assert forall|k: int| 0 <= k < host.len() implies t[i + k] == host[k] by {
        assert(s[i + k] == host[k]);
        assert(i + k < s.len() - 1);
    }
    assert(t.subrange(i, i + host.len() as int) =~= host);
    assert(contains_at(t, host, i));
}

/// Resolve an href to its absolute canonical form against a base URL.
pub fn resolve_href(base: &str, href: &str) -> (r: Option<String>)
    ensures
        match r {
            Some(s) => resolve_of(base@, href@) == Some(s@),
            None => resolve_of(base@, href@) is None,
        },
        starts_with_slash(href@) ==> (url_parse(base@) matches Some(p) ==> (p.domain matches Some(
            d,
        ) ==> (r matches Some(s) ==> contains_seq(s@, d)))),
{
    if str_starts_with_slash(href) {
        match parse_url_parts(base) {
            Some(p) => {
                let ghost pv = p@;
                let UrlParts { scheme, host, domain: _ } = p;
                match host {
                    Some(h) => {
                        proof {
                            // a domain, when present, is the host itself
                            match pv.domain {
                                Some(d) => {
                                    assert(h@ == d);
                                },
                                None => {},
                            }
                            lemma_built_contains_host(scheme@, h@, href@);
                        }
                        let mut s = scheme;
                        s.append("://");
                        s.append(h.as_str());
                        s.append(href);
                        if str_ends_with_slash(s.as_str()) {
                            let n = s.as_str().unicode_len();
                            let t = s.as_str().substring_char(0, n - 1).to_owned();
                            proof {
                                assert(t@ =~= strip_trailing_slash(s@));
                            }
                            Some(t)
                        } else {
                            proof {
                                assert(s@ == strip_trailing_slash(s@));
                            }
                            Some(s)
                        }
                    },
                    None => None,
                }
            },
            None => None,
        }
    } else {
        match parse_url_parts(href) {
            Some(p) => if p.host.is_some() {
                Some(href.to_owned())
            } else {
                None
            },
            None => None,
        }
    }
}

/// The URL normalizer/filter: canonicalize `href` against `base`, rejecting
/// cross-domain links when `same_domain` is set, resource-file links, and
/// anything that does not resolve to an absolute URL with a host.
pub fn normalize(base: &str, href: &str, same_domain: bool) -> (r: Option<String>)
    ensures
        match r {
            Some(s) => link_of(base@, href@, same_domain) == Some(s@),
            None => link_of(base@, href@, same_domain) is None,
        },
        same_domain ==> (url_parse(base@) matches Some(p) ==> (p.domain matches Some(d) ==> (
        r matches Some(s) ==> contains_seq(s@, d)))),
{
    if same_domain && !same_domain_check(base, href) {
        return None;
    }
    if has_resource_ext_exec(href) {
        return None;
    }
    let r = resolve_href(base, href);
    proof {
        // with the domain filter passed, an accepted link contains the
        // base's domain: a root-relative href through the built host, any
        // other href as the substring the filter found
        if same_domain && r is Some && !starts_with_slash(href@) {
            match url_parse(base@) {
                Some(p) => {
                    match p.domain {
                        Some(d) => {
                            assert(contains_seq(href@, d));
                            assert(r.unwrap()@ == href@);
                        },
                        None => {},
                    }
                },
                None => {},
            }
        }
    }
    r
}

/// One step of accumulating accepted links: extending the processed prefix of
/// the hrefs by one element, and the output by that element's accepted link
/// when it is new, keeps output membership equal to "accepted from the
/// prefix".
proof fn lemma_accepted_step(
    prev: Seq<Seq<char>>,
    cur: Seq<Seq<char>>,
    hseq: Seq<Seq<char>>,
    i: int,
    base: Seq<char>,
    sd: bool,
)
    requires
        0 <= i < hseq.len(),
        forall|u: Seq<char>|
            prev.contains(u) <==> exists|h: Seq<char>|
                #[trigger] hseq.take(i).contains(h) && link_of(base, h, sd) == Some(u),
        match link_of(base, hseq[i], sd) {
            Some(x) => (prev.contains(x) && cur == prev) || (!prev.contains(x) && cur == prev.push(
                x,
            )),
            None => cur == prev,
        },
    ensures
        forall|u: Seq<char>|
            cur.contains(u) <==> exists|h: Seq<char>|
                #[trigger] hseq.take(i + 1).contains(h) && link_of(base, h, sd) == Some(u),
{
    let lopt = link_of(base, hseq[i], sd);
    assert(hseq.take(i + 1)[i] == hseq[i]);
    assert(hseq.take(i + 1).contains(hseq[i]));
    assert forall|h: Seq<char>| #[trigger] hseq.take(i + 1).contains(h) implies hseq.take(
        i,
    ).contains(h) || h == hseq[i] by {
        let j = choose|j: int| 0 <= j < i + 1 && #[trigger] hseq.take(i + 1)[j] == h;
        if j < i {
            assert(hseq.take(i)[j] == h);
        }
    }
    assert forall|h: Seq<char>| #[trigger] hseq.take(i).contains(h) implies hseq.take(
        i + 1,
    ).contains(h) by {
        let j = choose|j: int| 0 <= j < i && #[trigger] hseq.take(i)[j] == h;
        assert(hseq.take(i + 1)[j] == h);
    }
    assert forall|u: Seq<char>| #[trigger] prev.contains(u) implies cur.contains(u) by {
        if cur != prev {
            let x = choose|x: Seq<char>| !prev.contains(x) && cur == prev.push(x);
            let j = choose|j: int| 0 <= j < prev.len() && #[trigger] prev[j] == u;
            assert(cur[j] == u);
        }
    }
    assert forall|u: Seq<char>| #[trigger] cur.contains(u) implies prev.contains(u) || lopt == Some(
        u,
    ) by {
        if cur != prev {
            let x = choose|x: Seq<char>| !prev.contains(x) && cur == prev.push(x);
            let j = choose|j: int| 0 <= j < cur.len() && #[trigger] cur[j] == u;
            if j < prev.len() {
                assert(prev[j] == u);
            } else {
                assert(u == x);
            }
        }
    }
    if lopt is Some {
        let x = choose|x: Seq<char>| lopt == Some(x);
        assert(cur.contains(x)) by {
            if !prev.contains(x) {
                assert(cur == prev.push(x));
                assert(cur[prev.len() as int] == x);
            }
        }
    }
    assert forall|u: Seq<char>|
        cur.contains(u) <==> exists|h: Seq<char>|
            #[trigger] hseq.take(i + 1).contains(h) && link_of(base, h, sd) == Some(u) by {
        if cur.contains(u) {
            if prev.contains(u) {
                let h = choose|h: Seq<char>|
                    #[trigger] hseq.take(i).contains(h) && link_of(base, h, sd) == Some(u);
                assert(hseq.take(i + 1).contains(h));
            } else {
                assert(lopt == Some(u));
                assert(hseq.take(i + 1).contains(hseq[i]) && link_of(base, hseq[i], sd) == Some(u));
            }
        }
        if exists|h: Seq<char>|
            #[trigger] hseq.take(i + 1).contains(h) && link_of(base, h, sd) == Some(u) {
            let h = choose|h: Seq<char>|
                #[trigger] hseq.take(i + 1).contains(h) && link_of(base, h, sd) == Some(u);
            if hseq.take(i).contains(h) {
                assert(prev.contains(u));
                assert(cur.contains(u));
            } else {
                assert(h == hseq[i]);
                assert(lopt == Some(u));
                assert(cur.contains(u));
            }
        }
    }
}

/// Normalizing an already-canonical absolute URL returns it unchanged: an
/// href that parses with a host, does not begin with `/`, names no resource
/// extension, and passes the domain filter when that is asked for, comes out
/// of the normalizer exactly as it went in.
pub proof fn lemma_normalize_idempotent(base: Seq<char>, href: Seq<char>, same_domain: bool)
    ensures
        (url_parse(href) matches Some(p) && p.host is Some && !starts_with_slash(href)
            && !has_resource_ext(href) && (same_domain ==> same_domain_ok(base, href))) ==> link_of(
            base,
            href,
            same_domain,
        ) == Some(href),
{
}

/// A link that names a resource extension is rejected, whatever
/// `same_domain` is.
pub proof fn lemma_resource_link_rejected(base: Seq<char>, href: Seq<char>, same_domain: bool)
    requires
        has_resource_ext(href),
    ensures
        link_of(base, href, same_domain) is None,
{
}

/// A fetched page: its URL, its body, and the options of the run.
pub struct Node {
    pub options: Opts,
    pub url: String,
    pub body: String,
}

impl Node {
    pub fn new(url: &str, body: &str, options: Opts) -> (r: Node)
        ensures
            r.url@ == url@,
            r.body@ == body@,
            r.options == options,
    {
        Node { options, url: url.to_owned(), body: body.to_owned() }
    }

    /// The deduplicated canonical URLs of the page's links: exactly the hrefs
    /// of the body that the normalizer/filter accepts against this page's URL.
    pub fn get_links_from_html(&self) -> (r: Vec<String>)
        ensures
            r.deep_view().no_duplicates(),
            forall|u: Seq<char>|
                r.deep_view().contains(u) <==> exists|h: Seq<char>|
                    #[trigger] hrefs_of(self.body@).contains(h) && link_of(
                        self.url@,
                        h,
                        self.options.same_domain,
                    ) == Some(u),
            self.options.same_domain ==> (url_parse(self.url@) matches Some(p) ==> (
            p.domain matches Some(d) ==> (forall|u: Seq<char>|
                #[trigger] r.deep_view().contains(u) ==> contains_seq(u, d)))),
    {
        let hrefs = extract_hrefs(self.body.as_str());
        let ghost hseq = hrefs_of(self.body@);
        let ghost sd = self.options.same_domain;
        let mut out: Vec<String> = Vec::new();
        let mut i: usize = 0;
        while i < hrefs.len()
            invariant
                i <= hseq.len(),
                hrefs.deep_view() == hseq,
                hseq == hrefs_of(self.body@),
                sd == self.options.same_domain,
                out.deep_view().no_duplicates(),
                forall|u: Seq<char>|
                    out.deep_view().contains(u) <==> exists|h: Seq<char>|
                        #[trigger] hseq.take(i as int).contains(h) && link_of(self.url@, h, sd)
                            == Some(u),
                sd ==> (url_parse(self.url@) matches Some(p) ==> (p.domain matches Some(d) ==> (
                forall|u: Seq<char>| #[trigger] out.deep_view().contains(u) ==> contains_seq(
                    u,
                    d,
                )))),
            decreases hseq.len() - i,
        {
            let href = &hrefs[i];
            proof {
                assert(href@ == hseq[i as int]);
            }
            let link = normalize(self.url.as_str(), href.as_str(), self.options.same_domain);
            let ghost prev = out.deep_view();
            match link {
                Some(l) => {
                    if !vec_contains_str(&out, l.as_str()) {
                        let ghost lv = l@;
                        out.push(l);
                        proof {
                            assert(out.deep_view() =~= prev.push(lv));
                            lemma_no_dups_push(prev, lv);
                            if sd {
                                match url_parse(self.url@) {
                                    Some(p) => {
                                        match p.domain {
                                            Some(d) => {
                                                assert(contains_seq(lv, d));
                                                assert forall|u: Seq<char>|
                                                    #[trigger] out.deep_view().contains(u) implies
                                                    contains_seq(u, d) by {
                                                    if prev.contains(u) {
                                                    } else {
                                                        assert(u == lv);
                                                    }
                                                }
                                            },
                                            None => {},
                                        }
                                    },
                                    None => {},
                                }
                            }
                        }
                    }
                },
                None => {},
            }
            proof {
                lemma_accepted_step(prev, out.deep_view(), hseq, i as int, self.url@, sd);
            }
            i += 1;
        }
        proof {
            assert(hseq.take(hseq.len() as int) =~= hseq);
        }
        out
    }

    /// Resolve a raw href against this node's URL: the absolute-URL step of
    /// the normalizer, without the domain and resource filters.
    pub fn normalize_url(&self, url: &str) -> (r: Option<String>)
        ensures
            match r {
                Some(s) => resolve_of(self.url@, url@) == Some(s@),
                None => resolve_of(self.url@, url@) is None,
            },
    {
        resolve_href(self.url.as_str(), url)
    }
}

} // verus!
