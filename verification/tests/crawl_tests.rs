use crawlrs::api::crawl::{crawl, CrawlOpts};
use crawlrs::api::OutputFormat;
use crawlrs::cli::Opts;
use crawlrs::client::FetchProvider;
use crawlrs::crawler::Crawler;
use crawlrs::error::Error;
use crawlrs::node::Node;

fn opts(urls: Vec<String>, same_domain: bool) -> Opts {
    Opts { urls, same_domain, stats: false, json: false }
}

#[test]
fn test_crawl_same_domain_should_pass() {
    struct FakeClient {}
    impl FetchProvider for FakeClient {
        fn fetch(&self, url: &str, opts: &Opts) -> Result<Node, Error> {
            let content = match url.contains("start") {
                false => "<html><head></head><body></body></html>",
                true => "<html><head></head><body><a href=\"https://test1.com/end\">bootles</a></body></html>",
            };
            println!("{}, {}", url, content);
            Ok(Node::new(url, content, opts.clone()))
        }
    }
    let mut session = Crawler::new(
        FakeClient {},
        Opts {
            urls: vec!["https://test1.com/start".to_string()],
            json: false,
            same_domain: true,
            stats: false,
        },
    );
    session.crawl().unwrap();

    assert_eq!(session.visited.len(), 2);
}

#[test]
fn test_crawl_same_domain_should_fail() {
    struct FakeClient {}
    impl FetchProvider for FakeClient {
        fn fetch(&self, url: &str, opts: &Opts) -> Result<Node, Error> {
            let content = match url.contains("start") {
                false => "<html><head></head><body></body></html>",
                true => "<html><head></head><body><a href=\"https://test1.com/end\">bootles</a></body></html>",
            };
            println!("{}, {}", url, content);
            Ok(Node::new(url, content, opts.clone()))
        }
    }
    let mut session = Crawler::new(
        FakeClient {},
        Opts {
            urls: vec!["https://google.com".to_string()],
            json: false,
            same_domain: true,
            stats: false,
        },
    );
    session.crawl().unwrap();

    assert_eq!(session.visited.len(), 1);
}

/// A two-node cycle terminates with both nodes visited, not an infinite loop.
#[test]
fn test_crawl_two_node_cycle_terminates() {
    struct CycleClient {}
    impl FetchProvider for CycleClient {
        fn fetch(&self, url: &str, opts: &Opts) -> Result<Node, Error> {
            let content = if url.ends_with("/a") {
                "<html><body><a href=\"https://c.com/b\">b</a></body></html>"
            } else {
                "<html><body><a href=\"https://c.com/a\">a</a></body></html>"
            };
            Ok(Node::new(url, content, opts.clone()))
        }
    }
    let mut session = Crawler::new(
        CycleClient {},
        opts(vec!["https://c.com/a".to_string()], true),
    );
    let mut visited = session.crawl().unwrap();
    visited.sort();
    assert_eq!(
        visited,
        vec!["https://c.com/a".to_string(), "https://c.com/b".to_string()]
    );
    assert_eq!(session.stats().total_visited, 2);
}

/// A fetch failure on the first round is fatal and nothing is visited.
#[test]
fn test_crawl_first_round_fetch_failure_is_fatal() {
    struct FailClient {}
    impl FetchProvider for FailClient {
        fn fetch(&self, _url: &str, _opts: &Opts) -> Result<Node, Error> {
            Err(Error::TransportError)
        }
    }
    let mut session = Crawler::new(
        FailClient {},
        opts(vec!["https://c.com/a".to_string()], false),
    );
    let r = session.crawl();
    assert_eq!(r, Err(Error::TransportError));
    assert_eq!(session.visited.len(), 0);
    assert_eq!(session.stats().total_visited, 0);
}

/// A fetch failure after the first round contributes no links and the run
/// goes on.
#[test]
fn test_crawl_later_fetch_failure_is_tolerated() {
    struct FlakyClient {}
    impl FetchProvider for FlakyClient {
        fn fetch(&self, url: &str, opts: &Opts) -> Result<Node, Error> {
            if url.ends_with("/a") {
                Ok(Node::new(
                    url,
                    "<html><body><a href=\"https://c.com/b\">b</a></body></html>",
                    opts.clone(),
                ))
            } else {
                Err(Error::StatusError)
            }
        }
    }
    let mut session = Crawler::new(
        FlakyClient {},
        opts(vec!["https://c.com/a".to_string()], true),
    );
    let mut visited = session.crawl().unwrap();
    visited.sort();
    assert_eq!(
        visited,
        vec!["https://c.com/a".to_string(), "https://c.com/b".to_string()]
    );
}

/// Duplicate seeds are fetched and counted once.
#[test]
fn test_crawl_duplicate_seeds_visited_once() {
    struct EmptyClient {}
    impl FetchProvider for EmptyClient {
        fn fetch(&self, url: &str, opts: &Opts) -> Result<Node, Error> {
            Ok(Node::new(url, "<html><body></body></html>", opts.clone()))
        }
    }
    let mut session = Crawler::new(
        EmptyClient {},
        opts(
            vec!["https://c.com/a".to_string(), "https://c.com/a".to_string()],
            false,
        ),
    );
    let visited = session.crawl().unwrap();
    assert_eq!(visited, vec!["https://c.com/a".to_string()]);
    assert_eq!(session.stats().total_visited, 1);
}

/// The crawl subcommand sorts the visited URLs lexicographically and counts
/// them in the statistics snapshot.
#[test]
fn test_api_crawl_output_sorted() {
    struct TreeClient {}
    impl FetchProvider for TreeClient {
        fn fetch(&self, url: &str, opts: &Opts) -> Result<Node, Error> {
            let content = if url.ends_with("/start") {
                "<html><body>\
                 <a href=\"https://t.com/zebra\">z</a>\
                 <a href=\"https://t.com/alpha\">a</a>\
                 </body></html>"
            } else {
                "<html><body></body></html>"
            };
            Ok(Node::new(url, content, opts.clone()))
        }
    }
    let out = crawl(
        TreeClient {},
        CrawlOpts {
            urls: vec!["https://t.com/start".to_string()],
            same_domain: true,
            stats: true,
            output: Some(OutputFormat::Json),
        },
    )
    .unwrap();
    assert_eq!(out.seeds, vec!["https://t.com/start".to_string()]);
    assert_eq!(
        out.links,
        vec![
            "https://t.com/alpha".to_string(),
            "https://t.com/start".to_string(),
            "https://t.com/zebra".to_string(),
        ]
    );
    let st = out.stats.unwrap();
    assert_eq!(st.total_visited, 3);
    assert!(st.started_at.is_some());
    assert!(st.finished_at.is_some());
}

/// Hrefs of both anchor and link elements are extracted and normalized.
#[test]
fn test_get_links_from_html_extracts_and_normalizes() {
    let html = "<html><head><link href=\"/style/\" rel=\"x\"></head>\
                <body><a href=\"https://t.com/y\">y</a></body></html>";
    let node = Node::new(
        "https://t.com/x",
        html,
        opts(vec![], false),
    );
    let mut links = node.get_links_from_html();
    links.sort();
    assert_eq!(
        links,
        vec!["https://t.com/style".to_string(), "https://t.com/y".to_string()]
    );
}

/// An empty seed list ends at once: nothing visited, both timestamps set.
#[test]
fn test_crawl_empty_seeds() {
    struct EmptyClient {}
    impl FetchProvider for EmptyClient {
        fn fetch(&self, url: &str, opts: &Opts) -> Result<Node, Error> {
            Ok(Node::new(url, "<html></html>", opts.clone()))
        }
    }
    let mut session = Crawler::new(EmptyClient {}, opts(vec![], true));
    let visited = session.crawl().unwrap();
    assert!(visited.is_empty());
    assert_eq!(session.stats().total_visited, 0);
    assert!(session.stats().started_at.is_some());
    assert!(session.stats().finished_at.is_some());
}
