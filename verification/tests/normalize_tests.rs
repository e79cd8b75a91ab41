use crawlrs::api::OutputFormat;
use crawlrs::cli::Opts;
use crawlrs::node::{normalize, resolve_href, Node};

/// Normalizing an already-canonical absolute URL with a host returns it
/// unchanged.
#[test]
fn test_normalize_canonical_is_unchanged() {
    assert_eq!(
        normalize("https://x.com/a", "https://a.com/page", false),
        Some("https://a.com/page".to_string())
    );
    assert_eq!(
        normalize("https://a.com/start", "https://a.com/page", true),
        Some("https://a.com/page".to_string())
    );
}

/// A cross-domain href is rejected with `same_domain` and accepted unchanged
/// without it.
#[test]
fn test_normalize_same_domain_filter() {
    assert_eq!(normalize("https://a.com/start", "https://b.com/x", true), None);
    assert_eq!(
        normalize("https://a.com/start", "https://b.com/x", false),
        Some("https://b.com/x".to_string())
    );
}

/// A root-relative href resolves against the base's scheme and host, with a
/// trailing slash stripped.
#[test]
fn test_normalize_root_relative_strips_trailing_slash() {
    assert_eq!(
        normalize("https://a.com/start", "/end/", true),
        Some("https://a.com/end".to_string())
    );
    assert_eq!(
        normalize("https://a.com/start", "/end", false),
        Some("https://a.com/end".to_string())
    );
}

/// An href naming a resource extension is rejected regardless of
/// `same_domain`.
#[test]
fn test_normalize_rejects_resource_extensions() {
    assert_eq!(normalize("https://a.com/start", "https://a.com/image.png", true), None);
    assert_eq!(normalize("https://a.com/start", "https://a.com/image.png", false), None);
    assert_eq!(normalize("https://a.com/start", "/app.js", false), None);
    assert_eq!(normalize("https://a.com/start", "https://a.com/doc.pdf", false), None);
}

/// A base URL or href that fails to parse yields rejection, not an error.
#[test]
fn test_normalize_unparseable_urls_are_rejected() {
    assert_eq!(normalize("not a url", "/x", false), None);
    assert_eq!(normalize("https://a.com/", "not a url", false), None);
}

/// An absolute href without a host component is rejected.
#[test]
fn test_normalize_hostless_href_is_rejected() {
    assert_eq!(normalize("https://a.com/", "mailto:someone@a.com", false), None);
    assert_eq!(normalize("https://a.com/", "unix:/run/foo.socket", false), None);
}

/// The resolution step alone, as a method of a fetched page.
#[test]
fn test_node_normalize_url() {
    let node = Node::new(
        "https://a.com/start",
        "<html></html>",
        Opts { urls: vec![], same_domain: true, stats: false, json: false },
    );
    assert_eq!(node.normalize_url("/end/"), Some("https://a.com/end".to_string()));
    assert_eq!(node.normalize_url("https://b.com/x"), Some("https://b.com/x".to_string()));
    assert_eq!(node.normalize_url("no-host"), None);
}

/// The free resolution helper agrees with the method.
#[test]
fn test_resolve_href_direct() {
    assert_eq!(
        resolve_href("https://a.com/start", "/end/"),
        Some("https://a.com/end".to_string())
    );
    assert_eq!(resolve_href("nonsense", "/end/"), None);
}

#[test]
fn test_output_format_parse() {
    assert_eq!(OutputFormat::parse("json"), Ok(OutputFormat::Json));
    assert_eq!(OutputFormat::parse("text"), Ok(OutputFormat::Text));
    assert_eq!(OutputFormat::parse("yaml"), Ok(OutputFormat::Yaml));
    assert_eq!(
        OutputFormat::parse("bogus"),
        Err("Unknown output format: bogus".to_string())
    );
}
