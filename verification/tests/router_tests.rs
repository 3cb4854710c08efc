use luat::router::{path_to_pattern, Router, SegmentType};

#[test]
fn test_segment_parse() {
    assert_eq!(SegmentType::parse("blog"), SegmentType::Static("blog".to_string()));
    assert_eq!(SegmentType::parse("[slug]"), SegmentType::Dynamic("slug".to_string()));
    assert_eq!(SegmentType::parse("[[tab]]"), SegmentType::Optional("tab".to_string()));
    assert_eq!(SegmentType::parse("[...rest]"), SegmentType::CatchAll("rest".to_string()));
}

#[test]
fn test_path_to_pattern() {
    assert_eq!(path_to_pattern(""), "/");
    assert_eq!(path_to_pattern("about"), "/about");
    assert_eq!(path_to_pattern("blog/[slug]"), "/blog/{slug}");
    assert_eq!(path_to_pattern("docs/[...rest]"), "/docs/{*rest}");
}

#[test]
fn test_router_from_paths() {
    let paths = vec![
        "+page.luat",
        "+layout.luat",
        "about/+page.luat",
        "blog/+page.luat",
        "blog/+layout.luat",
        "blog/[slug]/+page.luat",
        "blog/[slug]/+page.server.lua",
        "api/posts/+server.lua",
    ];

    let router = Router::from_paths(paths);
    let routes = router.routes();

    assert!(routes.len() >= 4, "Expected at least 4 routes");

    let patterns: Vec<&str> = routes.iter().map(|r| r.pattern.as_str()).collect();
    assert!(patterns.contains(&"/"), "Missing root route");
    assert!(patterns.contains(&"/about"), "Missing /about route");
    assert!(patterns.contains(&"/blog"), "Missing /blog route");
    assert!(patterns.contains(&"/blog/{slug}"), "Missing /blog/{{slug}} route");
    assert!(patterns.contains(&"/api/posts"), "Missing /api/posts route");
}

#[test]
fn test_url_matching() {
    let paths = vec!["+page.luat", "about/+page.luat", "blog/[slug]/+page.luat"];

    let router = Router::from_paths(paths);

    let root = router.match_url("/").unwrap();
    assert_eq!(root.pattern, "/");

    let about = router.match_url("/about").unwrap();
    assert_eq!(about.pattern, "/about");

    let post = router.match_url("/blog/hello-world").unwrap();
    assert_eq!(post.pattern, "/blog/{slug}");
    assert_eq!(post.params.get("slug"), Some(&"hello-world".to_string()));
}

#[test]
fn test_layout_chain() {
    let paths = vec![
        "+page.luat",
        "+layout.luat",
        "blog/+page.luat",
        "blog/+layout.luat",
        "blog/[slug]/+page.luat",
    ];

    let router = Router::from_paths(paths);
    let post = router.match_url("/blog/hello").unwrap();

    assert_eq!(post.layouts.len(), 2);
    assert!(post.layouts[0].contains("+layout.luat"));
    assert!(post.layouts[1].contains("blog/+layout.luat"));
}

#[test]
fn test_api_route() {
    let paths = vec!["api/posts/+server.lua"];

    let router = Router::from_paths(paths);
    let api = router.match_url("/api/posts").unwrap();

    assert!(api.is_api_route());
    assert!(!api.is_page_route());
    assert!(api.api.is_some());
}
