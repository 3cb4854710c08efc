use luat::collections::StrMap;
use luat::request::LuatRequest;

fn map_of(pairs: &[(&str, &str)]) -> StrMap {
    StrMap::from_pairs(pairs.iter().map(|(k, v)| (k.to_string(), v.to_string())).collect())
}

#[test]
fn test_new_request() {
    let req = LuatRequest::new("/blog/hello", "GET");
    assert_eq!(req.path, "/blog/hello");
    assert_eq!(req.method, "GET");
}

#[test]
fn test_with_query() {
    let req = LuatRequest::new("/search", "GET").with_query(map_of(&[("q", "rust")]));
    assert_eq!(req.query.get("q"), Some(&"rust".to_string()));
}

#[test]
fn test_body_str() {
    let req = LuatRequest::new("/api", "POST").with_body(b"hello world".to_vec());
    assert_eq!(req.body_str(), Some("hello world"));
}

#[test]
fn test_body_json() {
    let req = LuatRequest::new("/api", "POST").with_body(br#"{"name": "test"}"#.to_vec());
    let json = req.body_json().unwrap();
    assert_eq!(json["name"], "test");
}

#[test]
fn test_action_name() {
    let req = LuatRequest::new("/auth", "POST").with_query(map_of(&[("/login", "")]));
    assert_eq!(req.action_name(), Some("login"));
}

#[test]
fn test_is_form_submission() {
    let req = LuatRequest::new("/form", "POST")
        .with_headers(map_of(&[("content-type", "application/x-www-form-urlencoded")]));
    assert!(req.is_form_submission());
}
