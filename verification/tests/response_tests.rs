use luat::actions::ActionContext;
use luat::collections::StrMap;
use luat::response::{ActionResponse, LuatResponse};

fn map_of(pairs: &[(&str, &str)]) -> StrMap {
    StrMap::from_pairs(pairs.iter().map(|(k, v)| (k.to_string(), v.to_string())).collect())
}

fn json_object(pairs: &[(&str, serde_json::Value)]) -> serde_json::Value {
    let mut m = serde_json::Map::new();
    for (k, v) in pairs {
        m.insert(k.to_string(), v.clone());
    }
    serde_json::Value::Object(m)
}

#[test]
fn test_new_context() {
    let ctx = ActionContext::new("POST", "/blog/hello/edit");
    assert_eq!(ctx.method, "POST");
    assert_eq!(ctx.url, "/blog/hello/edit");
    assert!(ctx.action_name.is_none());
}

#[test]
fn test_method_case_normalization() {
    let ctx = ActionContext::new("post", "/test");
    assert_eq!(ctx.method, "POST");
}

#[test]
fn test_with_action() {
    let ctx = ActionContext::new("POST", "/test").with_action(Some("login".to_string()));
    assert_eq!(ctx.action_name, Some("login".to_string()));
    assert_eq!(ctx.effective_action_name(), "login");
}

#[test]
fn test_effective_action_name_default() {
    let ctx = ActionContext::new("POST", "/test");
    assert_eq!(ctx.effective_action_name(), "default");
}

#[test]
fn test_builder_pattern() {
    let ctx = ActionContext::new("PUT", "/api/users/123")
        .with_params(map_of(&[("id", "123")]))
        .with_body(json_object(&[("name", serde_json::Value::String("John".to_string()))]))
        .with_headers(map_of(&[("Content-Type", "application/json")]));

    assert_eq!(ctx.params.get("id"), Some(&"123".to_string()));
    assert_eq!(ctx.body["name"], "John");
    assert_eq!(ctx.headers.get("Content-Type"), Some(&"application/json".to_string()));
}

#[test]
fn test_ok_response() {
    let response = ActionResponse::ok(json_object(&[("success", serde_json::Value::Bool(true))]));
    assert_eq!(response.status, 200);
    assert!(response.is_success());
    assert!(!response.is_error());
}

#[test]
fn test_fail_response() {
    let response = ActionResponse::fail(400, json_object(&[("error", serde_json::Value::String("Bad request".to_string()))]));
    assert_eq!(response.status, 400);
    assert!(response.is_error());
    assert!(!response.is_success());
}

#[test]
fn response_test_redirect() {
    let response = ActionResponse::redirect("/home");
    assert_eq!(response.status, 302);
    assert!(response.is_redirect());
    assert_eq!(response.headers.get("Location"), Some(&"/home".to_string()));
}

#[test]
fn test_htmx_redirect() {
    let response = ActionResponse::htmx_redirect("/dashboard");
    assert_eq!(response.status, 200);
    assert_eq!(response.headers.get("HX-Redirect"), Some(&"/dashboard".to_string()));
}

#[test]
fn test_with_headers() {
    let response = ActionResponse::ok(json_object(&[]))
        .with_header("HX-Trigger", "showMessage")
        .with_header("HX-Retarget", "#messages");

    assert_eq!(response.headers.get("HX-Trigger"), Some(&"showMessage".to_string()));
    assert_eq!(response.headers.get("HX-Retarget"), Some(&"#messages".to_string()));
}

#[test]
fn test_html_response() {
    let resp = LuatResponse::html(200, "<h1>Hello</h1>");
    assert_eq!(resp.status(), 200);
    assert!(resp.is_success());

    if let LuatResponse::Html { body, .. } = resp {
        assert_eq!(body, "<h1>Hello</h1>");
    } else {
        panic!("Expected Html variant");
    }
}

#[test]
fn test_json_response() {
    let resp = LuatResponse::json(200, json_object(&[("success", serde_json::Value::Bool(true))]));
    assert_eq!(resp.status(), 200);

    if let LuatResponse::Json { body, .. } = resp {
        assert_eq!(body["success"], true);
    } else {
        panic!("Expected Json variant");
    }
}

#[test]
fn test_redirect() {
    let resp = LuatResponse::redirect("/login");
    assert_eq!(resp.status(), 302);
    assert!(resp.is_redirect());

    if let LuatResponse::Redirect { location, .. } = resp {
        assert_eq!(location, "/login");
    } else {
        panic!("Expected Redirect variant");
    }
}

#[test]
fn test_error() {
    let resp = LuatResponse::not_found("Page not found");
    assert_eq!(resp.status(), 404);
    assert!(resp.is_error());
}

#[test]
fn test_with_header() {
    let resp = LuatResponse::html(200, "test").with_header("X-Custom", "value");

    if let LuatResponse::Html { headers, .. } = resp {
        assert_eq!(headers.get("X-Custom"), Some(&"value".to_string()));
    } else {
        panic!("Expected Html variant");
    }
}

#[test]
fn response_headers_merge_and_redirects_ignore_headers() {
    let response = ActionResponse::ok(serde_json::Value::Null)
        .with_header("A", "1")
        .with_headers(map_of(&[("A", "2"), ("B", "3")]))
        .with_status(201);
    assert_eq!(response.status, 201);
    assert_eq!(response.headers.get("A"), Some(&"2".to_string()));
    assert_eq!(response.headers.get("B"), Some(&"3".to_string()));
    let r = LuatResponse::redirect_with_status(307, "/x").with_header("A", "1");
    assert_eq!(r.status(), 307);
    assert!(!r.is_error() && r.is_redirect() && !r.is_success());
    assert_eq!(LuatResponse::internal_error("x").status(), 500);
    assert_eq!(LuatResponse::bad_request("x").status(), 400);
    assert_eq!(LuatResponse::default().status(), 200);
}
