use luat::collections::StrMap;
use luat::dispatch::{api_response, build_action_context, build_action_url, handling_for, load_chain, load_redirect, Handling};
use luat::request::LuatRequest;
use luat::response::LuatResponse;
use luat::router::Router;
use luat::body::{boundary, extract_form_field_name, multipart_fields, parse_action_body, parse_structured_body};
use luat::bundler::{bundle_ordered, bundle_sources_with_sourcemap, BUNDLE_HEAD, BUNDLE_LOADER, BUNDLE_TAIL};
use luat::codegen::LuaSourceMap;
use luat::dependencies::{order_sources, topo_sort};
use luat::error::LuatError;
use luat::paths::{path_normalize, path_same, path_starts_with, path_with_extension};
use luat::resolver::{candidate_paths, import_base_dir, is_within_roots, lib_remap, module_target_path, FileSystemResolver};
use luat::runtime::{action_response_of, api_result_of, load_result_of, ApiResult, LoadResult, Returned};
use luat::sourcemap::BundleSourceMap;

#[test]
fn topo_sort_puts_dependencies_first_and_reports_missing_modules() {
    let deps = vec![
        ("app".to_string(), vec!["lib".to_string(), "ui".to_string()]),
        ("ui".to_string(), vec!["lib".to_string()]),
        ("lib".to_string(), vec![]),
    ];
    assert_eq!(topo_sort(&deps).unwrap(), vec!["lib", "ui", "app"]);
    let deps = vec![("a".to_string(), vec!["a".to_string()])];
    match topo_sort(&deps) {
        Err(LuatError::InvalidTemplate(m)) => assert_eq!(m, "Circular dependency detected in template modules"),
        _ => panic!("a self-dependency is a cycle"),
    }
    let deps = vec![("a".to_string(), vec!["elsewhere".to_string()])];
    assert!(topo_sort(&deps).is_err());
}

#[test]
fn order_sources_keeps_last_source_and_detects_cycles() {
    let sources = vec![
        ("a.luat".to_string(), "first".to_string()),
        ("b.lua".to_string(), "require(\"a\")".to_string()),
        ("a.luat".to_string(), "second".to_string()),
    ];
    let ordered = order_sources(sources).unwrap();
    assert_eq!(ordered.len(), 2);
    assert_eq!(ordered[0], ("a.luat".to_string(), "second".to_string()));
    assert_eq!(ordered[1].0, "b.lua");
    let cyclic = vec![
        ("x".to_string(), "require('y')".to_string()),
        ("y".to_string(), "require('x')".to_string()),
    ];
    assert!(order_sources(cyclic).is_err());
}

#[test]
fn lua_errors_get_template_lines() {
    let mut map = LuaSourceMap::new();
    map.record(72, 10);
    let translated = map.translate_error("syntax error: src/routes/blog/new/+page.luat:72: unexpected symbol near '{'");
    assert!(translated.contains(":10:"));
    assert!(!translated.contains(":72:"));
    let empty = LuaSourceMap::new();
    assert_eq!(empty.translate_error("x:5: boom"), "x:5: boom");
}

#[test]
fn bundle_errors_get_module_lines() {
    let mut source_map = BundleSourceMap::new();
    source_map.add_module("src/routes/blog/+page.luat", "src/routes/blog/+page.luat", 100, "line1\nline2\nline3\nline4\nline5");
    let translated = source_map.translate_error("syntax error: luat_bundle:103: unexpected symbol near '{'");
    assert!(translated.contains("src/routes/blog/+page.luat:4:"));
    assert!(!translated.contains("luat_bundle"));
    let unmapped = source_map.translate_error("luat_bundle:5: outside");
    assert_eq!(unmapped, "luat_bundle:5: outside");
}

#[test]
fn paths_follow_std_semantics() {
    assert_eq!(path_with_extension("a/b.txt", "luat"), "a/b.luat");
    assert_eq!(path_with_extension("a/b", "lua"), "a/b.lua");
    assert_eq!(path_with_extension("a/.hidden", "lua"), "a/.hidden.lua");
    assert_eq!(path_with_extension("/", "lua"), "/");
    assert_eq!(path_normalize("/r/./a/../b//c/"), "/r/b/c");
    assert_eq!(path_normalize("../x"), "x");
    assert!(path_starts_with("/r/lib/x", "/r/lib"));
    assert!(!path_starts_with("/r/library", "/r/lib"));
    assert!(path_same("a/b/", "a//b"));
}

#[test]
fn file_system_resolution_steps() {
    assert_eq!(import_base_dir("/root", "", false), "/root");
    assert_eq!(import_base_dir("/root", "pages/home.luat", false), "/root/pages");
    assert_eq!(import_base_dir("/root", "pages", false), "/root/pages");
    assert_eq!(import_base_dir("/root", "pages", true), "/root");
    assert_eq!(module_target_path("/root", "/root/pages", "/abs/x", false, false), "/root/abs/x");
    assert_eq!(module_target_path("/root", "/root/pages", "/abs/x", true, false), "/abs/x");
    assert_eq!(module_target_path("/root", "/root/pages", "./x", false, false), "/root/pages/./x");
    assert_eq!(module_target_path("/root", "/root/pages", "x", false, true), "/root/pages/x");
    assert_eq!(module_target_path("/root", "/root/pages", "x", false, false), "/root/x");
    assert_eq!(lib_remap("/root", "/libs", "/root/pages/../lib/ui/Card"), Some("/libs/ui/Card".to_string()));
    assert_eq!(lib_remap("/root", "/libs", "/root/pages/Card"), None);
    let cands = candidate_paths("/root", &Some("/libs".to_string()), "/root/pages", "ui/Card", "/root/pages/ui/Card");
    assert_eq!(
        cands,
        vec![
            "/root/pages/ui/Card.luat",
            "/root/pages/ui/Card.lua",
            "/root/pages/Card.luat",
            "/root/Card.luat",
            "/root/pages/Card.lua",
            "/root/Card.lua",
            "/libs/ui/Card.luat",
            "/libs/ui/Card.lua",
        ]
    );
    assert!(is_within_roots("/root/a.luat", "/root", &None));
    assert!(is_within_roots("/libs/a.luat", "/root", &Some("/libs".to_string())));
    assert!(!is_within_roots("/etc/passwd", "/root", &Some("/libs".to_string())));
    let resolver = FileSystemResolver::new("/nonexistent-luat-root");
    match resolver.resolve_internal("", "missing") {
        Err(LuatError::ResolutionError(m)) => assert_eq!(m, "Module 'missing' not found from importer ''"),
        _ => panic!("nothing exists there"),
    }
}

#[test]
fn bodies_are_read_by_content_type() {
    let json = parse_action_body(br#"{"a": 1}"#, Some("application/json; charset=utf-8")).unwrap();
    assert_eq!(json["a"], 1);
    let form = parse_action_body(b"name=Jo+Ann&x=%41", Some("application/x-www-form-urlencoded")).unwrap();
    assert_eq!(form["name"], "Jo Ann");
    assert_eq!(form["x"], "A");
    let body = b"--XYZ\r\nContent-Disposition: form-data; name=\"title\"\r\n\r\nHello\r\n--XYZ\r\nContent-Disposition: form-data; name=\"file\"; filename=\"a.txt\"\r\n\r\ndata\r\n--XYZ--\r\n";
    let multi = parse_action_body(body, Some("multipart/form-data; boundary=XYZ")).unwrap();
    assert_eq!(multi["title"], "Hello");
    assert!(multi.get("file").is_none());
    match parse_action_body(body, Some("multipart/form-data")) {
        Err(e) => assert_eq!(e.to_message(), "Invalid multipart data: Missing boundary"),
        Ok(_) => panic!("no boundary"),
    }
    assert!(parse_action_body(b"{", Some("application/json")).is_err());
    assert!(parse_action_body(b"", None).unwrap().is_null());
    assert!(parse_action_body(b"not json", None).unwrap().is_null());
    assert!(parse_structured_body(b"not json", None).is_none());
    assert_eq!(parse_structured_body(b"[1]", None).unwrap()[0], 1);
}

#[test]
fn multipart_pieces() {
    assert_eq!(boundary("multipart/form-data; boundary=\"abc\""), Some("abc".to_string()));
    assert_eq!(boundary("multipart/form-data"), None);
    assert_eq!(extract_form_field_name("X: y\r\nCONTENT-DISPOSITION: form-data; name=\"n\""), Some("n".to_string()));
    assert_eq!(extract_form_field_name("Content-Type: text/plain"), None);
    let fields = multipart_fields("--b\r\nContent-Disposition: form-data; name=\"k\"\r\n\r\nv\r\n\r\n--b--", "b");
    assert_eq!(fields, vec![("k".to_string(), "v".to_string())]);
}

#[test]
fn bundles_have_head_modules_and_tail() {
    let mods = vec![("A".to_string(), "return 1".to_string()), ("B".to_string(), "return 2".to_string())];
    let mut calls = Vec::new();
    let (bundle, map) = bundle_ordered(mods, |i, n| calls.push((i, n)));
    assert!(bundle.starts_with(BUNDLE_HEAD));
    assert!(bundle.contains(BUNDLE_LOADER));
    assert!(bundle.ends_with(BUNDLE_TAIL));
    assert!(bundle.contains("__module_loaders['A'] = function()"));
    assert!(bundle.contains("__source_map['B'] = {"));
    assert_eq!(calls, vec![(0, 2), (1, 2)]);
    let start_a = map.modules.get("A").unwrap().line_offset;
    assert_eq!(start_a, BUNDLE_HEAD.lines().count() + BUNDLE_LOADER.lines().count() + 1);
    assert!(bundle.contains(&format!("-- MODULE: A (line {})", start_a)));
    let compiled = vec![
        ("app.luat".to_string(), "require('lib')".to_string()),
        ("lib.luat".to_string(), "return {}".to_string()),
    ];
    let (bundle, _) = bundle_sources_with_sourcemap(compiled, |_, _| {}).unwrap();
    assert!(bundle.find("-- MODULE: lib.luat").unwrap() < bundle.find("-- MODULE: app.luat").unwrap());
    let cyclic = vec![("x".to_string(), "require('y')".to_string()), ("y".to_string(), "require('x')".to_string())];
    match bundle_sources_with_sourcemap(cyclic, |_, _| {}) {
        Err(LuatError::InvalidTemplate(m)) => assert!(m.starts_with("Failed to order sources by dependency: ")),
        _ => panic!("a cycle cannot be bundled"),
    }
}

#[test]
fn runtime_results() {
    let api = ApiResult::method_not_allowed("PATCH");
    assert_eq!(api.status, 405);
    assert_eq!(api.body["error"], "Method PATCH not allowed");
    let load = LoadResult::default();
    assert!(load.props.as_object().unwrap().is_empty());
    assert!(load.redirect.is_none() && load.status.is_none());
    assert_eq!(ApiResult::default().status, 200);
}

#[test]
fn requests_are_dispatched_by_route_and_method() {

    let router = Router::from_paths(vec!["+layout.server.lua", "blog/+page.luat", "blog/+page.server.lua", "api/+server.lua"]);
    let blog = router.match_url("/blog").unwrap();
    let api = router.match_url("/api").unwrap();
    let get = LuatRequest::new("/blog", "get");
    assert_eq!(handling_for(&blog, &get), Handling::Page);
    assert_eq!(handling_for(&blog, &LuatRequest::new("/blog", "POST")), Handling::Action);
    let named = LuatRequest::new("/blog", "GET")
        .with_query(StrMap::from_pairs(vec![("/save".to_string(), String::new()), ("x".to_string(), "1".to_string())]));
    assert_eq!(handling_for(&blog, &named), Handling::Action);
    assert_eq!(handling_for(&api, &get), Handling::Api);
    assert_eq!(load_chain(&blog), vec!["+layout.server.lua".to_string(), "blog/+page.server.lua".to_string()]);

    assert_eq!(build_action_url(&named), "/blog?/save&x=1");
    assert_eq!(build_action_url(&get), "/blog");
    let ctx = build_action_context(&named, &StrMap::new()).unwrap();
    assert_eq!(ctx.method, "GET");
    assert_eq!(ctx.action_name, Some("save".to_string()));
    assert_eq!(ctx.query.get("x"), Some(&"1".to_string()));
    assert_eq!(ctx.query.get("/save"), None);
    let bad = LuatRequest::new("/blog", "POST")
        .with_headers(StrMap::from_pairs(vec![("Content-Type".to_string(), "application/json".to_string())]))
        .with_body(b"{".to_vec());
    assert!(build_action_context(&bad, &StrMap::new()).unwrap_err().starts_with("Invalid JSON: "));

    let load = luat::runtime::LoadResult { props: serde_json::Value::Null, redirect: Some("/login".to_string()), status: None };
    match load_redirect(&load) {
        Some(LuatResponse::Redirect { status, location }) => {
            assert_eq!(status, 302);
            assert_eq!(location, "/login");
        }
        _ => panic!("a redirect"),
    }
    let mut result = luat::runtime::ApiResult::default();
    result.headers.insert("Location", "/next");
    result.status = 303;
    assert_eq!(api_response(result).status(), 303);
    let plain = api_response(luat::runtime::ApiResult::default());
    assert!(matches!(plain, LuatResponse::Json { status: 200, .. }));
}

#[test]
fn action_templates_are_tried_method_first_and_matched_without_case() {
    let ctx = luat::actions::ActionContext::new("post", "/todos").with_action(Some("delete".to_string()));
    assert_eq!(luat::dispatch::action_template_candidates(&ctx), vec!["POST-delete".to_string(), "delete".to_string()]);
    let plain = luat::actions::ActionContext::new("PUT", "/todos");
    assert_eq!(luat::dispatch::action_template_candidates(&plain), vec!["PUT-default".to_string(), "default".to_string()]);
    let mut route = luat::router::Route::new("/todos", "todos");
    route.action_templates.insert("post-Delete", "todos/(fragments)/POST-delete.luat");
    route.action_templates.insert("delete", "todos/(fragments)/delete.luat");
    assert_eq!(
        luat::dispatch::action_template_path(&route, "POST-delete"),
        Some("todos/(fragments)/POST-delete.luat".to_string())
    );
    assert_eq!(luat::dispatch::action_template_path(&route, "DELETE"), Some("todos/(fragments)/delete.luat".to_string()));
    assert_eq!(luat::dispatch::action_template_path(&route, "update"), None);
}

#[test]
fn action_answers_become_fragments_or_json() {
    let resp = luat::response::ActionResponse::new(201, serde_json::Value::Bool(true)).with_header("HX-Trigger", "saved");
    match luat::dispatch::action_response_to_luat(resp.clone(), Some("<li>x</li>".to_string())) {
        LuatResponse::Html { status, headers, body } => {
            assert_eq!(status, 201);
            assert_eq!(body, "<li>x</li>");
            assert_eq!(headers.get("x-luat-fragment").map(|s| s.as_str()), Some("1"));
            assert_eq!(headers.get("HX-Trigger").map(|s| s.as_str()), Some("saved"));
        },
        _ => panic!("a rendered template is HTML"),
    }
    match luat::dispatch::action_response_to_luat(resp, None) {
        LuatResponse::Json { status, headers, body } => {
            assert_eq!(status, 201);
            assert_eq!(body, serde_json::Value::Bool(true));
            assert!(headers.get("x-luat-fragment").is_none());
        },
        _ => panic!("without a template the data is JSON"),
    }
    match luat::dispatch::action_error_response(405, "No server handler") {
        LuatResponse::Json { status, body, .. } => {
            assert_eq!(status, 405);
            assert_eq!(body.to_string(), "{\"error\":\"No server handler\"}");
        },
        _ => panic!("an action error is JSON"),
    }
}

fn returned_table(status: Option<u16>, fail: bool, redirect: Option<&str>, body: Option<serde_json::Value>) -> luat::runtime::ReturnedTable {
    luat::runtime::ReturnedTable {
        status,
        fail,
        headers: vec![("X-A".to_string(), "1".to_string()), ("X-A".to_string(), "2".to_string())],
        redirect: redirect.map(|s| s.to_string()),
        body,
        fields: vec![
            ("title".to_string(), serde_json::Value::String("Hi".to_string())),
            ("status".to_string(), serde_json::Value::from(201)),
            ("redirect".to_string(), serde_json::Value::String("/x".to_string())),
            ("__fail".to_string(), serde_json::Value::Bool(true)),
        ],
    }
}

#[test]
fn load_results_keep_props_apart_from_redirect_and_status() {
    let r = load_result_of(Returned::Table(returned_table(Some(303), false, Some("/login"), None)));
    assert_eq!(r.redirect, Some("/login".to_string()));
    assert_eq!(r.status, Some(303));
    assert_eq!(r.props.to_string(), "{\"__fail\":true,\"title\":\"Hi\"}");
    let r = load_result_of(Returned::Nil);
    assert_eq!(r.props.to_string(), "{}");
    assert!(r.redirect.is_none() && r.status.is_none());
    let r = load_result_of(Returned::Other(serde_json::Value::from(7)));
    assert_eq!(r.props, serde_json::Value::from(7));
}

#[test]
fn api_results_follow_the_returned_table() {
    let r = api_result_of(Returned::Table(returned_table(None, false, Some("/next"), None)));
    assert_eq!(r.status, 302);
    assert_eq!(r.body, serde_json::Value::Null);
    assert_eq!(r.headers.get("Location").map(|s| s.as_str()), Some("/next"));
    assert_eq!(r.headers.get("X-A").map(|s| s.as_str()), Some("2"));
    let r = api_result_of(Returned::Table(returned_table(Some(201), false, None, Some(serde_json::Value::from(1)))));
    assert_eq!(r.status, 201);
    assert_eq!(r.body, serde_json::Value::from(1));
    assert!(r.headers.get("Location").is_none());
    assert_eq!(api_result_of(Returned::Nil).status, 204);
    let r = api_result_of(Returned::Other(serde_json::Value::from("ok")));
    assert_eq!((r.status, r.body), (200, serde_json::Value::from("ok")));
}

#[test]
fn action_results_fail_with_400_and_keep_their_data() {
    let r = action_response_of(Returned::Table(returned_table(None, true, None, None)));
    assert_eq!(r.status, 400);
    assert_eq!(r.data.to_string(), "{\"title\":\"Hi\"}");
    let r = action_response_of(Returned::Table(returned_table(None, false, Some("/done"), None)));
    assert_eq!(r.status, 302);
    assert_eq!(r.headers.get("Location").map(|s| s.as_str()), Some("/done"));
    let r = action_response_of(Returned::Table(returned_table(Some(422), true, None, Some(serde_json::Value::from(false)))));
    assert_eq!((r.status, r.data), (422, serde_json::Value::from(false)));
    assert_eq!(action_response_of(Returned::Nil).status, 204);
}
