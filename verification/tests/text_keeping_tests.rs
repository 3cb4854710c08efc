use luat::codegen::{bundle_sources, generate_lua_code, generate_lua_code_with_sourcemap};
use luat::collections::{StrMap, StrSet};
use luat::dispatch::build_action_context;
use luat::enhanced_parser::add_parse_context;
use luat::error::LuatError;
use luat::parser::parse_template;
use luat::request::LuatRequest;
use luat::resolver::resolution_outcome;
use luat::router::Router;
use luat::script_processor::process_script_content;
use luat::sourcemap::BundleSourceMap;
use luat::transform::{transform_ast, IRNode, IR};

#[test]
fn magic_call_keeps_the_rest_of_the_line_once() {
    assert_eq!(
        process_script_content("local ok = $state(false) -- c"),
        "-- LUAT magic function $state will be implemented in future\nlocal ok = false -- c"
    );
}

#[test]
fn magic_call_without_assignment_is_replaced_inline() {
    assert_eq!(
        process_script_content("$init()"),
        "-- LUAT magic function $init will be implemented in future\nnil"
    );
    let ast = parse_template("<script>$init()</script><p>x</p>").unwrap();
    let script = ast.regular_script.unwrap();
    assert_eq!(script.content, "-- LUAT magic function $init will be implemented in future\nnil");
}

#[test]
fn module_lines_end_before_offset_plus_count() {
    let mut map = BundleSourceMap::new();
    map.add_module("A", "a.luat", 10, "one\ntwo\nthree");
    assert!(map.find_module_by_line(12).is_some());
    assert!(map.find_module_by_line(13).is_none());
}

#[test]
fn script_text_passes_through_once() {
    let ir = IR {
        module_script: None,
        regular_script: None,
        body: vec![IRNode::ScriptAny { content: "x{}y".to_string() }],
        components: StrSet::new(),
    };
    let code = generate_lua_code(ir, "t").unwrap();
    assert!(code.contains("__write(\"x{}y\")"), "{}", code);
    assert!(!code.contains("__write(\"}y\")"));

    let ir = IR {
        module_script: None,
        regular_script: None,
        body: vec![IRNode::ScriptAny { content: "a{ b".to_string() }],
        components: StrSet::new(),
    };
    let code = generate_lua_code(ir, "t").unwrap();
    assert_eq!(code.matches("__write(\"a{ b\")").count(), 1, "{}", code);
}

#[test]
fn source_map_lines_point_at_the_returned_code() {
    let ast = parse_template("<div>{name}</div>").unwrap();
    let ir = transform_ast(ast).unwrap();
    let (code, map) = generate_lua_code_with_sourcemap(ir, "t").unwrap();
    assert!(code.starts_with("--[[SRCMAP:"));
    let k = code
        .lines()
        .position(|l| l.contains("__write(html_escape(smart_tostring(name)))"))
        .unwrap();
    assert_eq!(map.lookup(k + 1), Some(1));
    assert_eq!(map.lookup(k), None);
}

#[test]
fn bundle_offset_counts_line_breaks_in_the_name() {
    let sources = vec![("a\nb".to_string(), "x = 1\ny = 2".to_string())];
    let (bundle, map) = bundle_sources(sources, |_, _| {}).unwrap();
    let info = map.modules.get("a\nb").unwrap();
    let line = bundle.lines().nth(info.line_offset - 1).unwrap();
    assert_eq!(line, "    x = 1");
}

#[test]
fn bundle_offset_for_plain_names() {
    let sources = vec![("Card".to_string(), "return {}".to_string()), ("Button".to_string(), "local b = 1\nreturn b".to_string())];
    let (bundle, map) = bundle_sources(sources, |_, _| {}).unwrap();
    let info = map.modules.get("Button").unwrap();
    assert_eq!(bundle.lines().nth(info.line_offset - 1).unwrap(), "    local b = 1");
    assert_eq!(bundle.lines().nth(info.line_offset).unwrap(), "    return b");
}

#[test]
fn routes_with_too_many_parameters_are_not_matched() {
    let mut path = String::new();
    for i in 0..26 {
        path.push_str(&format!("[p{}]/", i));
    }
    path.push_str("+page.luat");
    let router = Router::from_paths(vec![path.as_str(), "+page.luat"]);
    assert_eq!(router.routes().len(), 2);
    assert!(router.match_url("/").is_some());
    let url: String = (0..26).map(|i| format!("/v{}", i)).collect();
    assert!(router.match_url(&url).is_none());
}

#[test]
fn resolution_outcome_decides_from_canonical_paths() {
    let ok = resolution_outcome("x", "/r/x.luat", "/r", Ok("/r/x.luat".to_string()), Ok("/r".to_string()), None).unwrap();
    assert_eq!(ok, ("/r/x.luat".to_string(), "/r/x.luat".to_string()));
    match resolution_outcome("../x", "/x.luat", "/r", Ok("/x.luat".to_string()), Ok("/r".to_string()), None) {
        Err(LuatError::ResolutionError(m)) => assert_eq!(m, "Security: Path '../x' escapes allowed directories"),
        other => panic!("{:?}", other),
    }
    let lib = resolution_outcome("lib/x", "/l/x.luat", "/r", Ok("/l/x.luat".to_string()), Ok("/r".to_string()), Some("/l".to_string()));
    assert!(lib.is_ok());
    match resolution_outcome("x", "/r/x.luat", "/r", Err("gone".to_string()), Ok("/r".to_string()), None) {
        Err(LuatError::ResolutionError(m)) => assert_eq!(m, "Failed to canonicalize path '/r/x.luat': gone"),
        other => panic!("{:?}", other),
    }
    match resolution_outcome("x", "/r/x.luat", "/r", Ok("/r/x.luat".to_string()), Err("no root".to_string()), None) {
        Err(LuatError::ResolutionError(m)) => assert_eq!(m, "Failed to canonicalize root '/r': no root"),
        other => panic!("{:?}", other),
    }
}

#[test]
fn body_json_gives_the_parsed_value() {
    let req = LuatRequest::new("/", "POST").with_body(b"{\"a\": [1, 2]}".to_vec());
    let v = req.body_json().unwrap();
    assert_eq!(v, serde_json::from_str::<serde_json::Value>("{\"a\":[1,2]}").unwrap());
    let bad = LuatRequest::new("/", "POST").with_body(b"{nope".to_vec());
    assert!(bad.body_json().is_none());
}

#[test]
fn action_context_carries_the_read_body() {
    let mut headers = StrMap::new();
    headers.insert("content-type", "application/json");
    let req = LuatRequest::new("/blog", "post").with_headers(headers.clone()).with_body(b"{\"t\": \"x\"}".to_vec());
    let ctx = build_action_context(&req, &StrMap::new()).unwrap();
    assert_eq!(ctx.body, serde_json::from_str::<serde_json::Value>("{\"t\":\"x\"}").unwrap());
    let bad = LuatRequest::new("/blog", "post").with_headers(headers).with_body(b"{".to_vec());
    let err = build_action_context(&bad, &StrMap::new()).unwrap_err();
    assert!(err.starts_with("Invalid JSON: "), "{}", err);
}

#[test]
fn parse_context_is_added_to_the_parse_result() {
    let parsed = parse_template("<p>hi</p>");
    let ast = add_parse_context("<p>hi</p>", Some("page.luat"), parsed).unwrap();
    assert_eq!(ast.path.as_deref(), Some("page.luat"));
    assert_eq!(ast.body.len(), 1);
    let err = LuatError::ParseError { message: "boom".to_string(), line: 2, column: 3, file: None, source_context: None };
    match add_parse_context("a\nb\nc", Some("f.luat"), Err(err)) {
        Err(LuatError::ParseError { message, line, column, file, source_context }) => {
            assert_eq!(message, "boom");
            assert_eq!((line, column), (2, 3));
            assert_eq!(file.as_deref(), Some("f.luat"));
            let ctx = source_context.unwrap();
            assert_eq!(ctx.lines.len(), 3);
            assert_eq!(ctx.error_line, 2);
        }
        other => panic!("{:?}", other),
    }
    match add_parse_context("x", None, Err(LuatError::MultipleModuleScripts)) {
        Err(LuatError::MultipleModuleScripts) => {}
        other => panic!("{:?}", other),
    }
}

#[test]
fn bundle_progress_steps() {
    let sources = vec![("Card".to_string(), "return {}".to_string()), ("Button".to_string(), "return {}".to_string())];
    let mut log: Vec<(usize, usize)> = Vec::new();
    let r = bundle_sources(sources, |current, total| log.push((current, total)));
    assert!(r.is_ok());
    assert_eq!(log, vec![(0, 2), (1, 2), (2, 2)]);
}

#[test]
fn module_names_and_shown_paths() {
    assert_eq!(luat::compile::module_stem("src/routes/+page.luat"), "+page");
    assert_eq!(luat::compile::module_stem("a/b.c.luat"), "b.c");
    assert_eq!(luat::compile::module_stem(".hidden"), ".hidden");
    assert_eq!(luat::compile::module_stem(""), "unknown");
    let root = Some("/srv/app".to_string());
    assert_eq!(luat::compile::relative_path("/srv/app/routes/x.luat", &root), "routes/x.luat");
    assert_eq!(luat::compile::relative_path("/other/y.luat", &root), "y.luat");
    assert_eq!(luat::compile::relative_path("/other/y.luat", &None), "y.luat");
    assert_eq!(luat::cache::source_hash("abc"), luat::cache::source_hash("abc"));
    assert_ne!(luat::cache::source_hash("abc"), luat::cache::source_hash("abd"));
}

#[test]
fn compile_bundle_progress_steps() {
    let sources = vec![("a.lua".to_string(), "return 1".to_string()), ("b.lua".to_string(), "return 2".to_string())];
    let mut log: Vec<(usize, usize)> = Vec::new();
    let r = luat::compile::bundle_sources(sources, |current, total| log.push((current, total)));
    assert!(r.is_ok(), "{:?}", r.err());
    assert_eq!(log, vec![(0, 4), (1, 4), (2, 4), (3, 4), (0, 2), (1, 2), (2, 2)]);
}

#[test]
fn ordered_bundle_progress_steps() {
    let compiled = vec![("a".to_string(), "return 1".to_string()), ("b".to_string(), "return 2".to_string())];
    let mut log: Vec<(usize, usize)> = Vec::new();
    let r = luat::bundler::bundle_sources_with_sourcemap(compiled, |current, total| log.push((current, total)));
    assert!(r.is_ok());
    assert_eq!(log, vec![(0, 2), (1, 2)]);
}

#[test]
fn source_map_counts_script_lines() {
    let source = "<script>\nlocal a = 1\nlocal b = 2\n</script>\n<div>{name}</div>";
    let ast = parse_template(source).unwrap();
    let ir = transform_ast(ast).unwrap();
    let (code, map) = generate_lua_code_with_sourcemap(ir, "t").unwrap();
    let k = code
        .lines()
        .position(|l| l.contains("__write(html_escape(smart_tostring(name)))"))
        .unwrap();
    assert_eq!(map.lookup(k + 1), Some(5));
}

#[test]
fn searcher_names_and_labels() {
    assert_eq!(luat::compile::retry_name("Card"), Some("Card.luat".to_string()));
    assert_eq!(luat::compile::retry_name("Card.luat"), None);
    assert_eq!(luat::compile::retry_name("util.lua"), None);
    assert_eq!(luat::compile::resolver_label("Card", Some(42)), "resolver:Card:42");
    assert_eq!(luat::compile::resolver_label("Card.luat", None), "resolver:Card.luat");
}

#[test]
fn offsets_shift_back() {
    let mut map = BundleSourceMap::new();
    map.add_module("A", "a.luat", 10, "one\ntwo");
    map.add_module("B", "b.luat", 20, "three");
    map.adjust_offsets(-7);
    assert_eq!(map.modules.get("A").unwrap().line_offset, 3);
    map.adjust_offsets(7);
    assert_eq!(map.modules.get("A").unwrap().line_offset, 10);
    assert_eq!(map.modules.get("B").unwrap().line_offset, 20);
}
