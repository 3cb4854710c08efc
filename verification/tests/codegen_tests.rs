use luat::resolver::ResourceResolver;
use luat::codegen::{bundle_sources, generate_lua_code, generate_lua_code_with_sourcemap, LuaSourceMap};
use luat::parser::parse_template;
use luat::transform::transform_ast;

#[test]
fn test_generate_simple_template() {
    let source = r#"<div>Hello {name}</div>"#;
    let ast = parse_template(source).unwrap();
    let ir = transform_ast(ast).unwrap();

    let lua_code = generate_lua_code(ir, "test").unwrap();

    println!("Generated Lua code:\n{}", lua_code);

    assert!(lua_code.contains("function render(props, runtime)"));
    assert!(lua_code.contains("__write(\"<div\")"));
    assert!(lua_code.contains("__write(html_escape(smart_tostring(name)))"));
    assert!(lua_code.contains("</div>"));
}

#[test]
fn test_generate_component() {
    let source = r#"        
        <Card title="Hello">World</Card>
        "#;
    let ast = parse_template(source).unwrap();
    let ir = transform_ast(ast).unwrap();

    let lua_code = generate_lua_code(ir, "test").unwrap();
    println!("Generated Lua code:\n{}", lua_code);
    assert!(lua_code.contains("Card.render"));
    assert!(lua_code.contains("title = \"Hello\""));
    assert!(lua_code.contains("children = function"));
}

#[test]
fn test_generate_if_block() {
    let source = r#"{#if show}Hello{/if}"#;
    let ast = parse_template(source).unwrap();
    let ir = transform_ast(ast).unwrap();

    let lua_code = generate_lua_code(ir, "test").unwrap();
    println!("Generated Lua code:\n{}", lua_code);
    assert!(lua_code.contains("if show then"));
    assert!(lua_code.contains("end"));
}

#[test]
fn test_generate_each_block() {
    let source = r#"{#each items as item}Hello {item}{/each}"#;
    let ast = parse_template(source).unwrap();
    let ir = transform_ast(ast).unwrap();

    let lua_code = generate_lua_code(ir, "test").unwrap();

    assert!(lua_code.contains("for __i, item in ipairs(__list) do"));
    assert!(lua_code.contains("local __loop_props"));
}

#[test]
fn test_bundle_sources() {
    let sources = vec![
        (
            "Card".to_string(),
            "return { render = function() end }".to_string(),
        ),
        (
            "Button".to_string(),
            "return { render = function() end }".to_string(),
        ),
    ];

    let mut progress_calls = 0;
    let (bundle, source_map) = bundle_sources(sources, |current, total| {
        progress_calls += 1;
        assert!(current <= total);
    })
    .unwrap();

    assert!(bundle.contains("__module_loaders[\"Card\"]"));
    assert!(bundle.contains("__module_loaders[\"Button\"]"));
    assert!(bundle.contains("local function __require"));
    assert!(progress_calls > 0);

    assert!(source_map.modules.contains_key("Card"));
    assert!(source_map.modules.contains_key("Button"));
}

#[test]
fn test_source_map_basic() {
    let mut source_map = LuaSourceMap::new();
    source_map.record(10, 5);
    source_map.record(20, 15);

    assert_eq!(source_map.lookup(10), Some(5));
    assert_eq!(source_map.lookup(20), Some(15));

    assert_eq!(source_map.lookup(12), Some(5));
    assert_eq!(source_map.lookup(25), Some(15));
}

#[test]
fn test_source_map_to_comment() {
    let mut source_map = LuaSourceMap::new();
    source_map.record(10, 5);
    source_map.record(20, 15);

    let comment = source_map.to_comment();
    assert!(comment.contains("SRCMAP:"));
    assert!(comment.contains("10=5"));
    assert!(comment.contains("20=15"));
}

#[test]
fn test_source_map_from_comment() {
    let comment = "--[[SRCMAP:10=5,20=15]]";
    let source_map = LuaSourceMap::from_comment(comment).unwrap();

    assert_eq!(source_map.lookup(10), Some(5));
    assert_eq!(source_map.lookup(20), Some(15));
}

#[test]
fn test_generate_with_sourcemap() {
    let source = r#"<div>{name}</div>"#;
    let ast = parse_template(source).unwrap();
    let ir = transform_ast(ast).unwrap();

    let (lua_code, source_map) = generate_lua_code_with_sourcemap(ir, "test").unwrap();

    assert!(!source_map.is_empty(), "Source map should have mappings for expressions");
    assert!(lua_code.contains("function render"));
}

#[test]
fn test_source_map_error_translation() {
    let mut source_map = LuaSourceMap::new();
    source_map.record(72, 10);

    let error = "syntax error: src/routes/blog/new/+page.luat:72: unexpected symbol near '{'";
    let translated = source_map.translate_error(error);

    assert!(translated.contains(":10:"), "Expected :10: but got: {}", translated);
    assert!(!translated.contains(":72:"), "Should not contain :72:");
}

#[test]
fn test_bundle_source_map_translate_error() {
    let mut source_map = luat::sourcemap::BundleSourceMap::new();
    source_map.add_module(
        "src/routes/blog/+page.luat",
        "src/routes/blog/+page.luat",
        100,
        "line1\nline2\nline3\nline4\nline5",
    );

    let error = "syntax error: luat_bundle:103: unexpected symbol near '{'";
    let translated = source_map.translate_error(error);

    assert!(
        translated.contains("src/routes/blog/+page.luat:4:"),
        "Expected translated error, got: {}",
        translated
    );
    assert!(!translated.contains("luat_bundle"), "Should not contain luat_bundle");
}

#[test]
fn source_maps_read_back_from_their_comments() {
    let mut source_map = LuaSourceMap::new();
    source_map.record(42, 7);
    source_map.record(3, 1);
    source_map.record(1000, 250);
    let comment = source_map.to_comment();
    assert_eq!(comment, "--[[SRCMAP:3=1,42=7,1000=250]]");
    let back = LuaSourceMap::from_comment(&comment).unwrap();
    assert_eq!(back.to_comment(), comment);
    assert_eq!(back.lookup(42), Some(7));
    assert_eq!(back.lookup(999), Some(7));
    assert_eq!(LuaSourceMap::new().to_comment(), "");
}

#[test]
fn memory_resolver_gives_back_what_was_added() {
    let mut r = luat::memory_resolver::MemoryResourceResolver::new();
    r.add_template("components/Card.luat", "<div/>".to_string());
    let res = r.resolve("pages/index.luat", "components/Card.luat").unwrap();
    assert_eq!(res.path, "components/Card.luat");
    assert_eq!(res.source, "<div/>");
}
