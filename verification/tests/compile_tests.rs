use luat::codegen::{fits_line_numbers, generate_lua_code};
use luat::compile::{bundle_entry, bundle_sources, compile_for_bundle, compile_template_string, compile_template_string_with_path};
use luat::error::LuatError;
use luat::parser::parse_template;
use luat::transform::transform_ast;
use luat::compile::{compile_module, CompileStage};

#[test]
fn compiled_module_keeps_name_path_and_source_map() {
    let m = compile_template_string_with_path("Hello.luat", "<h1>{props.name}</h1>", Some("/t/Hello.luat".to_string()))
        .unwrap();
    assert_eq!(m.name, "Hello.luat");
    assert_eq!(m.path, Some("/t/Hello.luat".to_string()));
    assert!(m.dependencies.is_empty());
    let map = m.source_map.clone().unwrap();
    assert!(!map.is_empty());
    assert!(m.lua_code.starts_with("--[[SRCMAP:"));
    assert!(m.lua_code.contains("__write(html_escape(smart_tostring(props.name)))"));
    assert!(m.lua_code.contains("exports.moduleName = \"Hello.luat\""));
    let plain = compile_template_string("Hello.luat", "<h1>{props.name}</h1>").unwrap();
    assert_eq!(plain.path, None);
    assert_eq!(plain.lua_code, m.lua_code);
}

#[test]
fn compile_reports_parse_errors_with_the_template_name() {
    match compile_template_string("Broken.luat", "{#if x}\n<p>open") {
        Err(LuatError::ParseError { file, source_context, .. }) => {
            assert_eq!(file, Some("Broken.luat".to_string()));
            assert!(source_context.is_some());
        },
        other => panic!("expected a parse error, got {:?}", other.map(|m| m.name)),
    }
}

#[test]
fn bundle_code_of_a_lua_name_is_its_source() {
    let code = compile_for_bundle("helper.lua", "<p>hi</p>").unwrap();
    assert_eq!(code, "<p>hi</p>");
    let code = compile_for_bundle("Card.luat", "<p>hi</p>").unwrap();
    assert!(code.contains("__write(\"<p\")"));
    assert!(code.contains("exports.moduleName = \"Card.luat\""));
}

#[test]
fn bundled_templates_come_after_what_they_require() {
    let sources = vec![
        ("Page.luat".to_string(), "<script>\nlocal Card = require(\"Card\")\n</script>\n<Card />".to_string()),
        ("Card.luat".to_string(), "<div>card</div>".to_string()),
    ];
    let mut calls: Vec<(usize, usize)> = Vec::new();
    let (bundle, map) = bundle_sources(sources, |a, b| calls.push((a, b))).unwrap();
    let card = bundle.find("__module_loaders[\"Card.luat\"]").unwrap();
    let page = bundle.find("__module_loaders[\"Page.luat\"]").unwrap();
    assert!(card < page);
    assert!(map.modules.contains_key("Card.luat"));
    assert!(map.modules.contains_key("Page.luat"));
    assert_eq!(&calls[..4], &[(0, 4), (1, 4), (2, 4), (3, 4)]);
}

#[test]
fn bundling_stops_at_a_template_that_does_not_parse() {
    let sources = vec![("Bad.luat".to_string(), "{#each}".to_string())];
    assert!(bundle_sources(sources, |_, _| {}).is_err());
}

#[test]
fn a_module_that_does_not_compile_is_bundled_as_its_error() {
    let code = bundle_entry("Bad.luat", "{#if x}");
    assert!(code.starts_with("-- PARSE ERROR: Parse error in Some(\"Bad.luat\")"));
    assert!(code.contains("return { parse_error = true, error = [[Parse error in"));
    let good = bundle_entry("Good.luat", "<b>ok</b>");
    assert_eq!(good, compile_template_string("Good.luat", "<b>ok</b>").unwrap().lua_code);
}

#[test]
fn ordinary_templates_fit_the_line_counter() {
    let ast = parse_template("<ul>{#each items as item}<li>{item}</li>{/each}</ul>").unwrap();
    let ir = transform_ast(ast).unwrap();
    assert!(fits_line_numbers(&ir, "List"));
    assert!(generate_lua_code(ir, "List").unwrap().contains("ipairs(__list)"));
}

#[test]
fn compiled_modules_list_their_components() {
    let (code, comps) = compile_module("<Card title=\"a\" /><Button /><Card />", "Page").unwrap();
    assert_eq!(comps, vec!["Card".to_string(), "Button".to_string()]);
    assert!(code.contains("exports.moduleName = \"Page\""));
    match compile_module("{#if a}", "Page") {
        Err((CompileStage::Parse, e)) => assert!(matches!(e, LuatError::ParseError { .. })),
        _ => panic!("an unclosed block does not parse"),
    }
}
