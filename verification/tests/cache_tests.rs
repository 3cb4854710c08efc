use luat::cache::{generate_cache_key, module_file_name, module_key};
use luat::compile::entry_module;
use luat::resolver::ResolvedResource;

#[test]
fn test_cache_key_generation() {
    let key1 = generate_cache_key("hello", &[]);
    let key2 = generate_cache_key("hello", &[]);
    let key3 = generate_cache_key("world", &[]);

    assert_eq!(key1, key2);
    assert_ne!(key1, key3);

    let key4 = generate_cache_key("hello", &["dep".to_string()]);
    assert_ne!(key1, key4);
}

#[test]
fn require_names_stand_for_templates_and_cache_keys() {
    assert_eq!(module_file_name("components/Card"), "components/Card.luat");
    assert_eq!(module_file_name("Card.luat"), "Card.luat");
    assert_eq!(module_file_name("util.lua"), "util.lua");
    assert_eq!(module_key("Card.luat"), "module:Card.luat");
}

#[test]
fn entry_modules_keep_lua_files_and_compile_templates() {
    let lua = entry_module("util.lua", ResolvedResource { path: "/t/util.lua".to_string(), source: "return {}".to_string() }).unwrap();
    assert_eq!(lua.lua_code, "return {}");
    assert_eq!(lua.path, Some("/t/util.lua".to_string()));
    assert!(lua.source_map.is_none());
    let page = entry_module("index.luat", ResolvedResource { path: "/t/index.luat".to_string(), source: "<p>{props.x}</p>".to_string() }).unwrap();
    assert_eq!(page.name, "index.luat");
    assert!(page.lua_code.contains("exports.render = render"));
    assert!(page.source_map.is_some());
}
