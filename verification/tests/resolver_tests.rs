use luat::error::LuatError;
use luat::memory_resolver::MemoryResourceResolver as TemplateStore;
use luat::resolver::{MemoryResourceResolver, ResourceResolver};

#[test]
fn test_memory_resolver_direct() {
    let mut resolver = TemplateStore::new();
    resolver.add_template("test.luat", "<div>Hello</div>".to_string());

    let resolved = resolver.resolve("", "test.luat").unwrap();
    assert_eq!(resolved.path, "test.luat");
    assert_eq!(resolved.source, "<div>Hello</div>");

    let resolved_no_ext = resolver.resolve("", "test").unwrap();
    assert_eq!(resolved_no_ext.path, "test.luat");
    assert_eq!(resolved_no_ext.source, "<div>Hello</div>");

    assert!(resolver.resolve("", "nonexistent").is_err());
}

#[test]
fn test_memory_resolver_relative_paths() {
    let mut resolver = TemplateStore::new();
    resolver.add_template("app/main.luat", "require('./component')".to_string());
    resolver.add_template("app/component.luat", "<p>Component</p>".to_string());

    let resolved = resolver.resolve("app/main.luat", "./component").unwrap();
    assert_eq!(resolved.path, "app/component.luat");
    assert_eq!(resolved.source, "<p>Component</p>");

    let resolved_no_ext = resolver.resolve("app/main.luat", "./component").unwrap();
    assert_eq!(resolved_no_ext.path, "app/component.luat");
}

#[test]
fn test_memory_resolver_parent_paths() {
    let mut resolver = TemplateStore::new();
    resolver.add_template("app/ui/button.luat", "require('../common/utils')".to_string());
    resolver.add_template("app/common/utils.luat", "function util(){}".to_string());

    let resolved = resolver.resolve("app/ui/button.luat", "../common/utils").unwrap();
    assert_eq!(resolved.path, "app/common/utils.luat");
    assert_eq!(resolved.source, "function util(){}");

    let resolved_no_ext = resolver.resolve("app/ui/button.luat", "../common/utils").unwrap();
    assert_eq!(resolved_no_ext.path, "app/common/utils.luat");
}

#[test]
fn test_memory_resolver_add_remove_clear() {
    let mut resolver = TemplateStore::new();
    resolver.add_template("temp.luat", "test".to_string());
    assert!(resolver.resolve("", "temp").is_ok());

    resolver.remove_template("temp.luat");
    assert!(resolver.resolve("", "temp").is_err());

    resolver.add_template("temp1.luat", "test1".to_string());
    resolver.add_template("temp2.luat", "test2".to_string());
    resolver.clear();
    assert!(resolver.resolve("", "temp1").is_err());
    assert!(resolver.resolve("", "temp2").is_err());
}

#[test]
fn test_memory_resolver() {
    let mut resolver = MemoryResourceResolver::new();
    let template_content = r#"<div>Hello Memory</div>"#;

    resolver.add_resource("test.luat", template_content);
    resolver.add_resource("app/main.luat", r#"<script>local Test = require("test");</script><Test/>"#);
    resolver.add_resource("components/Button.luat", "<button>Click me</button>");
    resolver.add_resource("app/ui/Card.luat", r#"<script>local Button = require("../../components/Button");</script><div class="card"><Button/></div>"#);

    let resolved = resolver.resolve("", "test").unwrap();
    println!("Resolved path: {}", resolved.path);
    assert_eq!(resolved.source, template_content);
    assert_eq!(resolved.path, "test.luat");
}

#[test]
fn test_memory_resolver_not_found() {
    let resolver = MemoryResourceResolver::new();

    let result = resolver.resolve("", "nonexistent");
    assert!(result.is_err());

    match result {
        Err(LuatError::ResolutionError(message)) => {
            assert!(message.contains("Module 'nonexistent' not found"));
        }
        _ => panic!("Expected ResolutionError"),
    }
}

#[test]
fn test_memory_resolver_with_extensions() {
    let mut resolver = MemoryResourceResolver::new();

    resolver.add_resource("module.luat", r#"<div>LUAT Memory Module</div>"#);
    resolver.add_resource("script.lua", r#"return { render = function() return "Lua Memory Module" end }"#);

    let resolved_luat = resolver.resolve("", "module").unwrap();
    assert_eq!(resolved_luat.source, r#"<div>LUAT Memory Module</div>"#);

    let resolved_lua = resolver.resolve("", "script").unwrap();
    assert_eq!(resolved_lua.source, r#"return { render = function() return "Lua Memory Module" end }"#);

    let resolved_explicit = resolver.resolve("", "module.luat").unwrap();
    assert_eq!(resolved_explicit.source, r#"<div>LUAT Memory Module</div>"#);
}
