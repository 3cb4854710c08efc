use luat::ast::Node;
use luat::parser::parse_template;

#[test]
fn test_div_with_class() {
    let source1 = r#"<div>Hello</div>"#;
    println!("Testing: {}", source1);

    let result1 = parse_template(source1);
    match result1 {
        Ok(_ast) => {
            println!("Simple div parsed successfully");
        }
        Err(e) => {
            println!("Simple div parse error: {:?}", e);
            panic!("Simple div should parse successfully");
        }
    }

    let source2 = r#"<div class=container>Hello</div>"#;
    println!("Testing with unquoted attribute: {}", source2);

    let result2 = parse_template(source2);
    match result2 {
        Ok(_ast) => {
            println!("Div with unquoted class parsed successfully");
        }
        Err(e) => {
            println!("Div with unquoted class parse error: {:?}", e);
        }
    }

    let source3 = r#"<div class="container">Hello</div>"#;
    println!("Testing with quoted attribute: {}", source3);

    let result3 = parse_template(source3);
    match result3 {
        Ok(ast) => {
            println!("Div with quoted class parsed successfully: {:?}", ast);
            assert_eq!(ast.body.len(), 1);
        }
        Err(e) => {
            println!("Div with quoted class parse error: {:?}", e);
            panic!("Should parse successfully");
        }
    }
}

#[test]
fn test_each_block() {
    let source = r#"{#each items as item}Hello {item}{/each}"#;
    println!("Testing each block: {}", source);

    let result = parse_template(source);
    match result {
        Ok(ast) => {
            println!("Each block parsed successfully: {:?}", ast);
            assert_eq!(ast.body.len(), 1);
        }
        Err(e) => {
            println!("Each block parse error: {:?}", e);
            panic!("Each block should parse successfully");
        }
    }
}

#[test]
fn test_each_block_as_template() {
    let input = r#"{#each items as item}Hello{/each}"#;
    match parse_template(input) {
        Ok(ast) => {
            println!("Each block parsed as template successfully: {:?}", ast);
            assert_eq!(ast.body.len(), 1);
            match &ast.body[0] {
                Node::EachBlock { .. } => println!("Successfully parsed as each block"),
                other => panic!("Expected each block, got: {:?}", other),
            }
        }
        Err(e) => {
            println!("Each block template parse error: {:?}", e);
            panic!("Should parse as template");
        }
    }
}

#[test]
fn test_simple_template_debug() {
    let input = r#"Hello"#;
    match parse_template(input) {
        Ok(ast) => {
            println!("Simple template parsed successfully: {:?}", ast);
        }
        Err(e) => {
            println!("Simple template parse error: {:?}", e);
        }
    }

    let input2 = r#"{item}"#;
    match parse_template(input2) {
        Ok(ast) => {
            println!("Mustache template parsed successfully: {:?}", ast);
        }
        Err(e) => {
            println!("Mustache template parse error: {:?}", e);
        }
    }
}

#[test]
fn test_render_children_parsing() {
    let source = r#"{@render children?.()}"#;
    println!("Testing render children: {}", source);

    let result = parse_template(source);
    match result {
        Ok(ast) => {
            println!("Render children parsed successfully: {:?}", ast);
        }
        Err(e) => {
            println!("Render children parse error: {:?}", e);
        }
    }
}

#[test]
fn test_basic_parsing() {
    let source = "Hello World";
    let result = parse_template(source);

    if let Err(e) = &result {
        println!("Parse error: {:?}", e);
    }

    assert!(result.is_ok());

    let ast = result.unwrap();
    assert_eq!(ast.body.len(), 1);

    if let Node::TextNode { content } = &ast.body[0] {
        assert_eq!(content, "Hello World");
    } else {
        panic!("Expected text node");
    }
}

#[test]
fn test_basic_mustache() {
    let source = "Hello {name}";
    let result = parse_template(source);
    assert!(result.is_ok());

    let ast = result.unwrap();
    println!("AST: {:?}", ast);
    assert_eq!(ast.body.len(), 2);

    if let Node::TextNode { content } = &ast.body[0] {
        println!("First node content: '{}'", content);
        assert_eq!(content, "Hello ");
    } else {
        panic!("Expected text node, got {:?}", ast.body[0]);
    }

    if let Node::MustacheNode { expression } = &ast.body[1] {
        assert_eq!(expression.content, "name");
    } else {
        panic!("Expected mustache node, got {:?}", ast.body[1]);
    }
}

#[test]
fn test_simple_element() {
    let source = r#"<div>content</div>"#;
    let result = parse_template(source);
    assert!(result.is_ok());

    let ast = result.unwrap();
    assert_eq!(ast.body.len(), 1);

    if let Node::ElementNode { tag, children, .. } = &ast.body[0] {
        assert_eq!(tag, "div");
        assert_eq!(children.len(), 1);

        if let Node::TextNode { content } = &children[0] {
            assert_eq!(content, "content");
        } else {
            panic!("Expected text node in element");
        }
    } else {
        panic!("Expected element node, got {:?}", ast.body[0]);
    }
}

#[test]
fn test_if_block() {
    let source = "{#if true}test{/if}";
    let result = parse_template(source);

    if let Err(e) = &result {
        println!("Parse error: {:?}", e);
    }

    if result.is_err() {
        println!("Simple if block failed, trying even simpler...");
        let source2 = "test";
        let result2 = parse_template(source2);
        println!("Simple text parse result: {:?}", result2.is_ok());
    }

    assert!(result.is_ok(), "If block parsing should work");

    let ast = result.unwrap();
    assert_eq!(ast.body.len(), 1);

    if let Node::IfBlock { condition, then_branch, .. } = &ast.body[0] {
        assert_eq!(condition.content, "true");
        assert_eq!(then_branch.len(), 1);

        if let Node::TextNode { content } = &then_branch[0] {
            assert_eq!(content, "test");
        } else {
            panic!("Expected text node in if block");
        }
    } else {
        panic!("Expected if block, got {:?}", ast.body[0]);
    }
}

#[test]
fn test_lua_grammar_with_luat_magic_functions() {
    let template = r#"<script>
        local ok = $state("hello world", "default value")
</script>
<div>Hello world</div>"#;
    let result = parse_template(template);
    assert!(result.is_ok(), "Failed to parse template with basic magic function: {:?}", result.err());

    let ast = result.unwrap();
    assert!(ast.regular_script.is_some(), "Missing regular script block");

    let script = ast.regular_script.unwrap();
    println!("Script content: {}", script.content);
    assert!(script.content.contains("-- LUAT magic function $state will be implemented in future"),
        "Script content doesn't contain the expected LUAT magic function comment: {}", script.content);

    let template = r#"<script>local hello = $state("hello world")
</script>
<div>Hello world</div>"#;
    let result = parse_template(template);
    assert!(result.is_ok(), "Failed to parse template with magic function and string: {:?}", result.err());

    let template = r#"<script>local result = $state(someVariable)
</script>
<div>Hello world</div>"#;
    let result = parse_template(template);
    assert!(result.is_ok(), "Failed to parse template with magic function and variable: {:?}", result.err());

    let template = r#"<script>let conditionalok = $state(hello, "no value")
</script>
<div>Hello world</div>"#;
    let result = parse_template(template);
    assert!(result.is_ok(), "Failed to parse template with magic function and default: {:?}", result.err());

    let ast = result.unwrap();
    let script = ast.regular_script.unwrap();
    assert!(script.content.contains("hello or \"no value\""),
        "Script content doesn't contain the expected default value handling: {}", script.content);

    let template = r#"<script>local something = $init()
</script>
<div>Hello world</div>"#;
    let result = parse_template(template);
    assert!(result.is_ok(), "Failed to parse template with empty magic function: {:?}", result.err());
}

#[test]
fn test_script_string_parsing() {
    let input = r#"<script>
        local Card = require("Card.luat")
        local hello = "<script>alert('Hello')</script>"
        local ok = _state(false)
        </script>"#;

    let template = format!("{}{}", input, "<p>Test</p>");
    match parse_template(&template) {
        Ok(ast) => {
            println!("Template parse successful!");
            println!("Has regular script: {}", ast.regular_script.is_some());
        }
        Err(e) => {
            println!("Template parse error: {}", e.to_message());
        }
    }
}

#[test]
fn test_error_handling() {
    let invalid_source = r#"<div>{unclosed"#;
    let result = parse_template(invalid_source);
    assert!(result.is_err());

    let invalid_script = r#"
<div>Content</div>
<script module>
    -- This should fail because module script must be first
</script>
"#;
    let result = parse_template(invalid_script);
    assert!(result.is_err());

    let multiple_modules = r#"
<script module>
    -- First module script
</script>
<script module>
    -- Second module script (should fail)
</script>
"#;
    let result = parse_template(multiple_modules);
    assert!(result.is_err());
}
