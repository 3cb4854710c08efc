use luat::codegen::generate_lua_code;
use luat::parser::parse_template;
use luat::transform::{transform_ast, validate_ir, IRNode};

#[test]
fn test_local_tag_in_each_block() {
    let source = r#"
{#each boxes as box}
    {@local area = box.width * box.height}
    {box.width} * {box.height} = {area}
{/each}
"#;

    let ast = parse_template(source).unwrap();
    let ir = transform_ast(ast).unwrap();
    let lua_code = generate_lua_code(ir, "test").unwrap();

    assert!(lua_code.contains("local area = box.width * box.height"));
    assert!(lua_code.contains("smart_tostring(box.width)"));
    assert!(lua_code.contains("smart_tostring(box.height)"));
    assert!(lua_code.contains("smart_tostring(area)"));
}

#[test]
fn test_local_tag_illegal_usage_outside_block() {
    let source = r#"
{@local foo = 42}
"#;
    let ast = parse_template(source).unwrap();
    let err = transform_ast(ast).unwrap_err();

    assert!(err
        .to_message()
        .contains("{@local} is only allowed as an immediate child of a block"));
}

#[test]
fn test_multiple_locals_in_each_block() {
    let source = r#"
{#each boxes as box}
    {@local w = box.width}
    {@local h = box.height}
    {w} x {h}
{/each}
"#;
    let ast = parse_template(source).unwrap();
    let ir = transform_ast(ast).unwrap();
    let lua_code = generate_lua_code(ir, "test").unwrap();

    assert!(lua_code.contains("local w = box.width"));
    assert!(lua_code.contains("local h = box.height"));
    assert!(lua_code.contains("smart_tostring(w)"));
    assert!(lua_code.contains("smart_tostring(h)"));
}

#[test]
fn test_local_tag_in_component() {
    let source = r#"
<Component>
    {@local foo = 99}
    {foo}
</Component>
"#;
    let ast = parse_template(source).unwrap();
    let ir = transform_ast(ast).unwrap();
    let lua_code = generate_lua_code(ir, "test").unwrap();

    assert!(lua_code.contains("local foo = 99"));
    assert!(lua_code.contains("smart_tostring(foo)"));
}

#[test]
fn test_local_tag_in_negated_if_block() {
    let source = r#"
{!if notFlag}
    {@local tripled = value * 3}
    Tripled: {tripled}
{/if}
"#;

    let ast = parse_template(source).unwrap();
    let ir = transform_ast(ast).unwrap();
    let lua_code = generate_lua_code(ir, "test").unwrap();

    assert!(lua_code.contains("local tripled = value * 3"));
    assert!(lua_code.contains("smart_tostring(tripled)"));
}

#[test]
fn test_local_tag_in_if_block() {
    let source = r#"
{#if flag}
    {@local doubled = value * 2}
    Doubled: {doubled}
{/if}
"#;

    let ast = parse_template(source).unwrap();
    let ir = transform_ast(ast).unwrap();
    let lua_code = generate_lua_code(ir, "test").unwrap();

    assert!(lua_code.contains("local doubled = value * 2"));
    assert!(lua_code.contains("smart_tostring(doubled)"));
}

#[test]
fn test_full_pipeline_simple_template() {
    let source = r#"<div class="container">Hello {name}!</div>"#;

    let ast = parse_template(source).unwrap();
    assert_eq!(ast.body.len(), 1);

    let ir = transform_ast(ast).unwrap();
    validate_ir(&ir).unwrap();

    let lua_code = generate_lua_code(ir, "test").unwrap();
    assert!(lua_code.contains("function render"));
    assert!(lua_code.contains("html_escape"));
}

#[test]
fn test_sensitive_blocks() {
    let source = r#"
{!if secret}
    <div>Secret content: {secretData}</div>
{/if}

{!each sensitiveItems as item}
    <div>Item: {item}</div>
{/each}
"#;

    let ast = parse_template(source).unwrap();
    let ir = transform_ast(ast).unwrap();
    let lua_code = generate_lua_code(ir, "test").unwrap();

    assert!(lua_code.contains("<!-- sensitive -->"));
    assert!(lua_code.contains("-- sensitive"));
}

#[test]
fn test_transform_simple_template() {
    let source = r#"<div>Hello {name}</div>"#;
    let ast = parse_template(source).unwrap();

    let ir = transform_ast(ast).unwrap();
    assert_eq!(ir.body.len(), 1);

    match &ir.body[0] {
        IRNode::ElementNode { tag, children, .. } => {
            assert_eq!(tag, "div");
            assert_eq!(children.len(), 2);
        }
        _ => panic!("Expected ElementNode"),
    }
}

#[test]
fn test_transform_component() {
    let source = r#"<Card>Hello</Card>"#;
    let ast = parse_template(source).unwrap();

    let ir = transform_ast(ast).unwrap();
    assert!(ir.components.contains("Card"));

    match &ir.body[0] {
        IRNode::ComponentNode { name, .. } => {
            assert_eq!(name, "Card");
        }
        _ => panic!("Expected ComponentNode"),
    }
}

#[test]
fn test_transform_if_block() {
    let source = r#"{#if condition}Hello{/if}"#;
    let ast = parse_template(source).unwrap();

    let ir = transform_ast(ast).unwrap();
    assert_eq!(ir.body.len(), 1);

    match &ir.body[0] {
        IRNode::IfNode { condition, then_branch, sensitive, .. } => {
            assert_eq!(condition.content, "condition");
            assert_eq!(then_branch.len(), 1);
            assert!(!sensitive);
        }
        _ => panic!("Expected IfNode"),
    }
}

#[test]
fn test_transform_sensitive_if_block() {
    let source = r#"{!if condition}Hello{/if}"#;
    let ast = parse_template(source).unwrap();

    let ir = transform_ast(ast).unwrap();
    assert_eq!(ir.body.len(), 1);

    match &ir.body[0] {
        IRNode::IfNode { sensitive, .. } => {
            assert!(sensitive);
        }
        _ => panic!("Expected IfNode"),
    }
}

#[test]
fn test_compilation_performance() {
    let source = r#"
<div class="container">
    {#each items as item, index}
        <div class="item">
            <h3>{item.title}</h3>
            <p>{item.description}</p>
            {#if item.featured}
                <span class="badge">Featured</span>
            {/if}
        </div>
    {/each}
</div>
"#;

    let start = std::time::Instant::now();

    for _ in 0..100 {
        let ast = parse_template(source).unwrap();
        let ir = transform_ast(ast).unwrap();
        let _lua_code = generate_lua_code(ir, "perf_test").unwrap();
    }

    let duration = start.elapsed();
    println!("100 compilations took: {:?}", duration);

    assert!(duration.as_millis() < 5000);
}
