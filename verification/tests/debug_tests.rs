use luat::parser::parse_template;

fn report(input: &str) -> bool {
    match parse_template(input) {
        Ok(ast) => {
            println!("{:?} parses to {} nodes", input, ast.body.len());
            true
        }
        Err(e) => {
            println!("{:?} fails: {:?}", input, e);
            false
        }
    }
}

#[test]
fn test_diagnose_each_issue() {
    report(r#"{#each items as item}"#);
    report(r#"{/each}"#);
    report(r#"{#each items as item}{/each}"#);
    report(r#"{#each items as item}{/each}"#);
    report(r#"{#each items as item}{/each}"#);
}

#[test]
fn test_expr_and_ident() {
    report(r#"items"#);
    report(r#"item"#);
    report(r#"{#each"#);
}

#[test]
fn test_each_start_components() {
    report(r#"{"#);
    report(r#"{#each"#);
    report(r#" "#);
    report(r#"items"#);
    report(r#"item"#);
    report(r#"{#each "#);
    report(r#"{#each items"#);
    report(r#"{#each items "#);
    report(r#"{#each items as"#);
    report(r#"{#each items as "#);
    report(r#"{#each items as item"#);
    report(r#"{#each items as item}"#);
}

#[test]
fn test_render_children_step_by_step() {
    report(r#"{@render children?.()}"#);
    report(r#"children"#);
    report(r#"?"#);
}

#[test]
fn test_expr_parsing() {
    report(r#"children"#);
    report(r#"children?"#);
}

#[test]
fn test_render_children_debug() {
    report(r#"{@render children?.()}"#);
}

#[test]
fn test_render_children_parts() {
    report(r#"{@render"#);
    report(r#"{@render children?.()}"#);
    report(r#"{@html expr}"#);
    report(r#"{@render children()}"#);
}

#[test]
fn test_optional_call_position() {
    report(r#"{@render children()}"#);
    report(r#"{@render children?.()}"#);
}

#[test]
fn test_simple_attribute() {
    report(r#"class="container""#);
}

#[test]
fn test_each_end() {
    report(r#"{/each}"#);
}

#[test]
fn test_text_hello() {
    report(r#"Hello"#);
}

#[test]
fn test_node_hello() {
    report(r#"Hello"#);
}
