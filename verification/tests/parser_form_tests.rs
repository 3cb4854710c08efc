use luat::ast::Node;
use luat::error::LuatError;
use luat::parser::parse_template;

fn parse_message(source: &str) -> String {
    match parse_template(source) {
        Err(LuatError::ParseError { message, .. }) => message,
        other => panic!("expected a parse error, got {:?}", other),
    }
}

#[test]
fn test_local_binding_form() {
    let ast = parse_template("{@local total = a + b}").unwrap();
    assert_eq!(ast.body.len(), 1);
    match &ast.body[0] {
        Node::LocalConst { name, expression } => {
            assert_eq!(name, "total");
            assert_eq!(expression.content, "a + b");
        }
        other => panic!("unexpected node {:?}", other),
    }
}

#[test]
fn test_local_without_equals_is_refused() {
    assert_eq!(parse_message("{@local total}"), "Expected '=' in {@local}");
}

#[test]
fn test_empty_mustache_is_refused() {
    assert_eq!(parse_message("{   }"), "Empty expression");
}

#[test]
fn test_unclosed_luat_comment_is_refused() {
    assert_eq!(parse_message("{! never closed"), "Unclosed comment");
}

#[test]
fn test_if_with_else_branches() {
    let ast = parse_template("{#if ok}yes{:else}no{/if}").unwrap();
    match &ast.body[0] {
        Node::IfBlock { condition, then_branch, else_branch } => {
            assert_eq!(condition.content, "ok");
            assert_eq!(then_branch.len(), 1);
            match &then_branch[0] {
                Node::TextNode { content } => assert_eq!(content, "yes"),
                other => panic!("unexpected node {:?}", other),
            }
            let els = else_branch.as_ref().unwrap();
            match &els[0] {
                Node::TextNode { content } => assert_eq!(content, "no"),
                other => panic!("unexpected node {:?}", other),
            }
        }
        other => panic!("unexpected node {:?}", other),
    }
}

#[test]
fn test_if_block_errors() {
    assert_eq!(parse_message("{#if }x{/if}"), "Missing condition in {#if}");
    assert_eq!(parse_message("{#if ok}never closed"), "Unclosed {#if} block");
    assert_eq!(parse_message("{#if ok}x{/each}"), "Expected {/if}");
}

#[test]
fn test_each_with_index_and_empty() {
    let ast = parse_template("{#each rows as row, i}r{:empty}none{/each}").unwrap();
    match &ast.body[0] {
        Node::EachBlock { list_expr, item_id, index_id, body, empty } => {
            assert_eq!(list_expr.content, "rows");
            assert_eq!(item_id, "row");
            assert_eq!(index_id.as_deref(), Some("i"));
            assert_eq!(body.len(), 1);
            let e = empty.as_ref().unwrap();
            match &e[0] {
                Node::TextNode { content } => assert_eq!(content, "none"),
                other => panic!("unexpected node {:?}", other),
            }
        }
        other => panic!("unexpected node {:?}", other),
    }
}

#[test]
fn test_each_header_errors() {
    assert_eq!(parse_message("{#each rows}x{/each}"), "Expected 'as' in {#each}");
    assert_eq!(parse_message("{#each rows as }x{/each}"), "Malformed {#each} tag");
    assert_eq!(parse_message("{#each rows as row}x"), "Unclosed {#each} block");
}

#[test]
fn test_void_and_self_closing_elements() {
    let ast = parse_template("<br><Card/>").unwrap();
    assert_eq!(ast.body.len(), 2);
    match &ast.body[0] {
        Node::ElementNode { tag, attributes, children } => {
            assert_eq!(tag, "br");
            assert!(attributes.is_empty());
            assert!(children.is_empty());
        }
        other => panic!("unexpected node {:?}", other),
    }
    match &ast.body[1] {
        Node::ComponentNode { name, children, .. } => {
            assert_eq!(name, "Card");
            assert!(children.is_empty());
        }
        other => panic!("unexpected node {:?}", other),
    }
}

#[test]
fn test_element_errors() {
    assert_eq!(parse_message("<div>text</span>"), "Mismatched closing tag");
    assert_eq!(parse_message("<div>text"), "Unclosed element");
    assert_eq!(parse_message("<div"), "Unclosed tag");
}
