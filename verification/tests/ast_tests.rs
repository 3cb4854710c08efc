use luat::ast::{Expression, Node, Span, TemplateAST};

#[test]
fn test_ast_creation() {
    let mut ast = TemplateAST::new();
    let text_node = Node::TextNode {
        content: "Hello World".to_string(),
    };
    ast.body.push(text_node);
    assert_eq!(ast.body.len(), 1);
}

#[test]
fn test_expression_creation() {
    let span = Span::new(0, 5, 1, 1);
    let expr = Expression::new("hello", span.clone());
    assert_eq!(expr.content, "hello");
    assert_eq!(expr.span, span);
}
