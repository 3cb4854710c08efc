//! AST to intermediate representation.
//!
//! The transformation drops whitespace-only text and template comments,
//! turns raw HTML into unescaped mustache output, merges the sensitive block
//! variants into their plain counterparts with a flag, and collects the
//! names of the components used. A `{@local}` outside a block is an error.

use vstd::prelude::*;
use crate::ast::{Attribute, AttributeValue, Expression, Node, ScriptBlock, TemplateAST};
use crate::collections::StrSet;
use crate::error::LuatError;
use crate::text::{chars_of, owned, skip_ws, trim};

verus! {

broadcast use vstd::std_specs::vec::axiom_spec_into_iter;

/// Intermediate representation of a template.
#[derive(Debug)]
pub struct IR {
    /// Module-level script.
    pub module_script: Option<ScriptBlock>,
    /// Component script.
    pub regular_script: Option<ScriptBlock>,
    /// The transformed body.
    pub body: Vec<IRNode>,
    /// Names of the components used, in order of first use.
    pub components: StrSet,
}

/// A node of the intermediate representation.
#[derive(Debug)]
pub enum IRNode {
    /// Plain text.
    TextNode {
        /// The text.
        content: String,
    },
    /// An expression to output.
    MustacheNode {
        /// The expression.
        expression: Expression,
        /// Whether the output is HTML-escaped.
        escaped: bool,
    },
    /// A conditional block.
    IfNode {
        /// The condition.
        condition: Expression,
        /// Nodes for a truthy condition.
        then_branch: Vec<IRNode>,
        /// Nodes for a falsy condition.
        else_branch: Option<Vec<IRNode>>,
        /// Whitespace-sensitive block.
        sensitive: bool,
    },
    /// An iteration block.
    EachNode {
        /// The list expression.
        list_expr: Expression,
        /// Name of the current item.
        item_id: String,
        /// Name of the current index.
        index_id: Option<String>,
        /// Nodes per item.
        body: Vec<IRNode>,
        /// Nodes for an empty list.
        empty: Option<Vec<IRNode>>,
        /// Whitespace-sensitive block.
        sensitive: bool,
    },
    /// A `{@local}` declaration.
    LocalConst {
        /// The bound name.
        name: String,
        /// The bound expression.
        expression: Expression,
    },
    /// An HTML element.
    ElementNode {
        /// The tag name.
        tag: String,
        /// The attributes.
        attributes: Vec<IRAttribute>,
        /// The children.
        children: Vec<IRNode>,
    },
    /// A component invocation.
    ComponentNode {
        /// The component name.
        name: String,
        /// The props.
        attributes: Vec<IRAttribute>,
        /// Children, absent when there are none.
        children: Option<Vec<IRNode>>,
    },
    /// The children slot.
    RenderChildren {
        /// No error when there are no children.
        optional: bool,
    },
    /// Pass-through script content.
    ScriptAny {
        /// The content.
        content: String,
    },
    /// An HTML comment.
    HtmlComment {
        /// Its content.
        children: Vec<IRNode>,
    },
}

/// An attribute of the intermediate representation.
#[derive(Debug)]
pub enum IRAttribute {
    /// A named attribute.
    Named {
        /// The name.
        name: String,
        /// The value.
        value: IRAttributeValue,
    },
    /// A spread `{...expr}`.
    Spread(Expression),
}

/// The value of an attribute of the intermediate representation.
#[derive(Debug)]
pub enum IRAttributeValue {
    /// A static string.
    Static(String),
    /// An expression, escaped on output.
    Dynamic(Expression),
    /// An expression, not escaped.
    RawHtml(Expression),
    /// A bare boolean attribute.
    BooleanTrue,
}

/// The message of the error for a misplaced `{@local}`.
pub open spec fn local_error_message() -> Seq<char> {
    "{@local} is only allowed as an immediate child of a block"@
}

/// The node survives the transformation (is not whitespace-only text nor a
/// template comment).
pub open spec fn kept(n: Node) -> bool {
    match n {
        Node::TextNode { content } => trim(content@).len() > 0,
        Node::LuatComment => false,
        _ => true,
    }
}

/// No `{@local}` stands where it is not allowed, anywhere in `n`.
pub open spec fn node_ok(n: Node, in_block: bool) -> bool
    decreases n, 0nat,
{
    match n {
        Node::LocalConst { .. } => in_block,
        Node::IfBlock { then_branch, else_branch, .. } => nodes_ok(then_branch@, true) && match else_branch {
            Some(e) => nodes_ok(e@, true),
            None => true,
        },
        Node::SensitiveIfBlock { then_branch, else_branch, .. } => nodes_ok(then_branch@, true) && match else_branch {
            Some(e) => nodes_ok(e@, true),
            None => true,
        },
        Node::EachBlock { body, empty, .. } => nodes_ok(body@, true) && match empty {
            Some(e) => nodes_ok(e@, true),
            None => true,
        },
        Node::SensitiveEachBlock { body, empty, .. } => nodes_ok(body@, true) && match empty {
            Some(e) => nodes_ok(e@, true),
            None => true,
        },
        Node::ElementNode { children, .. } => nodes_ok(children@, false),
        Node::ComponentNode { children, .. } => nodes_ok(children@, true),
        Node::HtmlComment { children } => nodes_ok(children@, false),
        _ => true,
    }
}

/// [`node_ok`] of every node of `ns`.
pub open spec fn nodes_ok(ns: Seq<Node>, in_block: bool) -> bool
    decreases ns, 1nat,
{
    if ns.len() == 0 {
        true
    } else {
        nodes_ok(ns.drop_last(), in_block) && node_ok(ns.last(), in_block)
    }
}

/// The names of the components used in `n`, in order of use.
pub open spec fn node_components(n: Node) -> Seq<Seq<char>>
    decreases n, 0nat,
{
    match n {
        Node::IfBlock { then_branch, else_branch, .. } => nodes_components(then_branch@) + match else_branch {
            Some(e) => nodes_components(e@),
            None => Seq::empty(),
        },
        Node::SensitiveIfBlock { then_branch, else_branch, .. } => nodes_components(then_branch@) + match else_branch {
            Some(e) => nodes_components(e@),
            None => Seq::empty(),
        },
        Node::EachBlock { body, empty, .. } => nodes_components(body@) + match empty {
            Some(e) => nodes_components(e@),
            None => Seq::empty(),
        },
        Node::SensitiveEachBlock { body, empty, .. } => nodes_components(body@) + match empty {
            Some(e) => nodes_components(e@),
            None => Seq::empty(),
        },
        Node::ElementNode { children, .. } => nodes_components(children@),
        Node::ComponentNode { name, children, .. } => seq![name@] + nodes_components(children@),
        Node::HtmlComment { children } => nodes_components(children@),
        _ => Seq::empty(),
    }
}

/// [`node_components`] of the nodes of `ns`, in order.
pub open spec fn nodes_components(ns: Seq<Node>) -> Seq<Seq<char>>
    decreases ns, 1nat,
{
    if ns.len() == 0 {
        Seq::empty()
    } else {
        nodes_components(ns.drop_last()) + node_components(ns.last())
    }
}

/// The component names used in an optional branch.
pub open spec fn branch_components(b: Option<Vec<Node>>) -> Seq<Seq<char>> {
    match b {
        Some(e) => nodes_components(e@),
        None => Seq::empty(),
    }
}

/// Inserting the names of `s` one by one into a set that starts as `init`.
pub open spec fn insert_all(init: Seq<Seq<char>>, s: Seq<Seq<char>>) -> Seq<Seq<char>>
    decreases s.len(),
{
    if s.len() == 0 {
        init
    } else {
        let d = insert_all(init, s.drop_last());
        if d.contains(s.last()) { d } else { d.push(s.last()) }
    }
}

/// The IR value of an attribute value.
pub open spec fn value_rel(v: AttributeValue, r: IRAttributeValue) -> bool {
    match v {
        AttributeValue::Static(s) => r == IRAttributeValue::Static(s),
        AttributeValue::Dynamic(e) => r == IRAttributeValue::Dynamic(e),
        AttributeValue::RawHtml(e) => r == IRAttributeValue::RawHtml(e),
        AttributeValue::Shorthand(e) => r == IRAttributeValue::Dynamic(e),
        AttributeValue::BooleanTrue => r == IRAttributeValue::BooleanTrue,
    }
}

/// The IR attribute of an attribute.
pub open spec fn attr_rel(a: Attribute, r: IRAttribute) -> bool {
    match a {
        Attribute::Named { name, value } => match r {
            IRAttribute::Named { name: n2, value: v2 } => n2 == name && value_rel(value, v2),
            _ => false,
        },
        Attribute::Spread(e) => r == IRAttribute::Spread(e),
    }
}

/// `out` is the IR of the attributes `attrs`, in order.
pub open spec fn attrs_rel(attrs: Seq<Attribute>, out: Seq<IRAttribute>) -> bool {
    attrs.len() == out.len() && forall|i: int| 0 <= i < attrs.len() ==> #[trigger] attr_rel(attrs[i], out[i])
}

/// `ir` is the IR of the kept node `n`.
pub open spec fn node_rel(n: Node, in_block: bool, ir: IRNode) -> bool
    decreases n, 0nat,
{
    match n {
        Node::TextNode { content } => ir == IRNode::TextNode { content },
        Node::MustacheNode { expression } => ir == IRNode::MustacheNode { expression, escaped: true },
        Node::RawHtml { expression } => ir == IRNode::MustacheNode { expression, escaped: false },
        Node::LocalConst { name, expression } => ir == IRNode::LocalConst { name, expression },
        Node::IfBlock { condition, then_branch, else_branch } => match ir {
            IRNode::IfNode { condition: c, then_branch: t, else_branch: e, sensitive } =>
                c == condition && !sensitive && nodes_rel(then_branch@, true, t@) && opt_rel(else_branch, e),
            _ => false,
        },
        Node::SensitiveIfBlock { condition, then_branch, else_branch } => match ir {
            IRNode::IfNode { condition: c, then_branch: t, else_branch: e, sensitive } =>
                c == condition && sensitive && nodes_rel(then_branch@, true, t@) && opt_rel(else_branch, e),
            _ => false,
        },
        Node::EachBlock { list_expr, item_id, index_id, body, empty } => match ir {
            IRNode::EachNode { list_expr: l, item_id: it, index_id: ix, body: b, empty: e, sensitive } =>
                l == list_expr && it == item_id && ix == index_id && !sensitive && nodes_rel(body@, true, b@)
                    && opt_rel(empty, e),
            _ => false,
        },
        Node::SensitiveEachBlock { list_expr, item_id, index_id, body, empty } => match ir {
            IRNode::EachNode { list_expr: l, item_id: it, index_id: ix, body: b, empty: e, sensitive } =>
                l == list_expr && it == item_id && ix == index_id && sensitive && nodes_rel(body@, true, b@)
                    && opt_rel(empty, e),
            _ => false,
        },
        Node::ElementNode { tag, attributes, children } => match ir {
            IRNode::ElementNode { tag: t, attributes: a, children: c } =>
                t == tag && attrs_rel(attributes@, a@) && nodes_rel(children@, false, c@),
            _ => false,
        },
        Node::ComponentNode { name, attributes, children } => match ir {
            IRNode::ComponentNode { name: nm, attributes: a, children: c } =>
                nm == name && attrs_rel(attributes@, a@) && if children@.len() == 0 {
                    c is None
                } else {
                    c is Some && nodes_rel(children@, true, c->0@)
                },
            _ => false,
        },
        Node::HtmlComment { children } => match ir {
            IRNode::HtmlComment { children: c } => nodes_rel(children@, false, c@),
            _ => false,
        },
        Node::RenderChildren { optional } => ir == IRNode::RenderChildren { optional },
        Node::ScriptAny { tag, content } => ir == IRNode::ScriptAny { content },
        Node::LuatComment => false,
    }
}

/// An optional branch of a block and its IR.
pub open spec fn opt_rel(b: Option<Vec<Node>>, r: Option<Vec<IRNode>>) -> bool
    decreases b, 0nat,
{
    match b {
        Some(ns) => r is Some && nodes_rel(ns@, true, r->0@),
        None => r is None,
    }
}

/// `out` is the IR of the nodes `ns`: the kept ones, transformed, in order.
pub open spec fn nodes_rel(ns: Seq<Node>, in_block: bool, out: Seq<IRNode>) -> bool
    decreases ns, 1nat,
{
    if ns.len() == 0 {
        out.len() == 0
    } else if kept(ns.last()) {
        out.len() > 0 && nodes_rel(ns.drop_last(), in_block, out.drop_last())
            && node_rel(ns.last(), in_block, out.last())
    } else {
        nodes_rel(ns.drop_last(), in_block, out)
    }
}

/// The error a misplaced `{@local}` gives.
pub open spec fn is_local_error(e: LuatError) -> bool {
    match e {
        LuatError::TransformError(m) => m@ == local_error_message(),
        _ => false,
    }
}

fn local_error() -> (e: LuatError)
    ensures
        is_local_error(e),
{
    LuatError::TransformError(owned("{@local} is only allowed as an immediate child of a block"))
}

/// `insert_all` over a concatenation.
pub proof fn lemma_insert_all_append(init: Seq<Seq<char>>, a: Seq<Seq<char>>, b: Seq<Seq<char>>)
    ensures
        insert_all(init, a + b) == insert_all(insert_all(init, a), b),
    decreases b.len(),
{
    if b.len() == 0 {
        assert(a + b =~= a);
    } else {
        lemma_insert_all_append(init, a, b.drop_last());
        assert((a + b).drop_last() =~= a + b.drop_last());
    }
}

/// Transforms an AST into IR.
pub fn transform_ast(ast: TemplateAST) -> (r: Result<IR, LuatError>)
    requires
        ast.body@.len() < usize::MAX,
    ensures
        match r {
            Ok(ir) => {
                &&& nodes_ok(ast.body@, false)
                &&& nodes_rel(ast.body@, false, ir.body@)
                &&& ir.module_script == ast.module_script
                &&& ir.regular_script == ast.regular_script
                &&& ir.components@ == insert_all(Seq::empty(), nodes_components(ast.body@))
                &&& ir.components.wf()
            },
            Err(e) => !nodes_ok(ast.body@, false) && is_local_error(e),
        },
{
    let mut components = StrSet::new();
    let TemplateAST { module_script, regular_script, body, .. } = ast;
    let body = transform_nodes(body, &mut components, false)?;
    Ok(IR { module_script, regular_script, body, components })
}

fn transform_nodes(nodes: Vec<Node>, components: &mut StrSet, in_block: bool) -> (r: Result<
    Vec<IRNode>,
    LuatError,
>)
    requires
        old(components).wf(),
    ensures
        final(components).wf(),
        match r {
            Ok(out) => {
                &&& nodes_ok(nodes@, in_block)
                &&& nodes_rel(nodes@, in_block, out@)
                &&& final(components)@ == insert_all(old(components)@, nodes_components(nodes@))
            },
            Err(e) => !nodes_ok(nodes@, in_block) && is_local_error(e),
        },
    decreases nodes@, 1nat,
{
    let ghost all = nodes@;
    let ghost start = components@;
    let mut out: Vec<IRNode> = Vec::new();
    for node in it: nodes.into_iter()
        invariant
            all == nodes@,
            it.seq() == all,
            components.wf(),
            nodes_ok(all.take(it.index() as int), in_block),
            nodes_rel(all.take(it.index() as int), in_block, out@),
            components@ == insert_all(start, nodes_components(all.take(it.index() as int))),
    {
        let ghost i = it.index() as int;
        let ghost before = components@;
        let ghost before_out = out@;
        proof {
            assert(all.take(i + 1).drop_last() =~= all.take(i));
            assert(all.take(i + 1).last() == all[i]);
            assert(node == all[i]);
        }
        match transform_node(node, components, in_block) {
            Ok(Some(ir)) => {
                out.push(ir);
                proof {
                    assert(out@.drop_last() =~= before_out);
                    lemma_insert_all_append(start, nodes_components(all.take(i)), node_components(all[i]));
                }
            },
            Ok(None) => {
                proof {
                    lemma_insert_all_append(start, nodes_components(all.take(i)), node_components(all[i]));
                }
            },
            Err(e) => {
                proof {
                    lemma_nodes_ok_prefix(all, i + 1, in_block);
                }
                return Err(e);
            },
        }
    }
    proof {
        assert(all.take(all.len() as int) =~= all);
    }
    Ok(out)
}

/// A failing prefix makes the whole sequence fail.
pub proof fn lemma_nodes_ok_prefix(ns: Seq<Node>, k: int, in_block: bool)
    requires
        0 <= k <= ns.len(),
        !nodes_ok(ns.take(k), in_block),
    ensures
        !nodes_ok(ns, in_block),
    decreases ns.len() - k,
{
    if k < ns.len() {
        assert(ns.take(k + 1).drop_last() =~= ns.take(k));
        lemma_nodes_ok_prefix(ns, k + 1, in_block);
    } else {
        assert(ns.take(k) =~= ns);
    }
}

fn transform_branch(branch: Option<Vec<Node>>, components: &mut StrSet) -> (r: Result<
    Option<Vec<IRNode>>,
    LuatError,
>)
    requires
        old(components).wf(),
    ensures
        final(components).wf(),
        match r {
            Ok(out) => {
                &&& (match branch { Some(e) => nodes_ok(e@, true), None => true })
                &&& opt_rel(branch, out)
                &&& final(components)@ == insert_all(old(components)@, branch_components(branch))
            },
            Err(e) => (match branch { Some(e) => !nodes_ok(e@, true), None => false }) && is_local_error(e),
        },
    decreases branch, 1nat,
{
    match branch {
        Some(nodes) => {
            let out = transform_nodes(nodes, components, true)?;
            Ok(Some(out))
        },
        None => Ok(None),
    }
}

fn is_blank(s: &String) -> (b: bool)
    ensures
        b == (trim(s@).len() == 0),
{
    let v = chars_of(s.as_str());
    let a = skip_ws(&v, 0);
    proof {
        crate::text::lemma_skip_ws_bounds(v@, 0);
        crate::text::lemma_trim_end_le(v@.skip(a as int), v@.skip(a as int).len() as int);
        if a < v@.len() {
            lemma_trim_end_keeps(v@.skip(a as int));
        }
    }
    a == v.len()
}

/// Trimming the end keeps a sequence that starts with a non-whitespace character non-empty.
pub proof fn lemma_trim_end_keeps(s: Seq<char>)
    requires
        s.len() > 0,
        !crate::text::is_ws(s[0]),
    ensures
        crate::text::trim_end_from(s, s.len() as int) >= 1,
{
    lemma_trim_end_ge(s, s.len() as int);
}

proof fn lemma_trim_end_ge(s: Seq<char>, j: int)
    requires
        1 <= j <= s.len(),
        !crate::text::is_ws(s[0]),
    ensures
        crate::text::trim_end_from(s, j) >= 1,
    decreases j,
{
    if j > 1 && crate::text::is_ws(s[j - 1]) {
        lemma_trim_end_ge(s, j - 1);
    }
}

fn transform_node(node: Node, components: &mut StrSet, in_block: bool) -> (r: Result<
    Option<IRNode>,
    LuatError,
>)
    requires
        old(components).wf(),
    ensures
        final(components).wf(),
        match r {
            Ok(o) => {
                &&& node_ok(node, in_block)
                &&& (match o { Some(ir) => kept(node) && node_rel(node, in_block, ir), None => !kept(node) })
                &&& final(components)@ == insert_all(old(components)@, node_components(node))
            },
            Err(e) => !node_ok(node, in_block) && is_local_error(e),
        },
    decreases node, 0nat,
{
    let ghost n = node;
    proof {
        assert(insert_all(components@, Seq::empty()) == components@);
    }
    match node {
        Node::TextNode { content } => {
            if is_blank(&content) {
                Ok(None)
            } else {
                Ok(Some(IRNode::TextNode { content }))
            }
        },
        Node::MustacheNode { expression } => Ok(Some(IRNode::MustacheNode { expression, escaped: true })),
        Node::RawHtml { expression } => Ok(Some(IRNode::MustacheNode { expression, escaped: false })),
        Node::LocalConst { name, expression } => {
            if !in_block {
                return Err(local_error());
            }
            Ok(Some(IRNode::LocalConst { name, expression }))
        },
        Node::IfBlock { condition, then_branch, else_branch } => {
            let ghost c0 = components@;
            let ghost gb = else_branch;
            let then_ir = transform_nodes(then_branch, components, true)?;
            let ghost c1 = components@;
            let else_ir = transform_branch(else_branch, components)?;
            proof {
                lemma_insert_all_append(c0, nodes_components(then_branch@), branch_components(gb));
            }
            Ok(Some(IRNode::IfNode { condition, then_branch: then_ir, else_branch: else_ir, sensitive: false }))
        },
        Node::SensitiveIfBlock { condition, then_branch, else_branch } => {
            let ghost c0 = components@;
            let ghost gb = else_branch;
            let then_ir = transform_nodes(then_branch, components, true)?;
            let else_ir = transform_branch(else_branch, components)?;
            proof {
                lemma_insert_all_append(c0, nodes_components(then_branch@), branch_components(gb));
            }
            Ok(Some(IRNode::IfNode { condition, then_branch: then_ir, else_branch: else_ir, sensitive: true }))
        },
        Node::EachBlock { list_expr, item_id, index_id, body, empty } => {
            let ghost c0 = components@;
            let ghost gb = empty;
            let body_ir = transform_nodes(body, components, true)?;
            let empty_ir = transform_branch(empty, components)?;
            proof {
                lemma_insert_all_append(c0, nodes_components(body@), branch_components(gb));
            }
            Ok(Some(IRNode::EachNode { list_expr, item_id, index_id, body: body_ir, empty: empty_ir, sensitive: false }))
        },
        Node::SensitiveEachBlock { list_expr, item_id, index_id, body, empty } => {
            let ghost c0 = components@;
            let ghost gb = empty;
            let body_ir = transform_nodes(body, components, true)?;
            let empty_ir = transform_branch(empty, components)?;
            proof {
                lemma_insert_all_append(c0, nodes_components(body@), branch_components(gb));
            }
            Ok(Some(IRNode::EachNode { list_expr, item_id, index_id, body: body_ir, empty: empty_ir, sensitive: true }))
        },
        Node::ElementNode { tag, attributes, children } => {
            let ir_attributes = transform_attributes(attributes);
            let ir_children = transform_nodes(children, components, false)?;
            Ok(Some(IRNode::ElementNode { tag, attributes: ir_attributes, children: ir_children }))
        },
        Node::ComponentNode { name, attributes, children } => {
            let ghost c0 = components@;
            components.insert(name.as_str());
            let ghost c1 = components@;
            proof {
                assert(seq![name@].drop_last() =~= Seq::<Seq<char>>::empty());
                assert(insert_all(c0, seq![name@]) == c1);
            }
            let ir_attributes = transform_attributes(attributes);
            let ir_children = if children.len() == 0 {
                proof {
                    assert(nodes_components(children@) =~= Seq::<Seq<char>>::empty());
                    assert(nodes_ok(children@, true));
                    lemma_insert_all_append(c0, seq![name@], Seq::empty());
                }
                None
            } else {
                let c = transform_nodes(children, components, true)?;
                proof {
                    lemma_insert_all_append(c0, seq![name@], nodes_components(children@));
                }
                Some(c)
            };
            proof {
                assert(seq![name@] + Seq::<Seq<char>>::empty() =~= seq![name@]);
            }
            Ok(Some(IRNode::ComponentNode { name, attributes: ir_attributes, children: ir_children }))
        },
        Node::HtmlComment { children } => {
            let ir_children = transform_nodes(children, components, false)?;
            Ok(Some(IRNode::HtmlComment { children: ir_children }))
        },
        Node::LuatComment => Ok(None),
        Node::RenderChildren { optional } => Ok(Some(IRNode::RenderChildren { optional })),
        Node::ScriptAny { tag, content } => Ok(Some(IRNode::ScriptAny { content })),
    }
}

fn transform_attributes(attributes: Vec<Attribute>) -> (r: Vec<IRAttribute>)
    ensures
        attrs_rel(attributes@, r@),
{
    let ghost all = attributes@;
    let mut out: Vec<IRAttribute> = Vec::new();
    for attr in it: attributes.into_iter()
        invariant
            it.seq() == all,
            out@.len() == it.index(),
            forall|i: int| 0 <= i < it.index() ==> #[trigger] attr_rel(all[i], out@[i]),
    {
        let ghost a = attr;
        let ir = match attr {
            Attribute::Named { name, value } => {
                let v = match value {
                    AttributeValue::Static(s) => IRAttributeValue::Static(s),
                    AttributeValue::Dynamic(e) => IRAttributeValue::Dynamic(e),
                    AttributeValue::RawHtml(e) => IRAttributeValue::RawHtml(e),
                    AttributeValue::Shorthand(e) => IRAttributeValue::Dynamic(e),
                    AttributeValue::BooleanTrue => IRAttributeValue::BooleanTrue,
                };
                IRAttribute::Named { name, value: v }
            },
            Attribute::Spread(e) => IRAttribute::Spread(e),
        };
        out.push(ir);
        proof {
            assert(attr_rel(a, ir));
        }
    }
    out
}

/// Checks the IR for errors. Every IR that [`transform_ast`] produces is
/// accepted.
pub fn validate_ir(ir: &IR) -> (r: Result<(), LuatError>)
    ensures
        r is Ok,
{
    validate_ir_nodes(&ir.body)
}

fn validate_ir_nodes(nodes: &Vec<IRNode>) -> (r: Result<(), LuatError>)
    ensures
        r is Ok,
    decreases nodes@,
{
    let mut i: usize = 0;
    while i < nodes.len()
        invariant
            i <= nodes@.len(),
        decreases nodes@.len() - i,
    {
        match &nodes[i] {
            IRNode::IfNode { then_branch, else_branch, .. } => {
                assert(decreases_to!(nodes@ => nodes@[i as int]));
                validate_ir_nodes(then_branch)?;
                match else_branch {
                    Some(e) => { validate_ir_nodes(e)?; },
                    None => {},
                }
            },
            IRNode::EachNode { body, empty, .. } => {
                assert(decreases_to!(nodes@ => nodes@[i as int]));
                validate_ir_nodes(body)?;
                match empty {
                    Some(e) => { validate_ir_nodes(e)?; },
                    None => {},
                }
            },
            IRNode::ElementNode { children, .. } => {
                assert(decreases_to!(nodes@ => nodes@[i as int]));
                validate_ir_nodes(children)?;
            },
            IRNode::ComponentNode { children: Some(c), .. } => {
                assert(decreases_to!(nodes@ => nodes@[i as int]));
                validate_ir_nodes(c)?;
            },
            _ => {},
        }
        i = i + 1;
    }
    Ok(())
}

} // verus!
