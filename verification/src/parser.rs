//! Template parser.
//!
//! Grammar (characters, not bytes, are the unit of every offset):
//!
//! - text runs up to a `{` or a tag;
//! - `{expr}` mustache, `{@html expr}`, `{@local name = expr}`,
//!   `{@render children()}` / `{@render children?.()}`, `{! comment !}`;
//! - `{#if c}...{:else if c}...{:else}...{/if}`, `{#each list as item, index}
//!   ...{:empty}...{/each}`, their sensitive forms `{!if c}...{/if}`,
//!   `{!each ...}...{/each}`, `{#sif c}...{/sif}`, `{#seach ...}...{/seach}`;
//! - `<tag attrs>children</tag>`, `<tag attrs/>`, void elements, components
//!   (capitalised names), `<!-- ... -->` comments holding text and mustaches;
//! - attributes `name="text"`, `name="{expr}"`, `name={expr}`,
//!   `name={@html expr}`, `name=word`, `name`, `{name}`, `{...expr}`;
//! - at the top level, `<script>` and `<script module>` (or
//!   `<script context="module">`) blocks; other script tags pass through.

use vstd::prelude::*;
use crate::ast::{Attribute, AttributeValue, Expression, Node, ScriptBlock, ScriptType, Span, TemplateAST};
use crate::error::LuatError;
use crate::script_processor::{is_processable, process_script_content, processable, processed};
use crate::text::{
    chars_of, ends_with, find_at, find_char_from, find_from, is_ws, is_ws_char, occurs_at, owned, skip_ws_from, starts_with_at, string_of, string_of_range,
    sub_chars, trim, trim_bounds, views,
};

verus! {

/// 1-indexed line of offset `i`.
pub open spec fn line_at(s: Seq<char>, i: int) -> int
    decreases i,
{
    if i <= 0 || i > s.len() {
        1
    } else {
        line_at(s, i - 1) + (if s[i - 1] == '\n' { 1int } else { 0int })
    }
}

/// 1-indexed column of offset `i`.
pub open spec fn col_at(s: Seq<char>, i: int) -> int
    decreases i,
{
    if i <= 0 || i > s.len() {
        1
    } else if s[i - 1] == '\n' {
        1
    } else {
        col_at(s, i - 1) + 1
    }
}

/// The expression is the source text at its span, and the span's line and
/// column are those of its start.
pub open spec fn expr_wf(s: Seq<char>, e: Expression) -> bool {
    &&& e.span.start <= e.span.end <= s.len()
    &&& e.content@ == s.subrange(e.span.start as int, e.span.end as int)
    &&& e.span.line == line_at(s, e.span.start as int)
    &&& e.span.column == col_at(s, e.span.start as int)
}

/// Every expression of the attribute value is well formed.
pub open spec fn value_wf(s: Seq<char>, v: AttributeValue) -> bool {
    match v {
        AttributeValue::Dynamic(e) => expr_wf(s, e),
        AttributeValue::Shorthand(e) => expr_wf(s, e),
        AttributeValue::RawHtml(e) => expr_wf(s, e),
        _ => true,
    }
}

/// Every expression of the attribute is well formed.
pub open spec fn attr_wf(s: Seq<char>, a: Attribute) -> bool {
    match a {
        Attribute::Spread(e) => expr_wf(s, e),
        Attribute::Named { value, .. } => value_wf(s, value),
    }
}

/// Every attribute is well formed.
pub open spec fn attrs_wf(s: Seq<char>, attrs: Seq<Attribute>) -> bool {
    forall|i: int| 0 <= i < attrs.len() ==> #[trigger] attr_wf(s, attrs[i])
}

/// Every expression in the node is well formed.
pub open spec fn node_wf(s: Seq<char>, n: Node) -> bool
    decreases n, 0nat,
{
    match n {
        Node::ElementNode { attributes, children, .. } => attrs_wf(s, attributes@) && nodes_wf(s, children@),
        Node::MustacheNode { expression } => expr_wf(s, expression),
        Node::HtmlComment { children } => nodes_wf(s, children@),
        Node::IfBlock { condition, then_branch, else_branch } => expr_wf(s, condition) && nodes_wf(s, then_branch@)
            && branch_wf(s, else_branch),
        Node::SensitiveIfBlock { condition, then_branch, else_branch } => expr_wf(s, condition) && nodes_wf(s, then_branch@)
            && branch_wf(s, else_branch),
        Node::EachBlock { list_expr, body, empty, .. } => expr_wf(s, list_expr) && nodes_wf(s, body@) && branch_wf(s, empty),
        Node::SensitiveEachBlock { list_expr, body, empty, .. } => expr_wf(s, list_expr) && nodes_wf(s, body@)
            && branch_wf(s, empty),
        Node::LocalConst { expression, .. } => expr_wf(s, expression),
        Node::RawHtml { expression } => expr_wf(s, expression),
        Node::ComponentNode { attributes, children, .. } => attrs_wf(s, attributes@) && nodes_wf(s, children@),
        _ => true,
    }
}

/// Every expression in the optional branch is well formed.
pub open spec fn branch_wf(s: Seq<char>, b: Option<Vec<Node>>) -> bool
    decreases b, 0nat,
{
    match b {
        Some(v) => nodes_wf(s, v@),
        None => true,
    }
}

/// Every node is well formed.
pub open spec fn nodes_wf(s: Seq<char>, ns: Seq<Node>) -> bool
    decreases ns, 1nat,
{
    if ns.len() == 0 {
        true
    } else {
        nodes_wf(s, ns.drop_last()) && node_wf(s, ns.last())
    }
}

/// A script block is the rewritten text of the source at some range.
pub open spec fn script_wf(s: Seq<char>, b: Option<ScriptBlock>) -> bool {
    match b {
        None => true,
        Some(block) => exists|a: int, e: int| 0 <= a <= e <= s.len() && block.content@ == processed(s.subrange(a, e)),
    }
}

/// The index of the quote `q` closing a string whose text starts at `j`,
/// a backslash escaping the next character; the length of `s` when none
/// does.
pub open spec fn quote_end(s: Seq<char>, j: int, q: char) -> int
    decreases s.len() - j,
{
    if j < 0 || j >= s.len() {
        s.len() as int
    } else if s[j] == q {
        j
    } else if s[j] == '\\' && j + 1 < s.len() {
        quote_end(s, j + 2, q)
    } else {
        quote_end(s, j + 1, q)
    }
}

/// The index of the `}` that brings the brace depth `depth` back to zero,
/// scanning from `k` and skipping quoted strings; none when the text ends
/// first.
pub open spec fn brace_match(s: Seq<char>, k: int, depth: nat) -> Option<usize>
    decreases s.len() - k,
{
    if k < 0 || k >= s.len() || depth == 0 {
        None
    } else if s[k] == '"' || s[k] == '\'' {
        let j = quote_end(s, k + 1, s[k]);
        if j >= s.len() || j <= k {
            None
        } else {
            brace_match(s, j + 1, depth)
        }
    } else if s[k] == '{' {
        brace_match(s, k + 1, depth + 1)
    } else if s[k] == '}' {
        if depth == 1 { Some(k as usize) } else { brace_match(s, k + 1, (depth - 1) as nat) }
    } else {
        brace_match(s, k + 1, depth)
    }
}

/// The end of a string lies at or after where its text starts.
proof fn lemma_quote_end_from(s: Seq<char>, j: int, q: char)
    requires
        0 <= j,
    ensures
        j <= quote_end(s, j, q) <= s.len() || (j > s.len() && quote_end(s, j, q) == s.len()),
    decreases s.len() - j,
{
    if j < s.len() && s[j] != q {
        if s[j] == '\\' && j + 1 < s.len() {
            lemma_quote_end_from(s, j + 2, q);
        } else {
            lemma_quote_end_from(s, j + 1, q);
        }
    }
}

/// The kind of a `<script>` tag from the trimmed text between `<script`
/// and `>`: 0 for a plain one, 1 for a module script, 2 for any other.
pub open spec fn script_kind(attrs: Seq<char>) -> u8 {
    if attrs.len() == 0 {
        0
    } else if attrs == "module"@ || attrs == "context=\"module\""@ || attrs == "context='module'"@ {
        1
    } else {
        2
    }
}

/// Where a tag or attribute name starting at `p` ends: at the first
/// character that ends names, or the end of `s`.
pub open spec fn name_end_from(s: Seq<char>, p: int) -> int
    decreases s.len() - p,
{
    if p < 0 || p >= s.len() {
        if p < 0 { 0 } else { s.len() as int }
    } else if name_stop(s[p]) {
        p
    } else {
        name_end_from(s, p + 1)
    }
}

/// The control tag at `p`, and the offset after it: `</name>`, `{/word}`,
/// `{:else if c}`, `{:else}` or `{:empty}`; none when malformed.
pub open spec fn control_at(s: Seq<char>, p: int) -> Option<(Ctrl, int)> {
    if occurs_at(s, "</"@, p) {
        let a = p + 2;
        let b = name_end_from(s, a);
        let q = skip_ws_from(s, b);
        if q < s.len() && s[q] == '>' { Some((Ctrl::Close(a as usize, b as usize), q + 1)) } else { None }
    } else {
        match brace_match(s, p + 1, 1) {
            None => None,
            Some(close) => {
                let a = skip_ws_from(s, p + 1);
                if a >= close {
                    None
                } else if s[a] == '/' {
                    let e = name_end_from(s, a + 1);
                    Some((Ctrl::End((a + 1) as usize, (if e > close { close as int } else { e }) as usize), close + 1))
                } else if occurs_at(s, ":else"@, a) {
                    let after = a + 5;
                    if after <= close && occurs_at(s, "if"@, after) && after + 2 < s.len()
                        && (is_ws(s[after + 2]) || s[after + 2] == '}') && after + 2 <= close {
                        Some((Ctrl::ElseIf((after + 2) as usize, close), close + 1))
                    } else if after <= close && skip_ws_from(s, after) >= close {
                        Some((Ctrl::Else, close + 1))
                    } else {
                        None
                    }
                } else if occurs_at(s, ":empty"@, a) {
                    Some((Ctrl::Empty, close + 1))
                } else {
                    None
                }
            },
        }
    }
}

/// The module named by the `require` call whose word starts at `k`:
/// `require`, optional whitespace, `(`, optional whitespace, then a string
/// quoted with `"` or `'`; none when the call has another form.
pub open spec fn require_name_at(v: Seq<char>, k: int) -> Option<Seq<char>> {
    let q = skip_ws_from(v, k + 7);
    if 0 <= q < v.len() && v[q] == '(' {
        let q2 = skip_ws_from(v, q + 1);
        if 0 <= q2 < v.len() && (v[q2] == '"' || v[q2] == '\'') {
            match find_char_from(v, v[q2], q2 + 1) {
                Some(e) => Some(v.subrange(q2 + 1, e)),
                None => None,
            }
        } else {
            None
        }
    } else {
        None
    }
}

/// The module names of the `require("...")` calls of `v` from `p` on, in
/// order.
pub open spec fn require_names(v: Seq<char>, p: int) -> Seq<Seq<char>>
    decreases v.len() - p,
{
    if p < 0 || p > v.len() {
        Seq::empty()
    } else {
        match find_from(v, "require"@, p) {
            None => Seq::empty(),
            Some(k) => if k < p || k + 7 > v.len() {
                Seq::empty()
            } else {
                (match require_name_at(v, k) {
                    Some(n) => seq![n],
                    None => Seq::<Seq<char>>::empty(),
                }) + require_names(v, k + 7)
            },
        }
    }
}

/// The modules that a script block requires, in order; none without a
/// block.
pub open spec fn script_imports(b: Option<ScriptBlock>) -> Seq<Seq<char>> {
    match b {
        Some(block) => require_names(block.content@, 0),
        None => Seq::empty(),
    }
}

/// The first `{` at or after `q` and before `end`, else `end`.
pub open spec fn text_stop(s: Seq<char>, q: int, end: int) -> int
    decreases end - q,
{
    if q >= end || q < 0 || q >= s.len() {
        end
    } else if s[q] == '{' {
        q
    } else {
        text_stop(s, q + 1, end)
    }
}

/// The parts of the inside of an HTML comment from `p` to `end`: each
/// `{...}` closing before `end` is an expression (`true`, with the range of
/// its inside), and the text up to the next `{` is text (`false`, with its
/// range).
pub open spec fn comment_parts(s: Seq<char>, p: int, end: int) -> Seq<(bool, int, int)>
    decreases end - p,
{
    if p >= end || p < 0 || p >= s.len() {
        Seq::empty()
    } else {
        let close = brace_match(s, p + 1, 1);
        if s[p] == '{' && close is Some && close->0 < end && close->0 > p {
            seq![(true, p + 1, close->0 as int)] + comment_parts(s, close->0 + 1, end)
        } else {
            let q = text_stop(s, p + 1, end);
            if q <= p || q > end {
                Seq::empty()
            } else {
                seq![(false, p, q)] + comment_parts(s, q, end)
            }
        }
    }
}

/// Node `n` is the comment part `part` of `s`.
pub open spec fn child_is(s: Seq<char>, n: Node, part: (bool, int, int)) -> bool {
    if part.0 {
        n matches Node::MustacheNode { expression } && expression.content@ == trim(s.subrange(part.1, part.2))
    } else {
        n matches Node::TextNode { content } && content@ == s.subrange(part.1, part.2)
    }
}

/// The children of a comment are its parts, in order.
pub open spec fn comment_children(s: Seq<char>, children: Seq<Node>, parts: Seq<(bool, int, int)>) -> bool {
    &&& children.len() == parts.len()
    &&& forall|k: int| 0 <= k < parts.len() ==> #[trigger] child_is(s, children[k], parts[k])
}

/// A non-empty `lit` stands at `i`, followed by whitespace or `end`.
pub open spec fn word_at(s: Seq<char>, i: int, lit: Seq<char>, end: char) -> bool {
    lit.len() > 0 && occurs_at(s, lit, i) && i + lit.len() < s.len()
        && (is_ws(s[i + lit.len()]) || s[i + lit.len()] == end)
}

/// A block opens at `pos`: `{#if`, `{#sif`, `{#each`, `{#seach`, `{!if` or
/// `{!each`.
pub open spec fn block_opener(s: Seq<char>, pos: int) -> bool {
    ||| word_at(s, pos, "{!if"@, '}')
    ||| word_at(s, pos, "{!each"@, '}')
    ||| word_at(s, pos, "{#if"@, '}')
    ||| word_at(s, pos, "{#sif"@, '}')
    ||| word_at(s, pos, "{#each"@, '}')
    ||| word_at(s, pos, "{#seach"@, '}')
}

/// The first `=` at or after `l` and before `close`.
pub open spec fn local_eq(s: Seq<char>, l: int, close: int) -> Option<int> {
    match find_char_from(s, '=', l) {
        Some(k) => if k < close { Some(k) } else { None },
        None => None,
    }
}

/// What `{...}` at `pos` gives when it opens no block: a comment, a
/// directive or a mustache; `None` for an error at `pos`.
pub open spec fn brace_form_ok(s: Seq<char>, pos: int, n: Node, q: int) -> bool {
    if occurs_at(s, "{!"@, pos) {
        match find_from(s, "!}"@, pos + 2) {
            Some(k) => n is LuatComment && q == k + 2,
            None => false,
        }
    } else {
        match brace_match(s, pos + 1, 1) {
            None => false,
            Some(close) => {
                let close = close as int;
                if word_at(s, pos, "{@html"@, '}') {
                    pos + 6 <= close && q == close + 1
                        && (n matches Node::RawHtml { expression } && expression.content@ == trim(s.subrange(pos + 6, close)))
                } else if word_at(s, pos, "{@local"@, '}') {
                    pos + 7 <= close && q == close + 1 && match local_eq(s, pos + 7, close) {
                        Some(eq) => n matches Node::LocalConst { name, expression } && name@ == trim(s.subrange(pos + 7, eq))
                            && expression.content@ == trim(s.subrange(eq + 1, close)),
                        None => false,
                    }
                } else if word_at(s, pos, "{@render"@, '}') {
                    pos + 8 <= close && q == close + 1 && (n matches Node::RenderChildren { optional }
                        && optional == ends_with(trim(s.subrange(pos + 8, close)), "?.()"@))
                } else if occurs_at(s, "{@"@, pos) {
                    false
                } else {
                    trim(s.subrange(pos + 1, close)).len() > 0 && q == close + 1 && (n matches Node::MustacheNode { expression }
                        && expression.content@ == trim(s.subrange(pos + 1, close)))
                }
            },
        }
    }
}

/// A `{...}` that opens no block parses: every form but a malformed one.
pub open spec fn brace_form_parses(s: Seq<char>, pos: int) -> bool {
    if occurs_at(s, "{!"@, pos) {
        find_from(s, "!}"@, pos + 2) is Some
    } else {
        match brace_match(s, pos + 1, 1) {
            None => false,
            Some(close) => {
                let close = close as int;
                if word_at(s, pos, "{@html"@, '}') {
                    pos + 6 <= close
                } else if word_at(s, pos, "{@local"@, '}') {
                    pos + 7 <= close && local_eq(s, pos + 7, close) is Some
                } else if word_at(s, pos, "{@render"@, '}') {
                    pos + 8 <= close
                } else if occurs_at(s, "{@"@, pos) {
                    false
                } else {
                    trim(s.subrange(pos + 1, close)).len() > 0
                }
            },
        }
    }
}

/// A tag starts at `p`: `<` followed by a letter, `/` or `!`.
pub open spec fn tag_start_at(s: Seq<char>, p: int) -> bool {
    0 <= p && p + 1 < s.len() && s[p] == '<' && {
        let c = s[p + 1];
        ('a' <= c <= 'z') || ('A' <= c <= 'Z') || c == '/' || c == '!'
    }
}

/// No `{` and no `<` in `s[a..b]`.
pub open spec fn plain_between(s: Seq<char>, a: int, b: int) -> bool {
    forall|i: int| a <= i < b ==> #[trigger] s[i] != '{' && s[i] != '<'
}

/// A control tag (`{/`, `{:` or `</`) starts at `p`.
pub open spec fn control_word(s: Seq<char>, p: int) -> bool {
    occurs_at(s, "{/"@, p) || occurs_at(s, "{:"@, p) || occurs_at(s, "</"@, p)
}

/// `s[a..t]` is plain text and a run of nodes from `a` stops at `t`: the
/// end, or a control tag.
pub open spec fn text_then(s: Seq<char>, a: int, t: int) -> bool {
    0 <= a <= t <= s.len() && plain_between(s, a, t) && (t == s.len() || control_word(s, t))
}

/// `ns` is what a run of plain text `s[a..t]` parses to: nothing when it
/// is empty, else one text node.
pub open spec fn plain_nodes(s: Seq<char>, ns: Seq<Node>, a: int, t: int) -> bool {
    if a == t {
        ns.len() == 0
    } else {
        ns.len() == 1 && (ns[0] matches Node::TextNode { content } && content@ == s.subrange(a, t))
    }
}

/// A character that ends a tag or attribute name.
pub open spec fn name_stop(c: char) -> bool {
    is_ws(c) || c == '=' || c == '>' || c == '/' || c == '{' || c == '"' || c == '\'' || c == '<'
}

/// `s` holds no `{` and no `<`: it is all text.
pub open spec fn plain_text(s: Seq<char>) -> bool {
    forall|i: int| 0 <= i < s.len() ==> s[i] != '{' && s[i] != '<'
}

/// The parse errors.
pub open spec fn is_parse_failure(e: LuatError) -> bool {
    ||| e is ParseError
    ||| e is MultipleModuleScripts
    ||| e is MultipleRegularScripts
    ||| e is ModuleScriptNotFirst
}

// ---------------------------------------------------------------------------
// The template grammar, as spec functions over the source text
// ---------------------------------------------------------------------------
//
// Each function reads one form at an offset and gives what it reads with
// the offset after it, or the error that the parser reports (message and
// offset). A step that would not move forward gives an error with an empty
// message; the parser never takes such a step, and that condition keeps the
// recursion well founded.

/// An expression as the grammar reads it: its trimmed text and where that
/// text stands, with the line and column of its start.
pub struct SExpr {
    pub content: Seq<char>,
    pub start: int,
    pub end: int,
    pub line: int,
    pub column: int,
}

/// An attribute value as the grammar reads it.
pub enum SValue {
    Static(Seq<char>),
    Dynamic(SExpr),
    Shorthand(SExpr),
    RawHtml(SExpr),
    BooleanTrue,
}

/// An attribute as the grammar reads it.
pub enum SAttr {
    Named(Seq<char>, SValue),
    Spread(SExpr),
}

/// A node as the grammar reads it; a block's flag says whether it is the
/// sensitive form.
pub enum SNode {
    Element(Seq<char>, Seq<SAttr>, Seq<SNode>),
    Text(Seq<char>),
    Mustache(SExpr),
    HtmlComment(Seq<SNode>),
    LuatComment,
    If(bool, SExpr, Seq<SNode>, Option<Seq<SNode>>),
    Each(bool, SExpr, Seq<char>, Option<Seq<char>>, Seq<SNode>, Option<Seq<SNode>>),
    Local(Seq<char>, SExpr),
    RawHtml(SExpr),
    Component(Seq<char>, Seq<SAttr>, Seq<SNode>),
    RenderChildren(bool),
    ScriptAny(Seq<char>, Seq<char>),
}

/// A script block as the grammar reads it: kind, rewritten text, and the
/// span of its tags with the line and column of their start.
pub struct SScript {
    pub module: bool,
    pub content: Seq<char>,
    pub start: int,
    pub end: int,
    pub line: int,
    pub column: int,
}

/// A template as the grammar reads it.
pub struct STemplate {
    pub module_script: Option<SScript>,
    pub regular_script: Option<SScript>,
    pub body: Seq<SNode>,
    pub imports: Seq<Seq<char>>,
}

/// Why a template does not parse: a syntax error (message, line, column),
/// or a misplaced script block.
pub enum STemplateError {
    Syntax(Seq<char>, int, int),
    MultipleModuleScripts,
    MultipleRegularScripts,
    ModuleScriptNotFirst,
    Other,
}

/// A syntax error: message and offset.
pub type SErr = (Seq<char>, int);

/// The view of an expression.
pub open spec fn expr_view(e: Expression) -> SExpr {
    SExpr {
        content: e.content@,
        start: e.span.start as int,
        end: e.span.end as int,
        line: e.span.line as int,
        column: e.span.column as int,
    }
}

/// The view of an attribute value.
pub open spec fn value_view(v: AttributeValue) -> SValue {
    match v {
        AttributeValue::Static(t) => SValue::Static(t@),
        AttributeValue::Dynamic(e) => SValue::Dynamic(expr_view(e)),
        AttributeValue::Shorthand(e) => SValue::Shorthand(expr_view(e)),
        AttributeValue::RawHtml(e) => SValue::RawHtml(expr_view(e)),
        AttributeValue::BooleanTrue => SValue::BooleanTrue,
    }
}

/// The view of an attribute.
pub open spec fn attr_view(a: Attribute) -> SAttr {
    match a {
        Attribute::Named { name, value } => SAttr::Named(name@, value_view(value)),
        Attribute::Spread(e) => SAttr::Spread(expr_view(e)),
    }
}

/// The views of attributes.
pub open spec fn attrs_view(attrs: Seq<Attribute>) -> Seq<SAttr> {
    attrs.map_values(|a: Attribute| attr_view(a))
}

/// The view of a node.
pub open spec fn node_view(n: Node) -> SNode
    decreases n, 0nat,
{
    match n {
        Node::ElementNode { tag, attributes, children } =>
            SNode::Element(tag@, attrs_view(attributes@), nodes_view(children@)),
        Node::TextNode { content } => SNode::Text(content@),
        Node::MustacheNode { expression } => SNode::Mustache(expr_view(expression)),
        Node::HtmlComment { children } => SNode::HtmlComment(nodes_view(children@)),
        Node::LuatComment => SNode::LuatComment,
        Node::IfBlock { condition, then_branch, else_branch } =>
            SNode::If(false, expr_view(condition), nodes_view(then_branch@), branch_view(else_branch)),
        Node::SensitiveIfBlock { condition, then_branch, else_branch } =>
            SNode::If(true, expr_view(condition), nodes_view(then_branch@), branch_view(else_branch)),
        Node::EachBlock { list_expr, item_id, index_id, body, empty } => SNode::Each(
            false,
            expr_view(list_expr),
            item_id@,
            match index_id { Some(i) => Some(i@), None => None },
            nodes_view(body@),
            branch_view(empty),
        ),
        Node::SensitiveEachBlock { list_expr, item_id, index_id, body, empty } => SNode::Each(
            true,
            expr_view(list_expr),
            item_id@,
            match index_id { Some(i) => Some(i@), None => None },
            nodes_view(body@),
            branch_view(empty),
        ),
        Node::LocalConst { name, expression } => SNode::Local(name@, expr_view(expression)),
        Node::RawHtml { expression } => SNode::RawHtml(expr_view(expression)),
        Node::ComponentNode { name, attributes, children } =>
            SNode::Component(name@, attrs_view(attributes@), nodes_view(children@)),
        Node::RenderChildren { optional } => SNode::RenderChildren(optional),
        Node::ScriptAny { tag, content } => SNode::ScriptAny(tag@, content@),
    }
}

/// The view of an optional branch.
pub open spec fn branch_view(b: Option<Vec<Node>>) -> Option<Seq<SNode>>
    decreases b, 0nat,
{
    match b {
        Some(ns) => Some(nodes_view(ns@)),
        None => None,
    }
}

/// The views of nodes.
pub open spec fn nodes_view(ns: Seq<Node>) -> Seq<SNode>
    decreases ns, 1nat,
{
    if ns.len() == 0 {
        Seq::empty()
    } else {
        nodes_view(ns.drop_last()).push(node_view(ns.last()))
    }
}

/// The view of a script block.
pub open spec fn script_view(b: Option<ScriptBlock>) -> Option<SScript> {
    match b {
        Some(x) => Some(SScript {
            module: x.script_type == ScriptType::Module,
            content: x.content@,
            start: x.span.start as int,
            end: x.span.end as int,
            line: x.span.line as int,
            column: x.span.column as int,
        }),
        None => None,
    }
}

/// The view of what parsing a template gives.
pub open spec fn template_view(r: Result<TemplateAST, LuatError>) -> Result<STemplate, STemplateError> {
    match r {
        Ok(ast) => Ok(STemplate {
            module_script: script_view(ast.module_script),
            regular_script: script_view(ast.regular_script),
            body: nodes_view(ast.body@),
            imports: views(ast.imports@),
        }),
        Err(LuatError::ParseError { message, line, column, file: None, source_context: None }) =>
            Err(STemplateError::Syntax(message@, line as int, column as int)),
        Err(LuatError::MultipleModuleScripts) => Err(STemplateError::MultipleModuleScripts),
        Err(LuatError::MultipleRegularScripts) => Err(STemplateError::MultipleRegularScripts),
        Err(LuatError::ModuleScriptNotFirst) => Err(STemplateError::ModuleScriptNotFirst),
        Err(_) => Err(STemplateError::Other),
    }
}

/// The expression whose text is `s[a..b]` trimmed.
pub open spec fn expr_at(s: Seq<char>, a: int, b: int) -> SExpr {
    let x = a + skip_ws_from(s.subrange(a, b), 0);
    let t = trim(s.subrange(a, b));
    SExpr { content: t, start: x, end: x + t.len(), line: line_at(s, x), column: col_at(s, x) }
}

/// The offset after a non-empty `lit` at `i`.
pub open spec fn lit_end(s: Seq<char>, i: int, lit: Seq<char>) -> Option<int> {
    if lit.len() > 0 && occurs_at(s, lit, i) { Some(i + lit.len()) } else { None }
}

/// The end of a run of text from `q` on: the next `{` or tag start, or
/// the end.
pub open spec fn text_end_from(s: Seq<char>, q: int) -> int
    decreases s.len() - q,
{
    if q < 0 || q >= s.len() {
        s.len() as int
    } else if s[q] == '{' || tag_start_at(s, q) {
        q
    } else {
        text_end_from(s, q + 1)
    }
}

/// The end of an unquoted attribute value from `e` on: whitespace, `>` or
/// `/>`, or the end.
pub open spec fn bare_value_end(s: Seq<char>, e: int) -> int
    decreases s.len() - e,
{
    if e < 0 || e >= s.len() {
        s.len() as int
    } else if is_ws(s[e]) || s[e] == '>' || occurs_at(s, "/>"@, e) {
        e
    } else {
        bare_value_end(s, e + 1)
    }
}

/// A control tag at `p`: `</name>`, `{/word}`, `{:else}`, `{:else if c}`
/// or `{:empty}`, with where it ends; or why it is none of them.
pub open spec fn control_spec(s: Seq<char>, p: int) -> Result<(Ctrl, int), SErr> {
    if occurs_at(s, "</"@, p) {
        let a = p + 2;
        let b = name_end_from(s, a);
        let q = skip_ws_from(s, b);
        if q < s.len() && s[q] == '>' {
            Ok((Ctrl::Close(a as usize, b as usize), q + 1))
        } else {
            Err(("Malformed closing tag"@, p))
        }
    } else {
        match brace_match(s, p + 1, 1) {
            None => Err(("Unclosed control tag"@, p)),
            Some(close) => {
                let close = close as int;
                let a = skip_ws_from(s, p + 1);
                if a >= close {
                    Err(("Empty control tag"@, p))
                } else if s[a] == '/' {
                    let e = name_end_from(s, a + 1);
                    Ok((Ctrl::End((a + 1) as usize, (if e > close { close } else { e }) as usize), close + 1))
                } else if occurs_at(s, ":else"@, a) {
                    let after = a + 5;
                    if after <= close && word_at(s, after, "if"@, '}') && after + 2 <= close {
                        Ok((Ctrl::ElseIf((after + 2) as usize, close as usize), close + 1))
                    } else if after <= close && skip_ws_from(s, after) >= close {
                        Ok((Ctrl::Else, close + 1))
                    } else {
                        Err(("Malformed {:else} tag"@, p))
                    }
                } else if occurs_at(s, ":empty"@, a) {
                    Ok((Ctrl::Empty, close + 1))
                } else {
                    Err(("Unknown control tag"@, p))
                }
            },
        }
    }
}

/// The value of a quoted attribute `s[a..b]`: `{@html e}` and `{e}` are
/// expressions, anything else is static text.
pub open spec fn quoted_spec(s: Seq<char>, a: int, b: int) -> SValue {
    let sub = s.subrange(a, b);
    let t = trim(sub);
    let x = a + skip_ws_from(sub, 0);
    let close = x + t.len() - 1;
    if t.len() > 0 && t[0] == '{' && t.last() == '}' && brace_match(s, x + 1, 1) == Some(close as usize) {
        if word_at(s, x, "{@html"@, '}') && x + 6 <= close {
            SValue::RawHtml(expr_at(s, x + 6, close))
        } else {
            SValue::Dynamic(expr_at(s, x + 1, close))
        }
    } else {
        SValue::Static(sub)
    }
}

/// One attribute starting at `p` (not whitespace, `>` or `/>`), with where
/// it ends.
pub open spec fn attr_spec(s: Seq<char>, p: int) -> Result<(SAttr, int), SErr> {
    if s[p] == '{' {
        match brace_match(s, p + 1, 1) {
            None => Err(("Unclosed attribute expression"@, p)),
            Some(close) => {
                let close = close as int;
                match lit_end(s, p, "{..."@) {
                    Some(e) => if e <= close {
                        Ok((SAttr::Spread(expr_at(s, e, close)), close + 1))
                    } else {
                        Ok((SAttr::Named(expr_at(s, p + 1, close).content, SValue::Shorthand(expr_at(s, p + 1, close))), close + 1))
                    },
                    None => Ok((SAttr::Named(expr_at(s, p + 1, close).content, SValue::Shorthand(expr_at(s, p + 1, close))), close + 1)),
                }
            },
        }
    } else {
        let b = name_end_from(s, p);
        if b == p {
            Err(("Invalid attribute"@, p))
        } else {
            let name = s.subrange(p, b);
            if b < s.len() && s[b] == '=' {
                let v = b + 1;
                if v >= s.len() {
                    Err(("Missing attribute value"@, b))
                } else if s[v] == '"' || s[v] == '\'' {
                    match find_char_from(s, s[v], v + 1) {
                        None => Err(("Unclosed attribute value"@, v)),
                        Some(e) => Ok((SAttr::Named(name, quoted_spec(s, v + 1, e)), e + 1)),
                    }
                } else if s[v] == '{' {
                    match brace_match(s, v + 1, 1) {
                        None => Err(("Unclosed attribute expression"@, v)),
                        Some(close) => {
                            let close = close as int;
                            if word_at(s, v, "{@html"@, '}') && v + 6 <= close {
                                Ok((SAttr::Named(name, SValue::RawHtml(expr_at(s, v + 6, close))), close + 1))
                            } else {
                                Ok((SAttr::Named(name, SValue::Dynamic(expr_at(s, v + 1, close))), close + 1))
                            }
                        },
                    }
                } else {
                    let e = bare_value_end(s, v);
                    if e == v {
                        Err(("Missing attribute value"@, v))
                    } else {
                        Ok((SAttr::Named(name, SValue::Static(s.subrange(v, e))), e))
                    }
                }
            } else {
                Ok((SAttr::Named(name, SValue::BooleanTrue), b))
            }
        }
    }
}

/// The attributes of an opening tag from `p` on, up to `>` or `/>`: the
/// attributes, the offset after the tag, and whether it closed itself. An
/// unclosed tag is an error at `pos`, where the attributes began.
pub open spec fn attrs_spec(s: Seq<char>, pos: int, p: int) -> Result<(Seq<SAttr>, int, bool), SErr>
    decreases s.len() - p,
{
    let p1 = skip_ws_from(s, p);
    if p < 0 || p1 < p {
        Err((Seq::empty(), p))
    } else if p1 >= s.len() {
        Err(("Unclosed tag"@, pos))
    } else if occurs_at(s, "/>"@, p1) {
        Ok((Seq::empty(), p1 + 2, true))
    } else if s[p1] == '>' {
        Ok((Seq::empty(), p1 + 1, false))
    } else {
        match attr_spec(s, p1) {
            Err(e) => Err(e),
            Ok((a, q)) => if q <= p1 || q > s.len() {
                Err((Seq::empty(), p1))
            } else {
                match attrs_spec(s, pos, q) {
                    Err(e) => Err(e),
                    Ok((rest, q2, closed)) => Ok((seq![a] + rest, q2, closed)),
                }
            },
        }
    }
}

/// The node that a comment part stands for: a mustache for an expression
/// part, text otherwise.
pub open spec fn part_node(s: Seq<char>, part: (bool, int, int)) -> SNode {
    if part.0 {
        SNode::Mustache(expr_at(s, part.1, part.2))
    } else {
        SNode::Text(s.subrange(part.1, part.2))
    }
}

/// An HTML comment at `pos` whose text starts at `start`.
pub open spec fn comment_spec(s: Seq<char>, pos: int, start: int) -> Result<(SNode, int), SErr> {
    match find_from(s, "-->"@, start) {
        None => Err(("Unclosed HTML comment"@, pos)),
        Some(end) => Ok((
            SNode::HtmlComment(comment_parts(s, start, end).map_values(|part: (bool, int, int)| part_node(s, part))),
            end + 3,
        )),
    }
}

/// A `<script ...>...</script>` tag at `pos` whose attributes start at
/// `start`: its kind (0 regular, 1 module, 2 other), the ranges of the
/// opening tag and of the content, and the offset after it.
pub open spec fn script_tag_spec(s: Seq<char>, pos: int, start: int) -> Result<((u8, int, int, int, int), int), SErr> {
    match find_char_from(s, '>', start) {
        None => Err(("Unclosed script tag"@, pos)),
        Some(gt) => match find_from(s, "</script>"@, gt + 1) {
            None => Err(("Unclosed script tag"@, pos)),
            Some(end) => Ok(((script_kind(trim(s.subrange(start, gt))), pos, gt + 1, gt + 1, end), end + 9)),
        },
    }
}

/// A run of nodes from `pos`, up to the end or a control tag.
pub open spec fn nodes_spec(s: Seq<char>, pos: int) -> Result<(Seq<SNode>, int), SErr>
    decreases s.len() - pos, 3nat,
{
    if pos < 0 || pos >= s.len() || control_word(s, pos) {
        Ok((Seq::empty(), pos))
    } else {
        match node_spec(s, pos) {
            Err(e) => Err(e),
            Ok((n, q)) => if q <= pos || q > s.len() {
                Err((Seq::empty(), pos))
            } else {
                match nodes_spec(s, q) {
                    Err(e) => Err(e),
                    Ok((ns, q2)) => Ok((seq![n] + ns, q2)),
                }
            },
        }
    }
}

/// One node at `pos`.
pub open spec fn node_spec(s: Seq<char>, pos: int) -> Result<(SNode, int), SErr>
    decreases s.len() - pos, 2nat,
{
    if pos < 0 || pos >= s.len() {
        Err((Seq::empty(), pos))
    } else if s[pos] == '{' {
        brace_spec(s, pos)
    } else if s[pos] == '<' && tag_start_at(s, pos) && occurs_at(s, "<!--"@, pos) {
        comment_spec(s, pos, pos + 4)
    } else if s[pos] == '<' && tag_start_at(s, pos) && word_at(s, pos, "<script"@, '>') {
        match script_tag_spec(s, pos, pos + 7) {
            Err(e) => Err(e),
            Ok((t, q)) => Ok((SNode::ScriptAny(s.subrange(t.1, t.2), s.subrange(t.3, t.4)), q)),
        }
    } else if s[pos] == '<' && tag_start_at(s, pos)
        && (('a' <= s[pos + 1] <= 'z') || ('A' <= s[pos + 1] <= 'Z')) {
        element_spec(s, pos)
    } else {
        let q = text_end_from(s, pos + 1);
        Ok((SNode::Text(s.subrange(pos, q)), q))
    }
}

/// `{...}` at `pos`: a block, a comment, a directive or a mustache.
pub open spec fn brace_spec(s: Seq<char>, pos: int) -> Result<(SNode, int), SErr>
    decreases s.len() - pos, 1nat,
{
    if pos < 0 || pos >= s.len() {
        Err((Seq::empty(), pos))
    } else if occurs_at(s, "{!"@, pos) {
        if word_at(s, pos, "{!if"@, '}') {
            if_spec(s, pos, pos + 4, true, false)
        } else if word_at(s, pos, "{!each"@, '}') {
            each_spec(s, pos, pos + 6, true, false)
        } else {
            match find_from(s, "!}"@, pos + 2) {
                Some(k) => Ok((SNode::LuatComment, k + 2)),
                None => Err(("Unclosed comment"@, pos)),
            }
        }
    } else if word_at(s, pos, "{#if"@, '}') {
        if_spec(s, pos, pos + 4, false, false)
    } else if word_at(s, pos, "{#sif"@, '}') {
        if_spec(s, pos, pos + 5, true, true)
    } else if word_at(s, pos, "{#each"@, '}') {
        each_spec(s, pos, pos + 6, false, false)
    } else if word_at(s, pos, "{#seach"@, '}') {
        each_spec(s, pos, pos + 7, true, true)
    } else {
        match brace_match(s, pos + 1, 1) {
            None => Err(("Unclosed expression"@, pos)),
            Some(close) => {
                let close = close as int;
                if word_at(s, pos, "{@html"@, '}') {
                    if pos + 6 > close {
                        Err(("Malformed {@html}"@, pos))
                    } else {
                        Ok((SNode::RawHtml(expr_at(s, pos + 6, close)), close + 1))
                    }
                } else if word_at(s, pos, "{@local"@, '}') {
                    if pos + 7 > close {
                        Err(("Malformed {@local}"@, pos))
                    } else {
                        match local_eq(s, pos + 7, close) {
                            None => Err(("Expected '=' in {@local}"@, pos)),
                            Some(eq) => Ok((SNode::Local(trim(s.subrange(pos + 7, eq)), expr_at(s, eq + 1, close)), close + 1)),
                        }
                    }
                } else if word_at(s, pos, "{@render"@, '}') {
                    if pos + 8 > close {
                        Err(("Malformed {@render}"@, pos))
                    } else {
                        Ok((SNode::RenderChildren(ends_with(trim(s.subrange(pos + 8, close)), "?.()"@)), close + 1))
                    }
                } else if occurs_at(s, "{@"@, pos) {
                    Err(("Unknown directive"@, pos))
                } else if expr_at(s, pos + 1, close).content.len() == 0 {
                    Err(("Empty expression"@, pos))
                } else {
                    Ok((SNode::Mustache(expr_at(s, pos + 1, close)), close + 1))
                }
            },
        }
    }
}

/// Whether `s[a..b]` is the word that ends an if block (`sif` or `if`).
pub open spec fn ends_if(s: Seq<char>, a: int, b: int, sif: bool) -> bool {
    (sif && s.subrange(a, b) == "sif"@) || (!sif && s.subrange(a, b) == "if"@)
}

/// `{#if c}` (or a sensitive form) at `pos`, the condition from `kw` on.
pub open spec fn if_spec(s: Seq<char>, pos: int, kw: int, sensitive: bool, sif: bool) -> Result<(SNode, int), SErr>
    decreases s.len() - pos, 0nat,
{
    if pos < 0 || pos >= s.len() {
        Err((Seq::empty(), pos))
    } else {
    match brace_match(s, pos + 1, 1) {
        None => Err(("Unclosed {#if} tag"@, pos)),
        Some(close) => {
            let close = close as int;
            if kw > close {
                Err(("Malformed {#if} tag"@, pos))
            } else if expr_at(s, kw, close).content.len() == 0 {
                Err(("Missing condition in {#if}"@, pos))
            } else if close + 1 <= pos || close + 1 > s.len() {
                Err((Seq::empty(), pos))
            } else {
                if_rest_spec(s, expr_at(s, kw, close), close + 1, sensitive, sif)
            }
        },
    }
    }
}

/// The branches of an if block with condition `cond`, from `p` on.
pub open spec fn if_rest_spec(s: Seq<char>, cond: SExpr, p: int, sensitive: bool, sif: bool) -> Result<(SNode, int), SErr>
    decreases s.len() - p, 4nat,
{
    if p < 0 || p > s.len() {
        Err((Seq::empty(), p))
    } else {
    match nodes_spec(s, p) {
        Err(e) => Err(e),
        Ok((th, q)) => if q >= s.len() {
            Err(("Unclosed {#if} block"@, p))
        } else {
            match control_spec(s, q) {
                Err(e) => Err(e),
                Ok((ctrl, r)) => if r <= p || r > s.len() {
                    Err((Seq::empty(), p))
                } else {
                    match ctrl {
                        Ctrl::End(a, b) => if ends_if(s, a as int, b as int, sif) {
                            Ok((SNode::If(sensitive, cond, th, None), r))
                        } else {
                            Err(("Expected {/if}"@, q))
                        },
                        Ctrl::Else => match nodes_spec(s, r) {
                            Err(e) => Err(e),
                            Ok((el, q2)) => if q2 >= s.len() {
                                Err(("Unclosed {:else} block"@, r))
                            } else {
                                match control_spec(s, q2) {
                                    Err(e) => Err(e),
                                    Ok((Ctrl::End(a, b), r2)) => if ends_if(s, a as int, b as int, sif) {
                                        Ok((SNode::If(sensitive, cond, th, Some(el)), r2))
                                    } else {
                                        Err(("Expected {/if}"@, q2))
                                    },
                                    Ok(_) => Err(("Expected {/if}"@, q2)),
                                }
                            },
                        },
                        Ctrl::ElseIf(a, b) => match if_rest_spec(s, expr_at(s, a as int, b as int), r, sensitive, sif) {
                            Err(e) => Err(e),
                            Ok((nested, r2)) => Ok((SNode::If(sensitive, cond, th, Some(seq![nested])), r2)),
                        },
                        _ => Err(("Expected {/if}"@, q)),
                    }
                }
            }
        },
    }
    }
}

/// Whether `s[a..b]` is the word that ends an each block (`seach` or
/// `each`).
pub open spec fn ends_each(s: Seq<char>, a: int, b: int, seach: bool) -> bool {
    (seach && s.subrange(a, b) == "seach"@) || (!seach && s.subrange(a, b) == "each"@)
}

/// `{#each list as item, index}` (or a sensitive form) at `pos`, the list
/// from `kw` on.
pub open spec fn each_spec(s: Seq<char>, pos: int, kw: int, sensitive: bool, seach: bool) -> Result<(SNode, int), SErr>
    decreases s.len() - pos, 0nat,
{
    if pos < 0 || pos >= s.len() {
        Err((Seq::empty(), pos))
    } else {
    match brace_match(s, pos + 1, 1) {
        None => Err(("Unclosed {#each} tag"@, pos)),
        Some(close) => {
            let close = close as int;
            if kw > close {
                Err(("Malformed {#each} tag"@, pos))
            } else {
                match last_as(s, kw, close, close) {
                    None => Err(("Expected 'as' in {#each}"@, pos)),
                    Some(sep) => {
                        let names = sep + 4;
                        let comma = names_comma(s, names, close);
                        let list = expr_at(s, kw, sep);
                        let item = trim(s.subrange(names, comma));
                        let index = if comma < close { Some(trim(s.subrange(comma + 1, close))) } else { None };
                        if item.len() == 0 || list.content.len() == 0 {
                            Err(("Malformed {#each} tag"@, pos))
                        } else if close + 1 <= pos || close + 1 > s.len() {
                            Err((Seq::empty(), pos))
                        } else {
                            match nodes_spec(s, close + 1) {
                                Err(e) => Err(e),
                                Ok((body, q)) => if q >= s.len() {
                                    Err(("Unclosed {#each} block"@, pos))
                                } else {
                                    match control_spec(s, q) {
                                        Err(e) => Err(e),
                                        Ok((ctrl, r)) => {
                                            let step: Result<(Option<Seq<SNode>>, int, int, int), SErr> = match ctrl {
                                                Ctrl::Empty => if r <= pos || r > s.len() {
                                                    Err((Seq::empty(), pos))
                                                } else {
                                                    match nodes_spec(s, r) {
                                                        Err(e) => Err(e),
                                                        Ok((em, q2)) => if q2 >= s.len() {
                                                            Err(("Unclosed {:empty} block"@, r))
                                                        } else {
                                                            match control_spec(s, q2) {
                                                                Err(e) => Err(e),
                                                                Ok((Ctrl::End(a, b), r2)) => Ok((Some(em), a as int, b as int, r2)),
                                                                Ok(_) => Err(("Expected {/each}"@, q2)),
                                                            }
                                                        },
                                                    }
                                                },
                                                Ctrl::End(a, b) => Ok((None, a as int, b as int, r)),
                                                _ => Err(("Expected {/each}"@, q)),
                                            };
                                            match step {
                                                Err(e) => Err(e),
                                                Ok((em, a, b, r_end)) => if ends_each(s, a, b, seach) {
                                                    Ok((SNode::Each(sensitive, list, item, index, body, em), r_end))
                                                } else {
                                                    Err(("Expected {/each}"@, q))
                                                },
                                            }
                                        },
                                    }
                                },
                            }
                        }
                    },
                }
            }
        },
    }
    }
}

/// An element or component at `pos` (`<` followed by a letter): its name,
/// attributes, and children up to the matching closing tag, unless it
/// closes itself or is a void HTML element.
pub open spec fn element_spec(s: Seq<char>, pos: int) -> Result<(SNode, int), SErr>
    decreases s.len() - pos, 1nat,
{
    let a = pos + 1;
    let b = name_end_from(s, a);
    if pos < 0 || pos >= s.len() {
        Err((Seq::empty(), pos))
    } else if a == b || a >= s.len() {
        Err(("Expected a tag name"@, pos))
    } else {
        let component = 'A' <= s[a] <= 'Z';
        let tag = s.subrange(a, b);
        match attrs_spec(s, b, b) {
            Err(e) => Err(e),
            Ok((attrs, after, self_closing)) => if self_closing || (!component && crate::codegen::is_void_tag(tag)) {
                Ok((if component { SNode::Component(tag, attrs, Seq::empty()) } else { SNode::Element(tag, attrs, Seq::empty()) }, after))
            } else if after <= pos || after > s.len() {
                Err((Seq::empty(), pos))
            } else {
                match nodes_spec(s, after) {
                    Err(e) => Err(e),
                    Ok((children, q)) => if q >= s.len() {
                        Err(("Unclosed element"@, pos))
                    } else {
                        match control_spec(s, q) {
                            Err(e) => Err(e),
                            Ok((Ctrl::Close(c, d), r)) => if s.subrange(c as int, d as int) == tag {
                                Ok((if component { SNode::Component(tag, attrs, children) } else { SNode::Element(tag, attrs, children) }, r))
                            } else {
                                Err(("Mismatched closing tag"@, q))
                            },
                            Ok(_) => Err(("Unexpected control tag inside element"@, q)),
                        }
                    },
                }
            },
        }
    }
}

/// The node holds something besides whitespace and comments.
pub open spec fn is_content_spec(n: SNode) -> bool {
    match n {
        SNode::Text(c) => trim(c).len() > 0,
        SNode::LuatComment => false,
        SNode::HtmlComment(_) => false,
        _ => true,
    }
}

/// What the top level of a template holds so far: body, scripts, and
/// whether content came before.
pub struct STop {
    pub body: Seq<SNode>,
    pub module_script: Option<SScript>,
    pub regular_script: Option<SScript>,
    pub has_content: bool,
}

/// Why the top level stops: a syntax error (message, offset), or a
/// misplaced script block.
pub enum STopError {
    Syntax(Seq<char>, int),
    MultipleModuleScripts,
    MultipleRegularScripts,
    ModuleScriptNotFirst,
}

/// The script block whose content is `s[a..b]` and whose tags span
/// `start..end`, its magic functions rewritten.
pub open spec fn script_at(s: Seq<char>, module: bool, a: int, b: int, start: int, end: int) -> SScript {
    SScript {
        module,
        content: processed(s.subrange(a, b)),
        start,
        end,
        line: line_at(s, start),
        column: col_at(s, start),
    }
}

/// The top level of a template from `p` on, after `st`: script blocks,
/// other `<script>` tags, and nodes, up to the end.
pub open spec fn top_spec(s: Seq<char>, p: int, st: STop) -> Result<STop, STopError>
    decreases s.len() - p,
{
    if p < 0 || p >= s.len() {
        Ok(st)
    } else if word_at(s, p, "<script"@, '>') {
        match script_tag_spec(s, p, p + 7) {
            Err(e) => Err(STopError::Syntax(e.0, e.1)),
            Ok((t, q)) => if q <= p || q > s.len() {
                Err(STopError::Syntax(Seq::empty(), p))
            } else if t.0 == 1 {
                if st.module_script is Some {
                    Err(STopError::MultipleModuleScripts)
                } else if st.has_content || st.regular_script is Some {
                    Err(STopError::ModuleScriptNotFirst)
                } else if !processable(s.subrange(t.3, t.4)) {
                    Err(STopError::Syntax("Malformed magic function call in script"@, t.3))
                } else {
                    top_spec(s, q, STop { module_script: Some(script_at(s, true, t.3, t.4, p, q)), ..st })
                }
            } else if t.0 == 0 {
                if st.regular_script is Some {
                    Err(STopError::MultipleRegularScripts)
                } else if !processable(s.subrange(t.3, t.4)) {
                    Err(STopError::Syntax("Malformed magic function call in script"@, t.3))
                } else {
                    top_spec(s, q, STop { regular_script: Some(script_at(s, false, t.3, t.4, p, q)), ..st })
                }
            } else {
                top_spec(s, q, STop {
                    body: st.body.push(SNode::ScriptAny(s.subrange(t.1, t.2), s.subrange(t.3, t.4))),
                    has_content: true,
                    ..st
                })
            }
        }
    } else if control_word(s, p) {
        Err(STopError::Syntax("Unexpected closing tag"@, p))
    } else {
        match node_spec(s, p) {
            Err(e) => Err(STopError::Syntax(e.0, e.1)),
            Ok((n, q)) => if q <= p || q > s.len() {
                Err(STopError::Syntax(Seq::empty(), p))
            } else {
                top_spec(s, q, STop { body: st.body.push(n), has_content: st.has_content || is_content_spec(n), ..st })
            },
        }
    }
}

/// The modules that a script's `require` calls name.
pub open spec fn script_requires(b: Option<SScript>) -> Seq<Seq<char>> {
    match b {
        Some(x) => require_names(x.content, 0),
        None => Seq::empty(),
    }
}

/// What parsing the template `s` gives: its body, its module and regular
/// scripts and their imports; or the error, with the line and column of a
/// syntax error.
pub open spec fn template_spec(s: Seq<char>) -> Result<STemplate, STemplateError> {
    match top_spec(s, 0, STop { body: Seq::empty(), module_script: None, regular_script: None, has_content: false }) {
        Ok(st) => Ok(STemplate {
            module_script: st.module_script,
            regular_script: st.regular_script,
            body: st.body,
            imports: script_requires(st.module_script) + script_requires(st.regular_script),
        }),
        Err(STopError::Syntax(m, pos)) => {
            let at = if pos <= s.len() { pos } else { s.len() as int };
            Err(STemplateError::Syntax(m, line_at(s, at), col_at(s, at)))
        },
        Err(STopError::MultipleModuleScripts) => Err(STemplateError::MultipleModuleScripts),
        Err(STopError::MultipleRegularScripts) => Err(STemplateError::MultipleRegularScripts),
        Err(STopError::ModuleScriptNotFirst) => Err(STemplateError::ModuleScriptNotFirst),
    }
}

/// A parse error: message and offset.
struct PErr {
    message: String,
    pos: usize,
}

fn perr(message: &str, pos: usize) -> (r: PErr)
    ensures
        r.message@ == message@,
        r.pos == pos,
{
    PErr { message: owned(message), pos }
}

/// The view of a parse error.
spec fn err_view(e: PErr) -> SErr {
    (e.message@, e.pos as int)
}

/// The view of a parsed node.
spec fn node_res(r: Result<(Node, usize), PErr>) -> Result<(SNode, int), SErr> {
    match r {
        Ok((n, q)) => Ok((node_view(n), q as int)),
        Err(e) => Err(err_view(e)),
    }
}

/// The view of a parsed run of nodes.
spec fn nodes_res(r: Result<(Vec<Node>, usize), PErr>) -> Result<(Seq<SNode>, int), SErr> {
    match r {
        Ok((ns, q)) => Ok((nodes_view(ns@), q as int)),
        Err(e) => Err(err_view(e)),
    }
}

/// The view of a read control tag.
spec fn ctrl_res(r: Result<(Ctrl, usize), PErr>) -> Result<(Ctrl, int), SErr> {
    match r {
        Ok((c, q)) => Ok((c, q as int)),
        Err(e) => Err(err_view(e)),
    }
}

/// The view of parsed attributes.
spec fn attrs_res(r: Result<(Vec<Attribute>, usize, bool), PErr>) -> Result<(Seq<SAttr>, int, bool), SErr> {
    match r {
        Ok((attrs, q, closed)) => Ok((attrs_view(attrs@), q as int, closed)),
        Err(e) => Err(err_view(e)),
    }
}

/// Parser state: the source characters.
struct Src {
    c: Vec<char>,
}

impl Src {
    spec fn s(&self) -> Seq<char> {
        self.c@
    }

    spec fn ok(&self) -> bool {
        self.c@.len() < usize::MAX / 4
    }

    fn len(&self) -> (n: usize)
        ensures
            n == self.s().len(),
    {
        self.c.len()
    }

    fn at(&self, i: usize, lit: &str) -> (b: bool)
        requires
            i <= self.s().len(),
        ensures
            b == occurs_at(self.s(), lit@, i as int),
    {
        starts_with_at(&self.c, i, &chars_of(lit))
    }

    fn ch(&self, i: usize) -> (c: char)
        requires
            i < self.s().len(),
        ensures
            c == self.s()[i as int],
    {
        self.c[i]
    }

    /// The offset after a non-empty `lit` at `i`.
    fn at_end(&self, i: usize, lit: &str) -> (r: Option<usize>)
        requires
            i <= self.s().len(),
        ensures
            r == (if lit@.len() > 0 && occurs_at(self.s(), lit@, i as int) {
                Some((i + lit@.len()) as usize)
            } else {
                None::<usize>
            }),
            r matches Some(e) ==> i < e <= self.s().len() && occurs_at(self.s(), lit@, i as int),
    {
        let l = chars_of(lit);
        if l.len() == 0 {
            return None;
        }
        let m = starts_with_at(&self.c, i, &l);
        if !m {
            return None;
        }
        assert(i + l@.len() <= self.c@.len());
        assert(i + l.len() <= self.c.len());
        Some(i + l.len())
    }

    /// The offset after a non-empty `lit` at `i` that is followed by
    /// whitespace or `end`.
    fn word_end(&self, i: usize, lit: &str, end: char) -> (r: Option<usize>)
        requires
            i <= self.s().len(),
        ensures
            r == (if lit@.len() > 0 && occurs_at(self.s(), lit@, i as int) && i + lit@.len() < self.s().len()
                && (is_ws(self.s()[i + lit@.len()]) || self.s()[i + lit@.len()] == end) {
                Some((i + lit@.len()) as usize)
            } else {
                None::<usize>
            }),
            r matches Some(e) ==> i < e < self.s().len() && occurs_at(self.s(), lit@, i as int),
            r is Some <==> word_at(self.s(), i as int, lit@, end),
    {
        match self.at_end(i, lit) {
            None => None,
            Some(e) => {
                if e >= self.len() {
                    return None;
                }
                let c = self.ch(e);
                if is_ws_char(c) || c == end { Some(e) } else { None }
            },
        }
    }

    /// Line and column of offset `i`.
    fn line_col(&self, i: usize) -> (r: (usize, usize))
        requires
            i <= self.s().len(),
            self.ok(),
        ensures
            r.0 as int == line_at(self.s(), i as int),
            r.1 as int == col_at(self.s(), i as int),
            r.0 <= i + 1,
    {
        let mut line: usize = 1;
        let mut col: usize = 1;
        let mut k: usize = 0;
        while k < i
            invariant
                k <= i <= self.s().len(),
                self.ok(),
                line as int == line_at(self.s(), k as int),
                col as int == col_at(self.s(), k as int),
                line <= k + 1,
                col <= k + 1,
            decreases i - k,
        {
            if self.c[k] == '\n' {
                line = line + 1;
                col = 1;
            } else {
                col = col + 1;
            }
            k = k + 1;
        }
        (line, col)
    }

    /// The expression whose text is `s[a..b]` trimmed.
    fn expr(&self, a: usize, b: usize) -> (e: Expression)
        requires
            a <= b <= self.s().len(),
            self.ok(),
        ensures
            expr_wf(self.s(), e),
            e.content@ == trim(self.s().subrange(a as int, b as int)),
            expr_view(e) == expr_at(self.s(), a as int, b as int),
    {
        let (x, y) = trim_bounds(&self.c, a, b);
        let (line, col) = self.line_col(x);
        Expression { content: string_of_range(&self.c, x, y), span: Span { start: x, end: y, line, column: col } }
    }

    /// The trimmed text of `s[a..b]` as a `String`.
    fn text(&self, a: usize, b: usize) -> (r: String)
        requires
            a <= b <= self.s().len(),
        ensures
            r@ == trim(self.s().subrange(a as int, b as int)),
    {
        let (x, y) = trim_bounds(&self.c, a, b);
        string_of_range(&self.c, x, y)
    }

    /// Index of the `}` matching the `{` at `open`, skipping quoted strings.
    fn close_brace(&self, open: usize) -> (r: Option<usize>)
        requires
            open < self.s().len(),
            self.ok(),
        ensures
            r == brace_match(self.s(), open + 1, 1),
            r matches Some(k) ==> open < k < self.s().len(),
    {
        let mut depth: usize = 1;
        let mut k = open + 1;
        while k < self.len()
            invariant
                open < k <= self.s().len(),
                self.ok(),
                depth >= 1,
                depth <= k,
                brace_match(self.s(), open + 1, 1) == brace_match(self.s(), k as int, depth as nat),
            decreases self.s().len() - k,
        {
            let c = self.ch(k);
            if c == '"' || c == '\'' {
                let mut j = k + 1;
                proof {
                    lemma_quote_end_from(self.s(), k + 1, c);
                }
                while j < self.len() && self.ch(j) != c
                    invariant
                        k < j <= self.s().len(),
                        quote_end(self.s(), k + 1, c) == quote_end(self.s(), j as int, c),
                    decreases self.s().len() - j,
                {
                    if self.ch(j) == '\\' && j + 1 < self.len() {
                        j = j + 1;
                    }
                    j = j + 1;
                }
                if j >= self.len() {
                    return None;
                }
                k = j + 1;
            } else {
                if c == '{' {
                    depth = depth + 1;
                } else if c == '}' {
                    if depth == 1 {
                        return Some(k);
                    }
                    depth = depth - 1;
                }
                k = k + 1;
            }
        }
        None
    }

    /// A control tag starts at `p`: `{/`, `{:` or `</`.
    fn is_control(&self, p: usize) -> (b: bool)
        requires
            p <= self.s().len(),
        ensures
            b == (occurs_at(self.s(), "{/"@, p as int) || occurs_at(self.s(), "{:"@, p as int)
                || occurs_at(self.s(), "</"@, p as int)),
            b ==> p < self.s().len() && (self.s()[p as int] == '{' || self.s()[p as int] == '<'),
    {
        proof {
            reveal_strlit("{/");
            reveal_strlit("{:");
            reveal_strlit("</");
        }
        let b = self.at(p, "{/") || self.at(p, "{:") || self.at(p, "</");
        proof {
            if b {
                assert(self.s().subrange(p as int, p + 2)[0] == self.s()[p as int]);
            }
        }
        b
    }

    /// A tag starts at `p`: `<` followed by a letter, `/` or `!`.
    fn tag_start(&self, p: usize) -> (b: bool)
        requires
            p < self.s().len(),
            self.ok(),
        ensures
            b == (self.s()[p as int] == '<' && p + 1 < self.s().len() && {
                let c = self.s()[p + 1];
                ('a' <= c <= 'z') || ('A' <= c <= 'Z') || c == '/' || c == '!'
            }),
            b == tag_start_at(self.s(), p as int),
    {
        if self.ch(p) != '<' || p + 1 >= self.len() {
            return false;
        }
        let c = self.ch(p + 1);
        ('a' <= c && c <= 'z') || ('A' <= c && c <= 'Z') || c == '/' || c == '!'
    }

    /// End of a text run starting at `p` (at least one character).
    fn text_end(&self, p: usize) -> (q: usize)
        requires
            p < self.s().len(),
            self.ok(),
        ensures
            p < q <= self.s().len(),
            q == self.s().len() || self.s()[q as int] == '{' || self.s()[q as int] == '<',
            q == self.s().len() || self.s()[q as int] == '{' || tag_start_at(self.s(), q as int),
            forall|j: int| p < j < q ==> #[trigger] self.s()[j] != '{' && !tag_start_at(self.s(), j),
            q == text_end_from(self.s(), p + 1),
    {
        let mut q = p + 1;
        while q < self.len() && self.ch(q) != '{' && !self.tag_start(q)
            invariant
                p < q <= self.s().len(),
                self.ok(),
                text_end_from(self.s(), p + 1) == text_end_from(self.s(), q as int),
                forall|j: int| p < j < q ==> #[trigger] self.s()[j] != '{' && !tag_start_at(self.s(), j),
            decreases self.s().len() - q,
        {
            q = q + 1;
        }
        q
    }

    /// End of a tag or attribute name starting at `p`.
    fn name_end(&self, p: usize) -> (q: usize)
        requires
            p <= self.s().len(),
        ensures
            p <= q <= self.s().len(),
            forall|j: int| p <= j < q ==> !name_stop(#[trigger] self.s()[j]),
            q == self.s().len() || name_stop(self.s()[q as int]),
            q == name_end_from(self.s(), p as int),
    {
        let mut q = p;
        while q < self.len()
            invariant
                p <= q <= self.s().len(),
                forall|j: int| p <= j < q ==> !name_stop(#[trigger] self.s()[j]),
                name_end_from(self.s(), p as int) == name_end_from(self.s(), q as int),
            ensures
                name_end_from(self.s(), p as int) == name_end_from(self.s(), q as int),
                p <= q <= self.s().len(),
                forall|j: int| p <= j < q ==> !name_stop(#[trigger] self.s()[j]),
                q == self.s().len() || name_stop(self.s()[q as int]),
            decreases self.s().len() - q,
        {
            let c = self.ch(q);
            if is_ws_char(c) || c == '=' || c == '>' || c == '/' || c == '{' || c == '"' || c == '\'' || c == '<' {
                break;
            }
            q = q + 1;
        }
        q
    }

    fn skip_ws(&self, p: usize) -> (q: usize)
        requires
            p <= self.s().len(),
        ensures
            p <= q <= self.s().len(),
            forall|j: int| p <= j < q ==> is_ws(#[trigger] self.s()[j]),
            q == self.s().len() || !is_ws(self.s()[q as int]),
            q == skip_ws_from(self.s(), p as int),
    {
        let mut q = p;
        while q < self.len() && is_ws_char(self.ch(q))
            invariant
                p <= q <= self.s().len(),
                skip_ws_from(self.s(), p as int) == skip_ws_from(self.s(), q as int),
                forall|j: int| p <= j < q ==> is_ws(#[trigger] self.s()[j]),
            decreases self.s().len() - q,
        {
            q = q + 1;
        }
        q
    }
}

/// What stopped a run of nodes.
#[derive(PartialEq, Eq, Structural)]
pub enum Ctrl {
    /// `{:else}`
    Else,
    /// `{:else if c}`, with the range of `c`.
    ElseIf(usize, usize),
    /// `{:empty}`
    Empty,
    /// `{/word}`, with the range of `word`.
    End(usize, usize),
    /// `</name>`, with the range of `name`.
    Close(usize, usize),
}

/// Reads the control tag at `p`.
fn read_control(src: &Src, p: usize) -> (r: Result<(Ctrl, usize), PErr>)
    requires
        p < src.s().len(),
        src.ok(),
    ensures
        r matches Ok((c, q)) ==> p < q <= src.s().len() && match c {
            Ctrl::ElseIf(a, b) => a <= b <= src.s().len(),
            Ctrl::End(a, b) => a <= b <= src.s().len(),
            Ctrl::Close(a, b) => a <= b <= src.s().len(),
            _ => true,
        },
        match control_at(src.s(), p as int) {
            Some((c, q)) => r matches Ok((c2, q2)) && c2 == c && q2 == q,
            None => r matches Err(e) && e.pos == p,
        },
        ctrl_res(r) == control_spec(src.s(), p as int),
{
    proof {
        reveal_strlit("</");
        reveal_strlit(":else");
        reveal_strlit("if");
        reveal_strlit(":empty");
    }
    if let Some(a) = src.at_end(p, "</") {
        let b = src.name_end(a);
        let q = src.skip_ws(b);
        if q < src.len() && src.ch(q) == '>' {
            return Ok((Ctrl::Close(a, b), q + 1));
        }
        return Err(perr("Malformed closing tag", p));
    }
    let close = match src.close_brace(p) {
        Some(k) => k,
        None => { return Err(perr("Unclosed control tag", p)); },
    };
    let a = src.skip_ws(p + 1);
    if a >= close {
        return Err(perr("Empty control tag", p));
    }
    if src.ch(a) == '/' {
        let w = a + 1;
        let e = src.name_end(w);
        let e2 = if e > close { close } else { e };
        return Ok((Ctrl::End(w, e2), close + 1));
    }
    if let Some(after) = src.at_end(a, ":else") {
        if after <= close {
            if let Some(e) = src.word_end(after, "if", '}') {
                if e <= close {
                    return Ok((Ctrl::ElseIf(e, close), close + 1));
                }
            }
        }
        if after <= close && src.skip_ws(after) == close {
            return Ok((Ctrl::Else, close + 1));
        }
        if after <= close {
            let q = src.skip_ws(after);
            if q >= close {
                return Ok((Ctrl::Else, close + 1));
            }
        }
        return Err(perr("Malformed {:else} tag", p));
    }
    if src.at(a, ":empty") {
        return Ok((Ctrl::Empty, close + 1));
    }
    Err(perr("Unknown control tag", p))
}

/// Whether `src[a..b]` spells `lit`.
fn range_is(src: &Src, a: usize, b: usize, lit: &str) -> (r: bool)
    requires
        a <= b <= src.s().len(),
    ensures
        r == (src.s().subrange(a as int, b as int) == lit@),
{
    let l = chars_of(lit);
    if b - a != l.len() {
        return false;
    }
    let r = starts_with_at(&src.c, a, &l);
    proof {
        if r { assert(src.s().subrange(a as int, b as int) =~= l@); }
        else if src.s().subrange(a as int, b as int) == lit@ {
            assert(src.s().subrange(a as int, a + l@.len()) =~= src.s().subrange(a as int, b as int));
        }
    }
    r
}

/// Pushes `n` onto `out`, keeping the nodes well formed.
fn push_node(src: &Src, out: &mut Vec<Node>, n: Node)
    requires
        nodes_wf(src.s(), old(out)@),
        node_wf(src.s(), n),
    ensures
        nodes_wf(src.s(), final(out)@),
        final(out)@ == old(out)@.push(n),
{
    let ghost before = out@;
    out.push(n);
    assert(out@.drop_last() =~= before);
}

/// A run of nodes from `pos`, up to the end or a control tag.
fn parse_nodes(src: &Src, pos: usize) -> (r: Result<(Vec<Node>, usize), PErr>)
    requires
        pos <= src.s().len(),
        src.ok(),
    ensures
        r matches Ok((ns, q)) ==> pos <= q <= src.s().len() && nodes_wf(src.s(), ns@),
        r matches Ok((_, q)) ==> q == src.s().len() || control_word(src.s(), q as int),
        forall|t: int| #[trigger] text_then(src.s(), pos as int, t) ==> (r matches Ok((ns, q)) && q == t
            && plain_nodes(src.s(), ns@, pos as int, t)),
        nodes_res(r) == nodes_spec(src.s(), pos as int),
    decreases src.s().len() - pos, 3nat,
{
    let mut out: Vec<Node> = Vec::new();
    let mut p = pos;
    while p < src.len() && !src.is_control(p)
        invariant
            pos <= p <= src.s().len(),
            src.ok(),
            nodes_wf(src.s(), out@),
            forall|t: int| #[trigger] text_then(src.s(), pos as int, t) ==> ((p == pos && out@.len() == 0)
                || (p == t && pos < t && plain_nodes(src.s(), out@, pos as int, t))),
            nodes_spec(src.s(), pos as int) == prepend_nodes(nodes_view(out@), nodes_spec(src.s(), p as int)),
        decreases src.s().len() - p,
    {
        let ghost p0 = p;
        let (n, q) = match parse_node(src, p) {
            Ok(x) => x,
            Err(e) => {
                return Err(e);
            },
        };
        let ghost gn = n;
        let ghost before = out@;
        push_node(src, &mut out, n);
        proof {
            assert(out@.drop_last() =~= before);
            assert(nodes_view(out@) == nodes_view(before).push(node_view(gn)));
            match nodes_spec(src.s(), q as int) {
                Ok((rest, q2)) => {
                    assert(nodes_view(before) + (seq![node_view(gn)] + rest) =~= nodes_view(before).push(node_view(gn)) + rest);
                },
                Err(_) => {},
            }
        }
        p = q;
        proof {
            assert forall|t: int| #[trigger] text_then(src.s(), pos as int, t) implies ((p == pos && out@.len() == 0)
                || (p == t && pos < t && plain_nodes(src.s(), out@, pos as int, t))) by {
                if p0 == pos {
                    lemma_text_run_ends(src.s(), pos as int, t, p0 as int, q as int, gn);
                    assert(out@[0] == gn);
                } else {
                    lemma_text_run_ends(src.s(), pos as int, t, p0 as int, q as int, gn);
                }
            }
        }
    }
    proof {
        assert(nodes_view(out@) + Seq::<SNode>::empty() =~= nodes_view(out@));
    }
    Ok((out, p))
}

/// `v` before the nodes of `r`.
spec fn prepend_nodes(v: Seq<SNode>, r: Result<(Seq<SNode>, int), SErr>) -> Result<(Seq<SNode>, int), SErr> {
    match r {
        Ok((rest, q)) => Ok((v + rest, q)),
        Err(e) => Err(e),
    }
}

/// A text node read from `a`, where `s[a..t]` is plain text followed by a
/// control tag or the end, reaches exactly `t`.
proof fn lemma_text_run_ends(s: Seq<char>, a: int, t: int, p: int, q: int, n: Node)
    requires
        text_then(s, a, t),
        a <= p < s.len(),
        p == a || p == t,
        !control_word(s, p),
        p < t ==> (n matches Node::TextNode { content } && content@ == s.subrange(p, q)
            && (q == s.len() || s[q] == '{' || tag_start_at(s, q))
            && (forall|j: int| p < j < q ==> #[trigger] s[j] != '{' && !tag_start_at(s, j))),
        p < q <= s.len(),
    ensures
        p == t ==> false,
        p < t ==> q == t,
{
    reveal_strlit("{/");
    reveal_strlit("{:");
    reveal_strlit("</");
    if p < t {
        if q < t {
            assert(s[q] != '{' && s[q] != '<');
        }
        if q > t {
            assert(s.subrange(t, t + 2)[0] == s[t]);
            assert(s.subrange(t, t + 2)[1] == s[t + 1]);
            assert(s[t] != '{' && !tag_start_at(s, t));
        }
    }
}

/// One node at `pos`.
#[verifier::rlimit(40)]
fn parse_node(src: &Src, pos: usize) -> (r: Result<(Node, usize), PErr>)
    requires
        pos < src.s().len(),
        src.ok(),
    ensures
        r matches Ok((n, q)) ==> pos < q <= src.s().len() && node_wf(src.s(), n),
        src.s()[pos as int] != '{' && src.s()[pos as int] != '<' ==> (r matches Ok((n, q))
            && (n matches Node::TextNode { content } && content@ == src.s().subrange(pos as int, q as int))
            && (q == src.s().len() || src.s()[q as int] == '{' || src.s()[q as int] == '<')
            && (q == src.s().len() || src.s()[q as int] == '{' || tag_start_at(src.s(), q as int))
            && (forall|j: int| pos < j < q ==> #[trigger] src.s()[j] != '{' && !tag_start_at(src.s(), j))),
        node_res(r) == node_spec(src.s(), pos as int),
    decreases src.s().len() - pos, 2nat,
{
    proof {
        reveal_strlit("<!--");
        reveal_strlit("<script");
    }
    let c = src.ch(pos);
    if c == '{' {
        return parse_brace(src, pos);
    }
    if c == '<' && src.tag_start(pos) {
        if let Some(e) = src.at_end(pos, "<!--") {
            return parse_html_comment(src, pos, e);
        }
        if let Some(e) = src.word_end(pos, "<script", '>') {
            let (t, q) = parse_script_tag(src, pos, e)?;
            let (_, ta, tb, ca, cb) = t;
            let node = Node::ScriptAny {
                tag: string_of_range(&src.c, ta, tb),
                content: string_of_range(&src.c, ca, cb),
            };
            return Ok((node, q));
        }
        let n = src.ch(pos + 1);
        if ('a' <= n && n <= 'z') || ('A' <= n && n <= 'Z') {
            return parse_element(src, pos);
        }
    }
    let q = src.text_end(pos);
    Ok((Node::TextNode { content: string_of_range(&src.c, pos, q) }, q))
}

/// `{...}` at `pos`.
fn parse_brace(src: &Src, pos: usize) -> (r: Result<(Node, usize), PErr>)
    requires
        pos < src.s().len(),
        src.s()[pos as int] == '{',
        src.ok(),
    ensures
        r matches Ok((n, q)) ==> pos < q <= src.s().len() && node_wf(src.s(), n),
        !block_opener(src.s(), pos as int) ==> match r {
            Ok((n, q)) => brace_form_ok(src.s(), pos as int, n, q as int),
            Err(e) => !brace_form_parses(src.s(), pos as int) && e.pos == pos,
        },
        node_res(r) == brace_spec(src.s(), pos as int),
    decreases src.s().len() - pos, 1nat,
{
    proof {
        reveal_strlit("{!");
        reveal_strlit("!}");
        reveal_strlit("{!if");
        reveal_strlit("{!each");
        reveal_strlit("{#if");
        reveal_strlit("{#sif");
        reveal_strlit("{#each");
        reveal_strlit("{#seach");
        reveal_strlit("{@html");
        reveal_strlit("{@local");
        reveal_strlit("{@render");
        reveal_strlit("{@");
        reveal_strlit("?.()");
    }
    if let Some(bang) = src.at_end(pos, "{!") {
        if let Some(e) = src.word_end(pos, "{!if", '}') {
            return parse_if(src, pos, e, true, false);
        }
        if let Some(e) = src.word_end(pos, "{!each", '}') {
            return parse_each(src, pos, e, true, false);
        }
        let end_lit = chars_of("!}");
        return match find_at(&src.c, &end_lit, bang) {
            Some(k) => {
                proof {
                    crate::text::lemma_find_from_bounds(src.s(), end_lit@, bang as int);
                }
                Ok((Node::LuatComment, k + end_lit.len()))
            },
            None => Err(perr("Unclosed comment", pos)),
        };
    }
    if let Some(e) = src.word_end(pos, "{#if", '}') {
        return parse_if(src, pos, e, false, false);
    }
    if let Some(e) = src.word_end(pos, "{#sif", '}') {
        return parse_if(src, pos, e, true, true);
    }
    if let Some(e) = src.word_end(pos, "{#each", '}') {
        return parse_each(src, pos, e, false, false);
    }
    if let Some(e) = src.word_end(pos, "{#seach", '}') {
        return parse_each(src, pos, e, true, true);
    }
    let close = match src.close_brace(pos) {
        Some(k) => k,
        None => { return Err(perr("Unclosed expression", pos)); },
    };
    if let Some(h) = src.word_end(pos, "{@html", '}') {
        if h > close {
            return Err(perr("Malformed {@html}", pos));
        }
        let e = src.expr(h, close);
        return Ok((Node::RawHtml { expression: e }, close + 1));
    }
    if let Some(l) = src.word_end(pos, "{@local", '}') {
        if l > close {
            return Err(perr("Malformed {@local}", pos));
        }
        let mut eq = l;
        while eq < close && src.ch(eq) != '='
            invariant
                l <= eq <= close,
                close < src.s().len(),
                find_char_from(src.s(), '=', l as int) == find_char_from(src.s(), '=', eq as int),
            decreases close - eq,
        {
            eq = eq + 1;
        }
        proof {
            crate::text::lemma_find_char_first(src.s(), '=', eq as int);
        }
        if eq >= close {
            return Err(perr("Expected '=' in {@local}", pos));
        }
        let name = src.text(l, eq);
        let e = src.expr(eq + 1, close);
        return Ok((Node::LocalConst { name, expression: e }, close + 1));
    }
    if let Some(rd) = src.word_end(pos, "{@render", '}') {
        if rd > close {
            return Err(perr("Malformed {@render}", pos));
        }
        let inner = sub_chars(&src.c, rd, close);
        let t = crate::text::trim_vec(&inner);
        let tail = chars_of("?.()");
        let optional = t.len() >= 4 && starts_with_at(&t, t.len() - 4, &tail);
        proof {
            assert(inner@ =~= src.s().subrange(rd as int, close as int));
            if t.len() >= 4 {
                assert(t@.subrange(t.len() - 4, t.len() - 4 + 4) =~= t@.skip(t.len() - 4));
            }
        }
        return Ok((Node::RenderChildren { optional }, close + 1));
    }
    if src.at(pos, "{@") {
        return Err(perr("Unknown directive", pos));
    }
    let e = src.expr(pos + 1, close);
    if e.content.as_str().is_empty() {
        return Err(perr("Empty expression", pos));
    }
    Ok((Node::MustacheNode { expression: e }, close + 1))
}

/// The `{/word}` at `t` closes a block called `name`: where it ends.
pub open spec fn end_tag(s: Seq<char>, t: int, name: Seq<char>) -> Option<int> {
    match control_at(s, t) {
        Some((Ctrl::End(a, b), q)) => if s.subrange(a as int, b as int) == name { Some(q) } else { None },
        _ => None,
    }
}

/// The `{:else}` at `t`: where it ends.
pub open spec fn else_at(s: Seq<char>, t: int) -> Option<int> {
    match control_at(s, t) {
        Some((Ctrl::Else, q)) => Some(q),
        _ => None,
    }
}

/// The word that ends an if block: `sif` or `if`.
pub open spec fn if_word(sif: bool) -> Seq<char> {
    if sif { "sif"@ } else { "if"@ }
}

/// The condition and branches of `n`, an if block of the kind `sensitive`
/// asks for.
spec fn if_parts(n: Node, sensitive: bool) -> Option<(Expression, Vec<Node>, Option<Vec<Node>>)> {
    match n {
        Node::IfBlock { condition, then_branch, else_branch } =>
            if sensitive { None } else { Some((condition, then_branch, else_branch)) },
        Node::SensitiveIfBlock { condition, then_branch, else_branch } =>
            if sensitive { Some((condition, then_branch, else_branch)) } else { None },
        _ => None,
    }
}

/// Builds an if block of the right kind.
fn if_node(sensitive: bool, condition: Expression, then_branch: Vec<Node>, else_branch: Option<Vec<Node>>) -> (n: Node)
    ensures
        sensitive ==> n == (Node::SensitiveIfBlock { condition, then_branch, else_branch }),
        !sensitive ==> n == (Node::IfBlock { condition, then_branch, else_branch }),
{
    if sensitive {
        Node::SensitiveIfBlock { condition, then_branch, else_branch }
    } else {
        Node::IfBlock { condition, then_branch, else_branch }
    }
}

/// `{#if c}` (or a sensitive form) at `pos`; the condition starts at `kw`.
fn parse_if(src: &Src, pos: usize, kw: usize, sensitive: bool, sif: bool) -> (r: Result<(Node, usize), PErr>)
    requires
        pos < kw < src.s().len(),
        src.s()[pos as int] == '{',
        src.ok(),
    ensures
        r matches Ok((n, q)) ==> pos < q <= src.s().len() && node_wf(src.s(), n),
        match brace_match(src.s(), pos + 1, 1) {
            None => r matches Err(e) && e.pos == pos,
            Some(close) => {
                let close = close as int;
                let c = trim(src.s().subrange(kw as int, close));
                if kw > close || c.len() == 0 {
                    r matches Err(e) && e.pos == pos
                } else {
                    &&& r matches Ok((n, _)) ==> (if_parts(n, sensitive) matches Some((cond, _, _)) && cond.content@ == c)
                    &&& forall|t: int| #[trigger] text_then(src.s(), close + 1, t) ==> {
                        &&& t == src.s().len() ==> (r matches Err(e) && e.pos == close + 1)
                        &&& end_tag(src.s(), t, if_word(sif)) matches Some(q) ==> (r matches Ok((n, q2)) && q2 == q
                            && (if_parts(n, sensitive) matches Some((_, th, None)) && plain_nodes(src.s(), th@, close + 1, t)))
                    }
                }
            },
        },
        node_res(r) == if_spec(src.s(), pos as int, kw as int, sensitive, sif),
    decreases src.s().len() - pos, 0nat,
{
    let close = match src.close_brace(pos) {
        Some(k) => k,
        None => { return Err(perr("Unclosed {#if} tag", pos)); },
    };
    if kw > close {
        return Err(perr("Malformed {#if} tag", pos));
    }
    let cond = src.expr(kw, close);
    if cond.content.as_str().is_empty() {
        return Err(perr("Missing condition in {#if}", pos));
    }
    parse_if_rest(src, cond, close + 1, sensitive, sif)
}

/// The branches of an if block, from `p` just after its header.
fn parse_if_rest(src: &Src, cond: Expression, p: usize, sensitive: bool, sif: bool) -> (r: Result<(Node, usize), PErr>)
    requires
        p <= src.s().len(),
        src.ok(),
        expr_wf(src.s(), cond),
    ensures
        r matches Ok((n, q)) ==> p < q <= src.s().len() && node_wf(src.s(), n),
        r matches Ok((n, _)) ==> (if_parts(n, sensitive) matches Some((c, _, _)) && c == cond),
        forall|t: int| #[trigger] text_then(src.s(), p as int, t) ==> {
            &&& t == src.s().len() ==> (r matches Err(e) && e.pos == p)
            &&& end_tag(src.s(), t, if_word(sif)) matches Some(q) ==> (r matches Ok((n, q2)) && q2 == q
                && (if_parts(n, sensitive) matches Some((_, th, None)) && plain_nodes(src.s(), th@, p as int, t)))
        },
        forall|t: int, t2: int| #[trigger] text_then(src.s(), p as int, t) && #[trigger] end_tag(src.s(), t2, if_word(sif)) is Some
            && else_at(src.s(), t) is Some && text_then(src.s(), else_at(src.s(), t)->0, t2) ==> (r matches Ok((n, q2))
            && q2 == end_tag(src.s(), t2, if_word(sif))->0
            && (if_parts(n, sensitive) matches Some((_, th, Some(el))) && plain_nodes(src.s(), th@, p as int, t)
            && plain_nodes(src.s(), el@, else_at(src.s(), t)->0, t2))),
        node_res(r) == if_rest_spec(src.s(), expr_view(cond), p as int, sensitive, sif),
    decreases src.s().len() - p, 4nat,
{
    proof {
        reveal_strlit("sif");
        reveal_strlit("if");
    }
    let (then_nodes, q) = parse_nodes(src, p)?;
    if q >= src.len() {
        return Err(perr("Unclosed {#if} block", p));
    }
    let (ctrl, r) = read_control(src, q)?;
    match ctrl {
        Ctrl::End(a, b) => {
            if (sif && range_is(src, a, b, "sif")) || (!sif && range_is(src, a, b, "if")) {
                Ok((if_node(sensitive, cond, then_nodes, None), r))
            } else {
                Err(perr("Expected {/if}", q))
            }
        },
        Ctrl::Else => {
            let (else_nodes, q2) = parse_nodes(src, r)?;
            if q2 >= src.len() {
                return Err(perr("Unclosed {:else} block", r));
            }
            let (ctrl2, r2) = read_control(src, q2)?;
            match ctrl2 {
                Ctrl::End(a, b) => {
                    if (sif && range_is(src, a, b, "sif")) || (!sif && range_is(src, a, b, "if")) {
                        Ok((if_node(sensitive, cond, then_nodes, Some(else_nodes)), r2))
                    } else {
                        Err(perr("Expected {/if}", q2))
                    }
                },
                _ => Err(perr("Expected {/if}", q2)),
            }
        },
        Ctrl::ElseIf(a, b) => {
            let c2 = src.expr(a, b);
            let (nested, r2) = parse_if_rest(src, c2, r, sensitive, sif)?;
            let ghost gnested = nested;
            let mut branch: Vec<Node> = Vec::new();
            push_node(src, &mut branch, nested);
            proof {
                assert(branch@.drop_last() =~= Seq::<Node>::empty());
                assert(nodes_view(Seq::<Node>::empty()) =~= Seq::<SNode>::empty());
                assert(nodes_view(branch@) =~= seq![node_view(gnested)]);
            }
            Ok((if_node(sensitive, cond, then_nodes, Some(branch)), r2))
        },
        _ => Err(perr("Expected {/if}", q)),
    }
}

/// Builds an each block of the right kind.
fn each_node(
    sensitive: bool,
    list_expr: Expression,
    item_id: String,
    index_id: Option<String>,
    body: Vec<Node>,
    empty: Option<Vec<Node>>,
) -> (n: Node)
    ensures
        sensitive ==> n == (Node::SensitiveEachBlock { list_expr, item_id, index_id, body, empty }),
        !sensitive ==> n == (Node::EachBlock { list_expr, item_id, index_id, body, empty }),
{
    if sensitive {
        Node::SensitiveEachBlock { list_expr, item_id, index_id, body, empty }
    } else {
        Node::EachBlock { list_expr, item_id, index_id, body, empty }
    }
}

/// The last ` as ` in `s[kw..k)` that ends by `close`.
pub open spec fn last_as(s: Seq<char>, kw: int, k: int, close: int) -> Option<int>
    decreases k - kw,
{
    if k <= kw {
        None
    } else if occurs_at(s, " as "@, k - 1) && k + 3 <= close {
        Some(k - 1)
    } else {
        last_as(s, kw, k - 1, close)
    }
}

/// The end of the item name in the names `s[g..close]`: the first `,`, or
/// `close`.
pub open spec fn names_comma(s: Seq<char>, g: int, close: int) -> int {
    match find_char_from(s, ',', g) {
        Some(c) => if c < close { c } else { close },
        None => close,
    }
}

/// The list, item and index of the header `{#each list as item, index}`
/// whose inside runs from `kw` to `close`; `None` when it is malformed.
pub open spec fn each_head(s: Seq<char>, kw: int, close: int) -> Option<(Seq<char>, Seq<char>, Option<Seq<char>>)> {
    match last_as(s, kw, close, close) {
        None => None,
        Some(sep) => {
            let g = sep + 4;
            let comma = names_comma(s, g, close);
            let list = trim(s.subrange(kw, sep));
            let item = trim(s.subrange(g, comma));
            let index = if comma < close { Some(trim(s.subrange(comma + 1, close))) } else { None };
            if list.len() == 0 || item.len() == 0 { None } else { Some((list, item, index)) }
        },
    }
}

/// The `{:empty}` at `t`: where it ends.
pub open spec fn empty_at(s: Seq<char>, t: int) -> Option<int> {
    match control_at(s, t) {
        Some((Ctrl::Empty, q)) => Some(q),
        _ => None,
    }
}

/// The word that ends an each block: `seach` or `each`.
pub open spec fn each_word(seach: bool) -> Seq<char> {
    if seach { "seach"@ } else { "each"@ }
}

/// The parts of `n`, an each block of the kind `sensitive` asks for.
spec fn each_parts(n: Node, sensitive: bool) -> Option<(Expression, String, Option<String>, Vec<Node>, Option<Vec<Node>>)> {
    match n {
        Node::EachBlock { list_expr, item_id, index_id, body, empty } =>
            if sensitive { None } else { Some((list_expr, item_id, index_id, body, empty)) },
        Node::SensitiveEachBlock { list_expr, item_id, index_id, body, empty } =>
            if sensitive { Some((list_expr, item_id, index_id, body, empty)) } else { None },
        _ => None,
    }
}

/// `n` is an each block of the kind `sensitive` asks for, with the list,
/// item and index of `head`.
spec fn each_has_head(n: Node, sensitive: bool, head: (Seq<char>, Seq<char>, Option<Seq<char>>)) -> bool {
    match each_parts(n, sensitive) {
        Some((list, item, index, _, _)) => list.content@ == head.0 && item@ == head.1 && match index {
            Some(x) => head.2 == Some(x@),
            None => head.2 is None,
        },
        None => false,
    }
}

/// `{#each list as item, index}` (or a sensitive form) at `pos`; the list
/// starts at `kw`.
fn parse_each(src: &Src, pos: usize, kw: usize, sensitive: bool, seach: bool) -> (r: Result<(Node, usize), PErr>)
    requires
        pos < kw < src.s().len(),
        src.s()[pos as int] == '{',
        src.ok(),
    ensures
        r matches Ok((n, q)) ==> pos < q <= src.s().len() && node_wf(src.s(), n),
        match brace_match(src.s(), pos + 1, 1) {
            None => r matches Err(e) && e.pos == pos,
            Some(close) => {
                let close = close as int;
                if kw > close || each_head(src.s(), kw as int, close) is None {
                    r matches Err(e) && e.pos == pos
                } else {
                    let head = each_head(src.s(), kw as int, close)->0;
                    &&& r matches Ok((n, _)) ==> each_has_head(n, sensitive, head)
                    &&& forall|t: int| #[trigger] text_then(src.s(), close + 1, t) ==> {
                        &&& t == src.s().len() ==> (r matches Err(e) && e.pos == pos)
                        &&& end_tag(src.s(), t, each_word(seach)) matches Some(q) ==> (r matches Ok((n, q2)) && q2 == q
                            && (each_parts(n, sensitive) matches Some((_, _, _, body, None))
                            && plain_nodes(src.s(), body@, close + 1, t)))
                    }
                    &&& forall|t: int, t2: int| #[trigger] text_then(src.s(), close + 1, t)
                        && #[trigger] end_tag(src.s(), t2, each_word(seach)) is Some
                        && empty_at(src.s(), t) is Some && text_then(src.s(), empty_at(src.s(), t)->0, t2) ==> (r matches Ok((n, q2))
                        && q2 == end_tag(src.s(), t2, each_word(seach))->0
                        && (each_parts(n, sensitive) matches Some((_, _, _, body, Some(e)))
                        && plain_nodes(src.s(), body@, close + 1, t) && plain_nodes(src.s(), e@, empty_at(src.s(), t)->0, t2)))
                }
            },
        },
        node_res(r) == each_spec(src.s(), pos as int, kw as int, sensitive, seach),
    decreases src.s().len() - pos, 0nat,
{
    proof {
        reveal_strlit("seach");
        reveal_strlit("each");
    }
    let close = match src.close_brace(pos) {
        Some(k) => k,
        None => { return Err(perr("Unclosed {#each} tag", pos)); },
    };
    if kw > close {
        return Err(perr("Malformed {#each} tag", pos));
    }
    // The last ` as ` separates the list from the names.
    let mut k = close;
    let mut found: Option<(usize, usize)> = None;
    while k > kw
        invariant_except_break
            found is None,
        invariant
            kw <= k <= close < src.s().len(),
            src.ok(),
            found matches Some((f, g)) ==> kw <= f < g <= close && g == f + 4
                && last_as(src.s(), kw as int, close as int, close as int) == Some(f as int),
            found is None ==> last_as(src.s(), kw as int, close as int, close as int)
                == last_as(src.s(), kw as int, k as int, close as int),
        ensures
            found is None ==> k == kw,
        decreases k,
    {
        proof {
            reveal_strlit(" as ");
        }
        k = k - 1;
        proof {
            assert(last_as(src.s(), kw as int, k + 1, close as int) == if occurs_at(src.s(), " as "@, k as int) && k + 4 <= close {
                Some(k as int)
            } else {
                last_as(src.s(), kw as int, k as int, close as int)
            });
        }
        if let Some(g) = src.at_end(k, " as ") {
            if g <= close {
                found = Some((k, g));
                break;
            }
        }
    }
    proof {
        if found is None {
            assert(last_as(src.s(), kw as int, k as int, close as int) is None);
        }
    }
    let (sep, names) = match found {
        Some(f) => f,
        None => { return Err(perr("Expected 'as' in {#each}", pos)); },
    };
    let list = src.expr(kw, sep);
    let mut comma = names;
    while comma < close && src.ch(comma) != ','
        invariant
            names <= comma <= close < src.s().len(),
            find_char_from(src.s(), ',', names as int) == find_char_from(src.s(), ',', comma as int),
        decreases close - comma,
    {
        comma = comma + 1;
    }
    proof {
        crate::text::lemma_find_char_first(src.s(), ',', comma as int);
    }
    let item = src.text(names, comma);
    let index = if comma < close { Some(src.text(comma + 1, close)) } else { None };
    if item.as_str().is_empty() || list.content.as_str().is_empty() {
        return Err(perr("Malformed {#each} tag", pos));
    }
    let (body, q) = parse_nodes(src, close + 1)?;
    if q >= src.len() {
        return Err(perr("Unclosed {#each} block", pos));
    }
    let (ctrl, r) = read_control(src, q)?;
    let (empty, q_end, r_end) = match ctrl {
        Ctrl::Empty => {
            let (e, q2) = parse_nodes(src, r)?;
            if q2 >= src.len() {
                return Err(perr("Unclosed {:empty} block", r));
            }
            let (ctrl2, r2) = read_control(src, q2)?;
            match ctrl2 {
                Ctrl::End(a, b) => (Some(e), (a, b), r2),
                _ => { return Err(perr("Expected {/each}", q2)); },
            }
        },
        Ctrl::End(a, b) => (None, (a, b), r),
        _ => { return Err(perr("Expected {/each}", q)); },
    };
    let (a, b) = q_end;
    if !((seach && range_is(src, a, b, "seach")) || (!seach && range_is(src, a, b, "each"))) {
        return Err(perr("Expected {/each}", q));
    }
    Ok((each_node(sensitive, list, item, index, body, empty), r_end))
}

/// The void elements of HTML, which take no children.
fn is_void_tag(src: &Src, a: usize, b: usize) -> (r: bool)
    requires
        a <= b <= src.s().len(),
    ensures
        r == crate::codegen::is_void_tag(src.s().subrange(a as int, b as int)),
{
    range_is(src, a, b, "area") || range_is(src, a, b, "base") || range_is(src, a, b, "br") || range_is(
        src,
        a,
        b,
        "col",
    ) || range_is(src, a, b, "embed") || range_is(src, a, b, "hr") || range_is(src, a, b, "img")
        || range_is(src, a, b, "input") || range_is(src, a, b, "link") || range_is(src, a, b, "meta")
        || range_is(src, a, b, "param") || range_is(src, a, b, "source") || range_is(src, a, b, "track")
        || range_is(src, a, b, "wbr")
}

/// `src[a..b]` equals `src[c..d]`.
fn ranges_equal(src: &Src, a: usize, b: usize, c: usize, d: usize) -> (r: bool)
    requires
        a <= b <= src.s().len(),
        c <= d <= src.s().len(),
    ensures
        r == (src.s().subrange(a as int, b as int) == src.s().subrange(c as int, d as int)),
{
    if b - a != d - c {
        proof {
            assert(src.s().subrange(a as int, b as int).len() != src.s().subrange(c as int, d as int).len());
        }
        return false;
    }
    let mut i: usize = 0;
    while i < b - a
        invariant
            a <= b <= src.s().len(),
            c <= d <= src.s().len(),
            b - a == d - c,
            i <= b - a,
            forall|k: int| 0 <= k < i ==> #[trigger] src.s().subrange(a as int, b as int)[k] == src.s().subrange(c as int, d as int)[k],
        decreases b - a - i,
    {
        if src.ch(a + i) != src.ch(c + i) {
            proof {
                assert(src.s().subrange(a as int, b as int)[i as int] != src.s().subrange(c as int, d as int)[i as int]);
            }
            return false;
        }
        i = i + 1;
    }
    proof {
        assert(src.s().subrange(a as int, b as int) =~= src.s().subrange(c as int, d as int));
    }
    true
}

/// Whether `n` is a component, its name, attributes and children, where it
/// is an element or a component.
spec fn element_parts(n: Node) -> Option<(bool, String, Vec<Attribute>, Vec<Node>)> {
    match n {
        Node::ElementNode { tag, attributes, children } => Some((false, tag, attributes, children)),
        Node::ComponentNode { name, attributes, children } => Some((true, name, attributes, children)),
        _ => None,
    }
}

/// The `</name>` at `t` closes the element named `s[a..b]`: where it ends.
spec fn close_tag(s: Seq<char>, t: int, a: int, b: int) -> Option<int> {
    match control_at(s, t) {
        Some((Ctrl::Close(c, d), q)) => if s.subrange(c as int, d as int) == s.subrange(a, b) { Some(q) } else { None },
        _ => None,
    }
}

/// An element or component at `pos` (`<` followed by a letter).
fn parse_element(src: &Src, pos: usize) -> (r: Result<(Node, usize), PErr>)
    requires
        pos + 1 < src.s().len(),
        src.ok(),
    ensures
        r matches Ok((n, q)) ==> pos < q <= src.s().len() && node_wf(src.s(), n),
        ({
            let s = src.s();
            let a = pos + 1;
            let b = name_end_from(s, a);
            let component = 'A' <= s[a] <= 'Z';
            let p = skip_ws_from(s, b);
            if a == b {
                r matches Err(e) && e.pos == pos
            } else {
                &&& r matches Ok((n, _)) ==> (element_parts(n) matches Some((c, name, _, _)) && c == component
                    && name@ == s.subrange(a, b))
                &&& p >= s.len() ==> (r matches Err(e) && e.pos == b)
                &&& occurs_at(s, "/>"@, p) ==> (r matches Ok((n, q)) && q == p + 2
                    && (element_parts(n) matches Some((_, _, attrs, children)) && attrs@.len() == 0 && children@.len() == 0))
                &&& p < s.len() && s[p] == '>' && !component && crate::codegen::is_void_tag(s.subrange(a, b))
                    ==> (r matches Ok((n, q)) && q == p + 1
                    && (element_parts(n) matches Some((_, _, attrs, children)) && attrs@.len() == 0 && children@.len() == 0))
                &&& p < s.len() && s[p] == '>' && !(!component && crate::codegen::is_void_tag(s.subrange(a, b)))
                    ==> forall|t: int| #[trigger] text_then(s, p + 1, t) ==> {
                        &&& t == s.len() ==> (r matches Err(e) && e.pos == pos)
                        &&& close_tag(s, t, a, b) matches Some(q) ==> (r matches Ok((n, q2)) && q2 == q
                            && (element_parts(n) matches Some((_, _, attrs, children)) && attrs@.len() == 0
                            && plain_nodes(s, children@, p + 1, t)))
                    }
            }
        }),
        node_res(r) == element_spec(src.s(), pos as int),
    decreases src.s().len() - pos, 1nat,
{
    proof {
        reveal_strlit("/>");
    }
    let a = pos + 1;
    let b = src.name_end(a);
    if a == b {
        return Err(perr("Expected a tag name", pos));
    }
    let first = src.ch(a);
    let component = 'A' <= first && first <= 'Z';
    let (attributes, after, self_closing) = parse_attributes(src, b)?;
    let tag = string_of_range(&src.c, a, b);
    if self_closing || (!component && is_void_tag(src, a, b)) {
        let n = if component {
            Node::ComponentNode { name: tag, attributes, children: Vec::new() }
        } else {
            Node::ElementNode { tag, attributes, children: Vec::new() }
        };
        proof {
            assert(nodes_wf(src.s(), Seq::<Node>::empty()));
            let p = skip_ws_from(src.s(), b as int);
            if occurs_at(src.s(), "/>"@, p) {
                assert(src.s().subrange(p, p + 2)[0] == src.s()[p]);
            }
        }
        return Ok((n, after));
    }
    let (children, q) = parse_nodes(src, after)?;
    if q >= src.len() {
        return Err(perr("Unclosed element", pos));
    }
    let (ctrl, r) = read_control(src, q)?;
    match ctrl {
        Ctrl::Close(c, d) => {
            if !ranges_equal(src, a, b, c, d) {
                return Err(perr("Mismatched closing tag", q));
            }
        },
        _ => { return Err(perr("Unexpected control tag inside element", q)); },
    }
    if component {
        Ok((Node::ComponentNode { name: tag, attributes, children }, r))
    } else {
        Ok((Node::ElementNode { tag, attributes, children }, r))
    }
}

/// The value of a quoted attribute `src[a..b]`: `{@html e}` and `{e}` are
/// expressions, anything else is static text.
fn quoted_value(src: &Src, a: usize, b: usize) -> (v: AttributeValue)
    requires
        a <= b <= src.s().len(),
        src.ok(),
    ensures
        value_wf(src.s(), v),
        ({
            let sub = src.s().subrange(a as int, b as int);
            let t = trim(sub);
            let x = a + skip_ws_from(sub, 0);
            let close = x + t.len() - 1;
            if t.len() > 0 && t[0] == '{' && t.last() == '}' && brace_match(src.s(), x + 1, 1) == Some(close as usize) {
                if occurs_at(src.s(), "{@html"@, x) && x + 6 < src.s().len()
                    && (is_ws(src.s()[x + 6]) || src.s()[x + 6] == '}') && x + 6 <= close {
                    v matches AttributeValue::RawHtml(e) && e.content@ == trim(src.s().subrange(x + 6, close))
                } else {
                    v matches AttributeValue::Dynamic(e) && e.content@ == trim(src.s().subrange(x + 1, close))
                }
            } else {
                v matches AttributeValue::Static(c) && c@ == sub
            }
        }),
        value_view(v) == quoted_spec(src.s(), a as int, b as int),
{
    proof {
        reveal_strlit("{@html");
    }
    let (x, y) = trim_bounds(&src.c, a, b);
    proof {
        let t = trim(src.s().subrange(a as int, b as int));
        assert(t.len() == y - x);
        if x < y {
            assert(t[0] == src.s()[x as int]);
            assert(t.last() == src.s()[y - 1]);
        }
    }
    if x < y && src.ch(x) == '{' && src.ch(y - 1) == '}' {
        if let Some(close) = src.close_brace(x) {
            if close == y - 1 {
                if let Some(h) = src.word_end(x, "{@html", '}') {
                    if h <= close {
                        return AttributeValue::RawHtml(src.expr(h, close));
                    }
                }
                return AttributeValue::Dynamic(src.expr(x + 1, close));
            }
        }
    }
    AttributeValue::Static(string_of_range(&src.c, a, b))
}

/// One attribute at `p`, which is not whitespace, `>` or `/>`, and the
/// offset after it.
fn parse_attribute(src: &Src, p: usize) -> (r: Result<(Attribute, usize), PErr>)
    requires
        p < src.s().len(),
        src.ok(),
    ensures
        r matches Ok((a, q)) ==> p < q <= src.s().len() && attr_wf(src.s(), a),
        match (r, attr_spec(src.s(), p as int)) {
            (Ok((a, q)), Ok((sa, sq))) => attr_view(a) == sa && q == sq,
            (Err(e), Err(se)) => err_view(e) == se,
            _ => false,
        },
{
    proof {
        reveal_strlit("{...");
        reveal_strlit("{@html");
        reveal_strlit("/>");
    }
    let c = src.ch(p);
    if c == '{' {
        let close = match src.close_brace(p) {
            Some(k) => k,
            None => { return Err(perr("Unclosed attribute expression", p)); },
        };
        let spread = match src.at_end(p, "{...") {
            Some(e) => if e <= close { Some(e) } else { None },
            None => None,
        };
        let a = if let Some(e) = spread {
            Attribute::Spread(src.expr(e, close))
        } else {
            let e = src.expr(p + 1, close);
            Attribute::Named { name: e.content.clone(), value: AttributeValue::Shorthand(e) }
        };
        Ok((a, close + 1))
    } else {
        let a = p;
        let b = src.name_end(a);
        if a == b {
            return Err(perr("Invalid attribute", p));
        }
        let name = string_of_range(&src.c, a, b);
        if b < src.len() && src.ch(b) == '=' {
            let v = b + 1;
            if v >= src.len() {
                return Err(perr("Missing attribute value", b));
            }
            let q = src.ch(v);
            if q == '"' || q == '\'' {
                let mut e = v + 1;
                while e < src.len() && src.ch(e) != q
                    invariant
                        v < e <= src.s().len(),
                        find_char_from(src.s(), q, v + 1) == find_char_from(src.s(), q, e as int),
                    decreases src.s().len() - e,
                {
                    e = e + 1;
                }
                if e >= src.len() {
                    return Err(perr("Unclosed attribute value", v));
                }
                let value = quoted_value(src, v + 1, e);
                Ok((Attribute::Named { name, value }, e + 1))
            } else if q == '{' {
                let close = match src.close_brace(v) {
                    Some(k) => k,
                    None => { return Err(perr("Unclosed attribute expression", v)); },
                };
                let raw = match src.word_end(v, "{@html", '}') {
                    Some(h) => if h <= close { Some(h) } else { None },
                    None => None,
                };
                let value = match raw {
                    Some(h) => AttributeValue::RawHtml(src.expr(h, close)),
                    None => AttributeValue::Dynamic(src.expr(v + 1, close)),
                };
                Ok((Attribute::Named { name, value }, close + 1))
            } else {
                let mut e = v;
                while e < src.len() && !is_ws_char(src.ch(e)) && src.ch(e) != '>' && !src.at(e, "/>")
                    invariant
                        v <= e <= src.s().len(),
                        bare_value_end(src.s(), v as int) == bare_value_end(src.s(), e as int),
                    decreases src.s().len() - e,
                {
                    e = e + 1;
                }
                if e == v {
                    return Err(perr("Missing attribute value", v));
                }
                Ok((Attribute::Named { name, value: AttributeValue::Static(string_of_range(&src.c, v, e)) }, e))
            }
        } else {
            Ok((Attribute::Named { name, value: AttributeValue::BooleanTrue }, b))
        }
    }
}

/// `v` before the attributes of `r`.
spec fn prepend_attrs(v: Seq<SAttr>, r: Result<(Seq<SAttr>, int, bool), SErr>) -> Result<(Seq<SAttr>, int, bool), SErr> {
    match r {
        Ok((rest, q, closed)) => Ok((v + rest, q, closed)),
        Err(e) => Err(e),
    }
}

/// The attributes from `pos` up to the end of the opening tag. Returns them,
/// the offset after the tag, and whether it closed itself.
fn parse_attributes(src: &Src, pos: usize) -> (r: Result<(Vec<Attribute>, usize, bool), PErr>)
    requires
        pos <= src.s().len(),
        src.ok(),
    ensures
        r matches Ok((attrs, q, _)) ==> pos < q <= src.s().len() && attrs_wf(src.s(), attrs@),
        r matches Ok((_, q, self_closing)) ==> if self_closing {
            occurs_at(src.s(), "/>"@, q - 2)
        } else {
            src.s()[q - 1] == '>'
        },
        ({
            let p = skip_ws_from(src.s(), pos as int);
            if p >= src.s().len() {
                r matches Err(e) && e.pos == pos
            } else if occurs_at(src.s(), "/>"@, p) {
                r matches Ok((attrs, q, self_closing)) && attrs@.len() == 0 && q == p + 2 && self_closing
            } else if src.s()[p] == '>' {
                r matches Ok((attrs, q, self_closing)) && attrs@.len() == 0 && q == p + 1 && !self_closing
            } else {
                true
            }
        }),
        attrs_res(r) == attrs_spec(src.s(), pos as int, pos as int),
{
    proof {
        reveal_strlit("/>");
    }
    let mut attrs: Vec<Attribute> = Vec::new();
    let mut p = pos;
    loop
        invariant
            pos <= p <= src.s().len(),
            src.ok(),
            attrs_wf(src.s(), attrs@),
            p == pos ==> attrs@.len() == 0,
            p != pos ==> skip_ws_from(src.s(), pos as int) < p && !occurs_at(src.s(), "/>"@, skip_ws_from(src.s(), pos as int))
                && src.s()[skip_ws_from(src.s(), pos as int)] != '>',
            attrs_spec(src.s(), pos as int, pos as int) == prepend_attrs(attrs_view(attrs@), attrs_spec(src.s(), pos as int, p as int)),
        decreases src.s().len() - p,
    {
        proof {
            reveal_strlit("/>");
            crate::text::lemma_skip_ws_bounds(src.s(), p as int);
        }
        let ghost p0 = p;
        p = src.skip_ws(p);
        if p >= src.len() {
            return Err(perr("Unclosed tag", pos));
        }
        if let Some(e) = src.at_end(p, "/>") {
            return Ok((attrs, e, true));
        }
        let c = src.ch(p);
        if c == '>' {
            return Ok((attrs, p + 1, false));
        }
        let (attr, q) = match parse_attribute(src, p) {
            Ok(x) => x,
            Err(e) => {
                return Err(e);
            },
        };
        proof {
            assert(attrs_view(attrs@.push(attr)) =~= attrs_view(attrs@).push(attr_view(attr)));
            match attrs_spec(src.s(), pos as int, q as int) {
                Ok((rest, q2, c)) => {
                    assert(attrs_view(attrs@) + (seq![attr_view(attr)] + rest) =~= attrs_view(attrs@).push(attr_view(attr)) + rest);
                },
                Err(_) => {},
            }
        }
        p = q;
        let ghost before = attrs@;
        attrs.push(attr);
        assert(attrs_wf(src.s(), attrs@)) by {
            assert forall|i: int| 0 <= i < attrs@.len() implies #[trigger] attr_wf(src.s(), attrs@[i]) by {
                if i < before.len() {
                    assert(attrs@[i] == before[i]);
                }
            }
        }
    }
}

/// An HTML comment at `pos` whose text starts at `start`: text and
/// mustaches up to `-->`.
fn parse_html_comment(src: &Src, pos: usize, start: usize) -> (r: Result<(Node, usize), PErr>)
    requires
        pos < start <= src.s().len(),
        src.ok(),
    ensures
        r matches Ok((n, q)) ==> pos < q <= src.s().len() && node_wf(src.s(), n),
        match find_from(src.s(), "-->"@, start as int) {
            None => r matches Err(e) && e.pos == pos,
            Some(end) => r matches Ok((n, q)) && q == end + 3 && (n matches Node::HtmlComment { children }
                && comment_children(src.s(), children@, comment_parts(src.s(), start as int, end))),
        },
        node_res(r) == comment_spec(src.s(), pos as int, start as int),
{
    proof {
        reveal_strlit("-->");
    }
    let end_lit = chars_of("-->");
    let end = match find_at(&src.c, &end_lit, start) {
        Some(k) => k,
        None => { return Err(perr("Unclosed HTML comment", pos)); },
    };
    proof {
        crate::text::lemma_find_from_bounds(src.s(), end_lit@, start as int);
    }
    let mut children: Vec<Node> = Vec::new();
    let mut p = start;
    let ghost all = comment_parts(src.s(), start as int, end as int);
    let ghost mut done: Seq<(bool, int, int)> = Seq::empty();
    while p < end
        invariant
            start <= p <= end,
            end + end_lit@.len() <= src.s().len(),
            src.ok(),
            nodes_wf(src.s(), children@),
            all == comment_parts(src.s(), start as int, end as int),
            all == done + comment_parts(src.s(), p as int, end as int),
            comment_children(src.s(), children@, done),
            nodes_view(children@) == done.map_values(|part: (bool, int, int)| part_node(src.s(), part)),
        decreases end - p,
    {
        let ghost rest = comment_parts(src.s(), p as int, end as int);
        if src.ch(p) == '{' {
            if let Some(close) = src.close_brace(p) {
                if close < end {
                    let e = src.expr(p + 1, close);
                    let ghost old_children = children@;
                    let ghost gn = Node::MustacheNode { expression: e };
                    push_node(src, &mut children, Node::MustacheNode { expression: e });
                    proof {
                        let part = (true, p + 1, close as int);
                        assert(children@.drop_last() =~= old_children);
                        assert(nodes_view(children@) == nodes_view(old_children).push(node_view(gn)));
                        assert(done.push(part).map_values(|part: (bool, int, int)| part_node(src.s(), part))
                            =~= done.map_values(|part: (bool, int, int)| part_node(src.s(), part)).push(part_node(src.s(), part)));
                        assert(rest == seq![part] + comment_parts(src.s(), close + 1, end as int));
                        assert(done + rest =~= done.push(part) + comment_parts(src.s(), close + 1, end as int));
                        done = done.push(part);
                        assert forall|k: int| 0 <= k < done.len() implies #[trigger] child_is(src.s(), children@[k], done[k]) by {
                            if k < done.len() - 1 {
                                assert(children@[k] == old_children[k]);
                            }
                        }
                    }
                    p = close + 1;
                    continue;
                }
            }
        }
        let mut q = p + 1;
        while q < end && src.ch(q) != '{'
            invariant
                p < q <= end,
                end <= src.s().len(),
                text_stop(src.s(), p + 1, end as int) == text_stop(src.s(), q as int, end as int),
            decreases end - q,
        {
            q = q + 1;
        }
        let ghost old_children = children@;
        let content = string_of_range(&src.c, p, q);
        let ghost gn = Node::TextNode { content };
        push_node(src, &mut children, Node::TextNode { content });
        proof {
            let part = (false, p as int, q as int);
            assert(children@.drop_last() =~= old_children);
            assert(nodes_view(children@) == nodes_view(old_children).push(node_view(gn)));
            assert(done.push(part).map_values(|part: (bool, int, int)| part_node(src.s(), part))
                =~= done.map_values(|part: (bool, int, int)| part_node(src.s(), part)).push(part_node(src.s(), part)));
            assert(rest == seq![part] + comment_parts(src.s(), q as int, end as int));
            assert(done + rest =~= done.push(part) + comment_parts(src.s(), q as int, end as int));
            done = done.push(part);
            assert forall|k: int| 0 <= k < done.len() implies #[trigger] child_is(src.s(), children@[k], done[k]) by {
                if k < done.len() - 1 {
                    assert(children@[k] == old_children[k]);
                }
            }
        }
        p = q;
    }
    proof {
        assert(comment_parts(src.s(), p as int, end as int) =~= Seq::<(bool, int, int)>::empty());
        assert(done =~= all);
        assert(end_lit@.len() == 3);
    }
    Ok((Node::HtmlComment { children }, end + end_lit.len()))
}

/// A `<script ...>...</script>` tag at `pos`. Returns its kind (0 regular,
/// 1 module, 2 other), the range of the opening tag, the range of the
/// content, and the offset after the closing tag.
fn parse_script_tag(src: &Src, pos: usize, start: usize) -> (r: Result<((u8, usize, usize, usize, usize), usize), PErr>)
    requires
        pos < start <= src.s().len(),
        src.ok(),
    ensures
        r matches Ok((t, q)) ==> pos < q <= src.s().len() && t.1 <= t.2 <= src.s().len() && t.3 <= t.4
            <= src.s().len(),
        match find_char_from(src.s(), '>', start as int) {
            None => r matches Err(e) && e.pos == pos,
            Some(gt) => match find_from(src.s(), "</script>"@, gt + 1) {
                None => r matches Err(e) && e.pos == pos,
                Some(end) => r matches Ok((t, q)) && t == (script_kind(trim(src.s().subrange(start as int, gt))), pos,
                    (gt + 1) as usize, (gt + 1) as usize, end as usize) && q == end + 9,
            },
        },
        match (r, script_tag_spec(src.s(), pos as int, start as int)) {
            (Ok((t, q)), Ok((st, sq))) => t.0 == st.0 && t.1 == st.1 && t.2 == st.2 && t.3 == st.3 && t.4 == st.4 && q == sq,
            (Err(e), Err(se)) => err_view(e) == se,
            _ => false,
        },
{
    proof {
        reveal_strlit("</script>");
        reveal_strlit("module");
        reveal_strlit("context=\"module\"");
        reveal_strlit("context='module'");
    }
    let mut gt = start;
    while gt < src.len() && src.ch(gt) != '>'
        invariant
            start <= gt <= src.s().len(),
            find_char_from(src.s(), '>', start as int) == find_char_from(src.s(), '>', gt as int),
        decreases src.s().len() - gt,
    {
        gt = gt + 1;
    }
    if gt >= src.len() {
        return Err(perr("Unclosed script tag", pos));
    }
    let (x, y) = trim_bounds(&src.c, start, gt);
    let kind: u8 = if x == y {
        0
    } else if range_is(src, x, y, "module") || range_is(src, x, y, "context=\"module\"") || range_is(
        src,
        x,
        y,
        "context='module'",
    ) {
        1
    } else {
        2
    };
    let end_lit = chars_of("</script>");
    let end = match find_at(&src.c, &end_lit, gt + 1) {
        Some(k) => k,
        None => { return Err(perr("Unclosed script tag", pos)); },
    };
    proof {
        crate::text::lemma_find_from_bounds(src.s(), end_lit@, gt + 1);
    }
    Ok(((kind, pos, gt + 1, gt + 1, end), end + end_lit.len()))
}

/// The node holds something besides whitespace and comments.
fn is_content(n: &Node) -> (b: bool)
    ensures
        b == match *n {
            Node::TextNode { content } => trim(content@).len() > 0,
            Node::LuatComment => false,
            Node::HtmlComment { .. } => false,
            _ => true,
        },
{
    match n {
        Node::TextNode { content } => {
            let v = chars_of(content.as_str());
            let (a, b) = trim_bounds(&v, 0, v.len());
            proof {
                assert(v@.subrange(0, v@.len() as int) =~= content@);
                assert(v@.subrange(a as int, b as int).len() == b - a);
            }
            a < b
        },
        Node::LuatComment => false,
        Node::HtmlComment { .. } => false,
        _ => true,
    }
}

/// A script block from the content at `src[a..b]`, its magic functions
/// rewritten.
fn script_block(src: &Src, kind: ScriptType, a: usize, b: usize, start: usize, end: usize) -> (r: Result<ScriptBlock, PErr>)
    requires
        a <= b <= src.s().len(),
        start <= src.s().len(),
        src.ok(),
    ensures
        r is Ok <==> processable(src.s().subrange(a as int, b as int)),
        r matches Err(e) ==> e.pos == a && e.message@ == "Malformed magic function call in script"@,
        r matches Ok(block) ==> block.content@ == processed(src.s().subrange(a as int, b as int))
            && block.script_type == kind && block.span.start == start && block.span.end == end
            && block.span.line as int == line_at(src.s(), start as int)
            && block.span.column as int == col_at(src.s(), start as int),
{
    let raw = string_of_range(&src.c, a, b);
    if !is_processable(raw.as_str()) {
        return Err(perr("Malformed magic function call in script", a));
    }
    let content = process_script_content(raw.as_str());
    let (line, col) = src.line_col(start);
    Ok(ScriptBlock { script_type: kind, content, span: Span { start, end, line, column: col } })
}

/// Module names in `require("...")` / `require('...')` calls of `script`.
fn requires_of(script: &String, out: &mut Vec<String>)
    ensures
        views(final(out)@) == views(old(out)@) + require_names(script@, 0),
{
    let v = chars_of(script.as_str());
    let lit = chars_of("require");
    proof {
        reveal_strlit("require");
    }
    let ghost start = views(out@);
    let mut p: usize = 0;
    while p < v.len()
        invariant
            p <= v@.len(),
            v@ == script@,
            lit@ == "require"@,
            start == views(old(out)@),
            views(out@) + require_names(v@, p as int) == start + require_names(v@, 0),
        decreases v@.len() - p,
    {
        match find_at(&v, &lit, p) {
            None => {
                proof {
                    assert(require_names(v@, p as int) =~= Seq::<Seq<char>>::empty());
                    assert(views(out@) =~= views(out@) + Seq::<Seq<char>>::empty());
                }
                return;
            },
            Some(k) => {
                proof {
                    crate::text::lemma_find_from_bounds(v@, lit@, p as int);
                    reveal_strlit("require");
                    assert(lit@.len() == 7);
                }
                if lit.len() == 0 {
                    return;
                }
                let after = k + lit.len();
                proof {
                    assert(find_from(v@, "require"@, p as int) == Some(k as int));
                    assert(k >= p && k + 7 <= v@.len());
                    assert(after == k + 7);
                }
                let ghost before = views(out@);
                let mut q = after;
                proof {
                    crate::text::lemma_skip_ws_bounds(v@, after as int);
                }
                while q < v.len() && is_ws_char(v[q])
                    invariant
                        after <= q <= v@.len(),
                        skip_ws_from(v@, after as int) == skip_ws_from(v@, q as int),
                    decreases v@.len() - q,
                {
                    q = q + 1;
                }
                if q < v.len() && v[q] == '(' {
                    q = q + 1;
                    let q1 = q;
                    while q < v.len() && is_ws_char(v[q])
                        invariant
                            q1 <= q <= v@.len(),
                            skip_ws_from(v@, q1 as int) == skip_ws_from(v@, q as int),
                        decreases v@.len() - q,
                    {
                        q = q + 1;
                    }
                    if q < v.len() && (v[q] == '"' || v[q] == '\'') {
                        let quote = v[q];
                        let mut e = q + 1;
                        while e < v.len() && v[e] != quote
                            invariant
                                q < e <= v@.len(),
                                find_char_from(v@, quote, q + 1) == find_char_from(v@, quote, e as int),
                            decreases v@.len() - e,
                        {
                            e = e + 1;
                        }
                        if e < v.len() {
                            out.push(string_of_range(&v, q + 1, e));
                            proof {
                                assert(views(out@) =~= before.push(v@.subrange(q + 1, e as int)));
                            }
                        }
                    }
                }
                proof {
                    assert(require_names(v@, p as int) == match require_name_at(v@, k as int) {
                        Some(n) => seq![n],
                        None => Seq::<Seq<char>>::empty(),
                    } + require_names(v@, after as int));
                }
                p = after;
            },
        }
    }
    proof {
        assert(require_names(v@, p as int) =~= Seq::<Seq<char>>::empty());
        assert(views(out@) =~= views(out@) + Seq::<Seq<char>>::empty());
    }
}

fn to_luat_error(src: &Src, e: PErr) -> (r: LuatError)
    requires
        src.ok(),
    ensures
        r matches LuatError::ParseError { line, .. } && line <= src.s().len() + 1,
        r matches LuatError::ParseError { message, line, column, file, source_context } && message == e.message
            && line as int == line_at(src.s(), if e.pos <= src.s().len() { e.pos as int } else { src.s().len() as int })
            && column as int == col_at(src.s(), if e.pos <= src.s().len() { e.pos as int } else { src.s().len() as int })
            && file is None && source_context is None,
{
    let pos = if e.pos <= src.len() { e.pos } else { src.len() };
    let (line, column) = src.line_col(pos);
    LuatError::ParseError { message: e.message, line, column, file: None, source_context: None }
}

/// Parses a template.
///
/// On success every expression of the body is the source text at its span,
/// with the span's line and column, and each script holds the rewritten text
/// of its block.
#[verifier::rlimit(100)]
pub fn parse_template(source: &str) -> (r: Result<TemplateAST, LuatError>)
    requires
        source@.len() < usize::MAX / 4,
    ensures
        match r {
            Ok(ast) => {
                &&& nodes_wf(source@, ast.body@)
                &&& script_wf(source@, ast.module_script)
                &&& script_wf(source@, ast.regular_script)
                &&& ast.path is None
                &&& views(ast.imports@) == script_imports(ast.module_script) + script_imports(ast.regular_script)
            },
            Err(e) => is_parse_failure(e) && (e matches LuatError::ParseError { line, .. } ==> line <= source@.len() + 1),
        },
        plain_text(source@) ==> (r matches Ok(ast) && ast.module_script is None && ast.regular_script is None
            && ast.body@.len() == (if source@.len() == 0 { 0int } else { 1int })
            && (source@.len() > 0 ==> (ast.body@[0] matches Node::TextNode { content } && content@ == source@))),
        template_view(r) == template_spec(source@),
{
    let src = Src { c: chars_of(source) };
    let mut body: Vec<Node> = Vec::new();
    let mut module_script: Option<ScriptBlock> = None;
    let mut regular_script: Option<ScriptBlock> = None;
    let mut imports: Vec<String> = Vec::new();
    let mut has_content = false;
    let mut p: usize = 0;
    while p < src.len()
        invariant
            p <= src.s().len(),
            src.s() == source@,
            src.ok(),
            nodes_wf(src.s(), body@),
            script_wf(src.s(), module_script),
            script_wf(src.s(), regular_script),
            views(imports@) == script_imports(module_script) + script_imports(regular_script),
            top_spec(src.s(), 0, STop { body: Seq::empty(), module_script: None, regular_script: None, has_content: false })
                == top_spec(src.s(), p as int, STop {
                    body: nodes_view(body@),
                    module_script: script_view(module_script),
                    regular_script: script_view(regular_script),
                    has_content,
                }),
            plain_text(src.s()) ==> module_script is None && regular_script is None && ((p == 0 && body@.len() == 0)
                || (p == src.s().len() && p > 0 && body@.len() == 1 && (body@[0] matches Node::TextNode { content }
                && content@ == src.s()))),
        decreases src.s().len() - p,
    {
        if let Some(e) = src.word_end(p, "<script", '>') {
            proof {
                reveal_strlit("<script");
                assert(src.s().subrange(p as int, p + 7)[0] == src.s()[p as int]);
            }
            let (t, q) = match parse_script_tag(&src, p, e) {
                Ok(x) => x,
                Err(e) => { return Err(to_luat_error(&src, e)); },
            };
            let (kind, ta, tb, ca, cb) = t;
            if kind == 1 {
                if module_script.is_some() {
                    return Err(LuatError::MultipleModuleScripts);
                }
                if has_content || regular_script.is_some() {
                    return Err(LuatError::ModuleScriptNotFirst);
                }
                let block = match script_block(&src, ScriptType::Module, ca, cb, p, q) {
                    Ok(b) => b,
                    Err(e) => { return Err(to_luat_error(&src, e)); },
                };
                assert(0 <= ca <= cb <= src.s().len() && block.content@ == processed(src.s().subrange(ca as int, cb as int)));
                requires_of(&block.content, &mut imports);
                module_script = Some(block);
            } else if kind == 0 {
                if regular_script.is_some() {
                    return Err(LuatError::MultipleRegularScripts);
                }
                let block = match script_block(&src, ScriptType::Regular, ca, cb, p, q) {
                    Ok(b) => b,
                    Err(e) => { return Err(to_luat_error(&src, e)); },
                };
                assert(0 <= ca <= cb <= src.s().len() && block.content@ == processed(src.s().subrange(ca as int, cb as int)));
                requires_of(&block.content, &mut imports);
                regular_script = Some(block);
            } else {
                has_content = true;
                let node = Node::ScriptAny {
                    tag: string_of_range(&src.c, ta, tb),
                    content: string_of_range(&src.c, ca, cb),
                };
                let ghost gnode = node;
                let ghost before = body@;
                push_node(&src, &mut body, node);
                proof {
                    assert(body@.drop_last() =~= before);
                    assert(nodes_view(body@) == nodes_view(before).push(node_view(gnode)));
                }
            }
            p = q;
        } else if src.is_control(p) {
            return Err(to_luat_error(&src, perr("Unexpected closing tag", p)));
        } else {
            let (n, q) = match parse_node(&src, p) {
                Ok(x) => x,
                Err(e) => { return Err(to_luat_error(&src, e)); },
            };
            if is_content(&n) {
                has_content = true;
            }
            let ghost gnode = n;
            let ghost before = body@;
            push_node(&src, &mut body, n);
            proof {
                assert(body@.drop_last() =~= before);
                assert(nodes_view(body@) == nodes_view(before).push(node_view(gnode)));
            }
            p = q;
        }
    }
    Ok(TemplateAST { module_script, regular_script, body, imports, path: None })
}

} // verus!
