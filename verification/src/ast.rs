//! Abstract syntax tree of a template.
//!
//! A template is a [`TemplateAST`]: optional module and regular scripts, the
//! body nodes (markup, text, mustache expressions, control-flow blocks,
//! directives) and the imports discovered in the scripts.

use vstd::prelude::*;
use crate::text::{chars_of, contains, owned, skip_ws, starts_with, str_contains, str_starts_with, string_of_range, trim_start};

verus! {

/// AST node types representing template structure.
#[derive(Debug, PartialEq)]
pub enum Node {
    /// An HTML element like `<div>`.
    ElementNode {
        /// The tag name.
        tag: String,
        /// Element attributes.
        attributes: Vec<Attribute>,
        /// Child nodes.
        children: Vec<Node>,
    },
    /// Plain text, whitespace preserved.
    TextNode {
        /// The text.
        content: String,
    },
    /// A mustache expression `{expression}`, rendered escaped.
    MustacheNode {
        /// The Lua expression.
        expression: Expression,
    },
    /// An HTML comment `<!-- ... -->`, whose children may hold expressions.
    HtmlComment {
        /// Text and expressions inside the comment.
        children: Vec<Node>,
    },
    /// A template comment `{! ... !}`, stripped from the output.
    LuatComment,
    /// Conditional block `{#if condition}...{/if}`.
    IfBlock {
        /// The condition.
        condition: Expression,
        /// Nodes rendered when the condition holds.
        then_branch: Vec<Node>,
        /// Nodes rendered otherwise (`{:else}`).
        else_branch: Option<Vec<Node>>,
    },
    /// Iteration block `{#each list as item}...{/each}`.
    EachBlock {
        /// The list expression.
        list_expr: Expression,
        /// Name bound to the current item.
        item_id: String,
        /// Name bound to the current index, if given.
        index_id: Option<String>,
        /// Nodes rendered per item.
        body: Vec<Node>,
        /// Nodes rendered for an empty list (`{:empty}`).
        empty: Option<Vec<Node>>,
    },
    /// Whitespace-sensitive conditional block.
    SensitiveIfBlock {
        /// The condition.
        condition: Expression,
        /// Nodes rendered when the condition holds.
        then_branch: Vec<Node>,
        /// Nodes rendered otherwise.
        else_branch: Option<Vec<Node>>,
    },
    /// Whitespace-sensitive iteration block.
    SensitiveEachBlock {
        /// The list expression.
        list_expr: Expression,
        /// Name bound to the current item.
        item_id: String,
        /// Name bound to the current index, if given.
        index_id: Option<String>,
        /// Nodes rendered per item.
        body: Vec<Node>,
        /// Nodes rendered for an empty list.
        empty: Option<Vec<Node>>,
    },
    /// Local constant `{@local name = expression}`.
    LocalConst {
        /// The bound name.
        name: String,
        /// The bound expression.
        expression: Expression,
    },
    /// Raw HTML output `{@html expression}`.
    RawHtml {
        /// The expression producing HTML.
        expression: Expression,
    },
    /// A component invocation like `<Card>`.
    ComponentNode {
        /// The component name.
        name: String,
        /// Props passed to the component.
        attributes: Vec<Attribute>,
        /// Children passed as the children slot.
        children: Vec<Node>,
    },
    /// `{@render children()}` or `{@render children?.()}`.
    RenderChildren {
        /// True for the `?.()` form: render nothing when there are no children.
        optional: bool,
    },
    /// A script tag passed through untouched (e.g. `type="application/json"`).
    ScriptAny {
        /// The full opening tag.
        tag: String,
        /// The script content.
        content: String,
    },
}

/// Attribute on an element or component.
#[derive(Debug, Clone, PartialEq)]
pub enum Attribute {
    /// A named attribute like `class="foo"`.
    Named {
        /// The attribute name.
        name: String,
        /// The attribute value.
        value: AttributeValue,
    },
    /// A spread attribute `{...expr}`.
    Spread(Expression),
}

/// The value of a named attribute.
#[derive(Debug, Clone, PartialEq)]
pub enum AttributeValue {
    /// A static string value: `foo="bar"`.
    Static(String),
    /// A dynamic value: `foo={expr}` or `foo="{expr}"`.
    Dynamic(Expression),
    /// Shorthand `{foo}` for `foo={foo}`.
    Shorthand(Expression),
    /// Raw HTML value: `foo={@html expr}`.
    RawHtml(Expression),
    /// A boolean attribute with no value: `disabled`.
    BooleanTrue,
}

/// A Lua expression extracted from the template.
#[derive(Debug, Clone, PartialEq)]
pub struct Expression {
    /// The expression text.
    pub content: String,
    /// Where it stands in the source.
    pub span: Span,
}

/// Source location of a syntax element.
#[derive(Debug, Clone, Copy, PartialEq, Eq, Structural)]
pub struct Span {
    /// Offset of the start from the start of the source.
    pub start: usize,
    /// Offset of the end (exclusive).
    pub end: usize,
    /// 1-indexed line number.
    pub line: usize,
    /// 1-indexed column number.
    pub column: usize,
}

/// Kind of script block.
#[derive(Debug, Clone, Copy, PartialEq, Eq, Structural)]
pub enum ScriptType {
    /// `<script>`: runs on each render.
    Regular,
    /// `<script module>` / `<script context="module">`: runs once per module.
    Module,
}

/// A script block holding Lua code.
#[derive(Debug, Clone, PartialEq)]
pub struct ScriptBlock {
    /// Module or regular script.
    pub script_type: ScriptType,
    /// The Lua source code.
    pub content: String,
    /// Where the block stands in the source.
    pub span: Span,
}

/// A parsed template.
#[derive(Debug, PartialEq)]
pub struct TemplateAST {
    /// Module-level script.
    pub module_script: Option<ScriptBlock>,
    /// Component script, run on each render.
    pub regular_script: Option<ScriptBlock>,
    /// The template body.
    pub body: Vec<Node>,
    /// Module paths required by the scripts.
    pub imports: Vec<String>,
    /// Canonical file path, set after resolution.
    pub path: Option<String>,
}

impl TemplateAST {
    /// An empty template.
    pub fn new() -> (r: Self)
        ensures
            r.module_script is None,
            r.regular_script is None,
            r.body@.len() == 0,
            r.imports@.len() == 0,
            r.path is None,
    {
        TemplateAST {
            module_script: None,
            regular_script: None,
            body: Vec::new(),
            imports: Vec::new(),
            path: None,
        }
    }
}

impl Default for TemplateAST {
    fn default() -> (r: Self)
        ensures
            r.module_script is None,
            r.regular_script is None,
            r.body@.len() == 0,
            r.imports@.len() == 0,
            r.path is None,
    {
        Self::new()
    }
}

/// A magic function such as `$state(...)` or `$derived(...)`.
#[derive(Debug, Clone, PartialEq)]
pub struct LuatMagicFunction {
    /// Name without the `$`.
    pub name: String,
    /// Arguments.
    pub args: Vec<Expression>,
    /// Optional default value (second argument of `$state`).
    pub default_value: Option<Expression>,
    /// Where it stands in the source.
    pub span: Span,
}

/// The comment line that announces a magic function `$name`.
pub open spec fn magic_comment(name: Seq<char>) -> Seq<char> {
    "-- LUAT magic function $"@ + name + " will be implemented in future\n"@
}

/// Text of the first argument, or `nil` without arguments.
pub open spec fn first_arg_text(args: Seq<Expression>) -> Seq<char> {
    if args.len() == 0 {
        "nil"@
    } else {
        args[0].content@
    }
}

/// The value a `$derived` argument becomes: a bare `function ... return ...`
/// is wrapped in parentheses.
pub open spec fn derived_value(arg: Seq<char>) -> Seq<char> {
    if starts_with(trim_start(arg), "(function"@) && contains(arg, "return"@) {
        arg
    } else if starts_with(trim_start(arg), "function"@) && contains(arg, "return"@) {
        "("@ + arg + ")"@
    } else {
        arg
    }
}

/// What [`LuatMagicFunction::to_lua`] produces.
pub open spec fn magic_to_lua(f: LuatMagicFunction) -> Seq<char> {
    if f.name@ == "derived"@ {
        magic_comment(f.name@) + (if f.args@.len() == 0 {
            "nil"@
        } else {
            derived_value(f.args@[0].content@)
        })
    } else if f.name@ == "state"@ {
        match f.default_value {
            Some(d) => magic_comment(f.name@) + first_arg_text(f.args@) + " or "@ + d.content@,
            None => magic_comment(f.name@) + first_arg_text(f.args@),
        }
    } else {
        magic_comment(f.name@) + first_arg_text(f.args@)
    }
}

/// Equality of two strings by their characters.
pub fn str_eq(a: &str, b: &str) -> (r: bool)
    ensures
        r == (a@ == b@),
{
    let av = chars_of(a);
    let bv = chars_of(b);
    if av.len() != bv.len() {
        return false;
    }
    let mut i: usize = 0;
    while i < av.len()
        invariant
            av@ == a@,
            bv@ == b@,
            av@.len() == bv@.len(),
            i <= av@.len(),
            forall|k: int| 0 <= k < i ==> av@[k] == bv@[k],
        decreases av@.len() - i,
    {
        if av[i] != bv[i] {
            return false;
        }
        i = i + 1;
    }
    assert(av@ =~= bv@);
    true
}

impl LuatMagicFunction {
    /// A magic function with the given parts.
    pub fn new(name: &str, args: Vec<Expression>, default_value: Option<Expression>, span: Span) -> (r: Self)
        ensures
            r.name@ == name@,
            r.args == args,
            r.default_value == default_value,
            r.span == span,
    {
        LuatMagicFunction { name: owned(name), args, default_value, span }
    }

    /// Lua code standing in for this magic function: a comment announcing
    /// the function, then the value it currently evaluates to.
    pub fn to_lua(&self) -> (r: String)
        ensures
            r@ == magic_to_lua(*self),
    {
        let mut out = String::new();
        out.append("-- LUAT magic function $");
        out.append(self.name.as_str());
        out.append(" will be implemented in future\n");
        assert(out@ =~= magic_comment(self.name@));
        if str_eq(self.name.as_str(), "derived") {
            if self.args.len() == 0 {
                out.append("nil");
            } else {
                let arg = self.args[0].content.as_str();
                let trimmed_start = trim_start_string(arg);
                let has_return = str_contains(arg, "return");
                if str_starts_with(trimmed_start.as_str(), "(function") && has_return {
                    out.append(arg);
                } else if str_starts_with(trimmed_start.as_str(), "function") && has_return {
                    out.append("(");
                    out.append(arg);
                    out.append(")");
                } else {
                    out.append(arg);
                }
            }
        } else if str_eq(self.name.as_str(), "state") {
            if self.args.len() == 0 {
                out.append("nil");
            } else {
                out.append(self.args[0].content.as_str());
            }
            match &self.default_value {
                Some(d) => {
                    out.append(" or ");
                    out.append(d.content.as_str());
                },
                None => {},
            }
        } else {
            if self.args.len() == 0 {
                out.append("nil");
            } else {
                out.append(self.args[0].content.as_str());
            }
        }
        out
    }
}

/// `str::trim_start` as a new `String`.
pub fn trim_start_string(s: &str) -> (r: String)
    ensures
        r@ == trim_start(s@),
{
    let v = chars_of(s);
    let a = skip_ws(&v, 0);
    string_of_range(&v, a, v.len())
}

impl Expression {
    /// An expression with the given text and location.
    pub fn new(content: &str, span: Span) -> (r: Self)
        ensures
            r.content@ == content@,
            r.span == span,
    {
        Expression { content: owned(content), span }
    }

    /// A copy of this expression.
    pub fn duplicate(&self) -> (r: Self)
        ensures
            r.content@ == self.content@,
            r.span == self.span,
    {
        Expression { content: self.content.clone(), span: self.span }
    }
}

impl Span {
    /// A source span.
    pub fn new(start: usize, end: usize, line: usize, column: usize) -> (r: Self)
        ensures
            r == (Span { start, end, line, column }),
    {
        Span { start, end, line, column }
    }
}

} // verus!
