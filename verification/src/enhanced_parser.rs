//! Parsing with the file name and source context in parse errors.

use vstd::prelude::*;
use crate::ast::TemplateAST;
use crate::error::{LuatError, SourceContext};
use crate::parser::{is_parse_failure, nodes_wf, parse_template, script_wf, template_spec, template_view, STemplateError};
use crate::text::{lines, owned, views};

verus! {

/// The view of an optional string slice.
pub open spec fn opt_str_view(o: Option<&str>) -> Option<Seq<char>> {
    match o {
        Some(s) => Some(s@),
        None => None,
    }
}

/// The view of an optional string.
pub open spec fn opt_string_view(o: Option<String>) -> Option<Seq<char>> {
    match o {
        Some(s) => Some(s@),
        None => None,
    }
}

/// `ctx` is the context of an error at `line`/`column` of `source`.
pub open spec fn context_of(ctx: SourceContext, source: Seq<char>, line: usize, column: usize) -> bool {
    &&& views(ctx.lines@) == lines(source)
    &&& ctx.error_line == line
    &&& ctx.error_column == column
    &&& ctx.snippet_start == (if line >= 4 { line - 3 } else { 1 })
    &&& ctx.snippet_end == (if line + 3 <= lines(source).len() { line + 3 } else { lines(source).len() as int })
}

/// What a parse result of `source` becomes once named `template_name`: a
/// template gets that path (where there is one), a parse error gets that
/// file and the source context of the error, and other errors pass
/// through unchanged.
pub fn add_parse_context(source: &str, template_name: Option<&str>, parsed: Result<TemplateAST, LuatError>) -> (r: Result<
    TemplateAST,
    LuatError,
>)
    requires
        parsed matches Err(LuatError::ParseError { line, .. }) ==> line <= usize::MAX - 3,
    ensures
        match parsed {
            Ok(ast) => r matches Ok(a) && a.module_script == ast.module_script && a.regular_script == ast.regular_script
                && a.body == ast.body && a.imports == ast.imports
                && opt_string_view(a.path) == (if template_name is Some { opt_str_view(template_name) } else { opt_string_view(ast.path) }),
            Err(LuatError::ParseError { message, line, column, .. }) => r matches Err(LuatError::ParseError {
                message: m2,
                line: l2,
                column: c2,
                file,
                source_context,
            }) && m2 == message && l2 == line && c2 == column && opt_string_view(file) == opt_str_view(template_name)
                && (source_context matches Some(ctx) && context_of(ctx, source@, line, column)),
            Err(other) => r == Err::<TemplateAST, LuatError>(other),
        },
{
    match parsed {
        Ok(mut ast) => {
            match template_name {
                Some(name) => {
                    ast.path = Some(owned(name));
                },
                None => {},
            }
            Ok(ast)
        },
        Err(e) => match e {
            LuatError::ParseError { message, line, column, .. } => {
                let source_context = SourceContext::from_source(source, line, column);
                let file = match template_name {
                    Some(name) => Some(owned(name)),
                    None => None,
                };
                Err(LuatError::ParseError { message, line, column, file, source_context: Some(source_context) })
            },
            other => Err(other),
        },
    }
}

/// What parsing `source` as the template named `name` gives, after the
/// grammar ([`template_spec`]): the template, with its path set to the name
/// where there is one; or the grammar's error, a syntax error carrying the
/// name and the source context.
pub open spec fn context_parse(source: Seq<char>, name: Option<Seq<char>>, r: Result<TemplateAST, LuatError>) -> bool {
    match template_spec(source) {
        Ok(t) => r matches Ok(ast) && template_view(Ok::<TemplateAST, LuatError>(ast)) == Ok::<_, STemplateError>(t)
            && (if name is Some { opt_string_view(ast.path) == name } else { ast.path is None }),
        Err(STemplateError::Syntax(m, l, c)) => r matches Err(LuatError::ParseError {
            message,
            line,
            column,
            file,
            source_context,
        }) && message@ == m && line == l && column == c && opt_string_view(file) == name
            && (source_context matches Some(ctx) && context_of(ctx, source, line, column)),
        Err(STemplateError::MultipleModuleScripts) => r matches Err(LuatError::MultipleModuleScripts),
        Err(STemplateError::MultipleRegularScripts) => r matches Err(LuatError::MultipleRegularScripts),
        Err(STemplateError::ModuleScriptNotFirst) => r matches Err(LuatError::ModuleScriptNotFirst),
        Err(STemplateError::Other) => false,
    }
}

/// Parses `source` as `parse_template` does; the template's path is
/// `template_name`, and a parse error carries it and the source context of
/// the error ([`add_parse_context`] on the parse's result).
pub fn parse_template_with_context(source: &str, template_name: Option<&str>) -> (r: Result<TemplateAST, LuatError>)
    requires
        source@.len() < usize::MAX / 4,
    ensures
        match r {
            Ok(ast) => {
                &&& nodes_wf(source@, ast.body@)
                &&& script_wf(source@, ast.module_script)
                &&& script_wf(source@, ast.regular_script)
                &&& opt_string_view(ast.path) == opt_str_view(template_name)
            },
            Err(e) => {
                &&& is_parse_failure(e)
                &&& e matches LuatError::ParseError { line, column, file, source_context, .. } ==> {
                    &&& opt_string_view(file) == opt_str_view(template_name)
                    &&& source_context matches Some(ctx) && context_of(ctx, source@, line, column)
                }
            },
        },
        context_parse(source@, opt_str_view(template_name), r),
{
    let parsed = parse_template(source);
    add_parse_context(source, template_name, parsed)
}

} // verus!
