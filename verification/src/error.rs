//! Error types, with rich source context for parse errors.

use vstd::prelude::*;
use crate::text::{
    chars_of, dec, dec_string, lines, lines_of, pad4, push_char, push_pad4, push_repeat,
    repeat, views,
};

verus! {

/// `mlua::Error`.
#[verifier::external_type_specification]
#[verifier::external_body]
pub struct ExLuaError(mlua::Error);

/// `std::io::Error`.
#[verifier::external_type_specification]
#[verifier::external_body]
pub struct ExIoError(std::io::Error);

/// A snippet of source around an error location, with line numbers and a
/// caret under the error column.
#[derive(Debug, Clone)]
pub struct SourceContext {
    /// All lines of the source.
    pub lines: Vec<String>,
    /// Line of the error (1-indexed).
    pub error_line: usize,
    /// Column of the error (1-indexed).
    pub error_column: usize,
    /// First line of the snippet (1-indexed).
    pub snippet_start: usize,
    /// Last line of the snippet (1-indexed).
    pub snippet_end: usize,
}

/// One entry of a snippet: the numbered line, and the caret line under the
/// error line.
pub open spec fn snippet_entry(ctx: SourceContext, n: int) -> Seq<char> {
    let numbered = pad4(dec(n as nat)) + " | "@ + ctx.lines@[n - 1]@ + "\n"@;
    if n == ctx.error_line {
        numbered + "     | "@ + repeat(" "@, (if ctx.error_column >= 1 { ctx.error_column - 1 } else { 0 }) as nat) + "^\n"@
    } else {
        numbered
    }
}

/// The snippet entries for line numbers `snippet_start..k`.
pub open spec fn snippet_upto(ctx: SourceContext, k: int) -> Seq<char>
    decreases k - ctx.snippet_start,
{
    if k <= ctx.snippet_start {
        Seq::empty()
    } else {
        snippet_upto(ctx, k - 1) + snippet_entry(ctx, k - 1)
    }
}

/// Last line number that the snippet shows.
pub open spec fn snippet_last(ctx: SourceContext) -> int {
    if ctx.snippet_end <= ctx.lines@.len() { ctx.snippet_end as int } else { ctx.lines@.len() as int }
}

/// The text [`SourceContext::format_snippet`] produces.
pub open spec fn snippet_text(ctx: SourceContext) -> Seq<char> {
    if snippet_last(ctx) < ctx.snippet_start {
        Seq::empty()
    } else {
        snippet_upto(ctx, snippet_last(ctx) + 1)
    }
}

impl SourceContext {
    /// Context for an error at `line`/`column` of `source`: all its lines, and
    /// the snippet from three lines before to three lines after the error.
    pub fn from_source(source: &str, line: usize, column: usize) -> (r: Self)
        requires
            line <= usize::MAX - 3,
        ensures
            views(r.lines@) == lines(source@),
            r.error_line == line,
            r.error_column == column,
            r.snippet_start == (if line >= 4 { line - 3 } else { 1 }),
            r.snippet_end == (if line + 3 <= lines(source@).len() { line + 3 } else { lines(source@).len() as int }),
    {
        let v = chars_of(source);
        let ls = lines_of(&v);
        let start = if line >= 4 { line - 3 } else { 1 };
        let end = if line + 3 <= ls.len() { line + 3 } else { ls.len() };
        SourceContext { lines: ls, error_line: line, error_column: column, snippet_start: start, snippet_end: end }
    }

    /// The snippet: for each line from `snippet_start` to `snippet_end` (and
    /// no further than the last line), `{:4} | line`, and under the error line
    /// a caret at the error column.
    pub fn format_snippet(&self) -> (r: String)
        requires
            self.snippet_start >= 1,
        ensures
            r@ == snippet_text(*self),
    {
        let mut result = String::new();
        let last = if self.snippet_end <= self.lines.len() { self.snippet_end } else { self.lines.len() };
        if last < self.snippet_start {
            return result;
        }
        let mut n = self.snippet_start;
        while n <= last
            invariant
                1 <= self.snippet_start <= n <= last + 1,
                last as int == snippet_last(*self),
                last <= self.lines@.len(),
                result@ == snippet_upto(*self, n as int),
            decreases last + 1 - n,
        {
            let num = dec_string(n);
            push_pad4(&mut result, &num);
            result.append(" | ");
            result.append(self.lines[n - 1].as_str());
            result.append("\n");
            if n == self.error_line {
                result.append("     | ");
                let pad = if self.error_column >= 1 { self.error_column - 1 } else { 0 };
                push_repeat(&mut result, " ", pad);
                result.append("^\n");
            }
            assert(result@ =~= snippet_upto(*self, n as int) + snippet_entry(*self, n as int));
            if n == usize::MAX {
                return result;
            }
            n = n + 1;
        }
        result
    }
}

/// The errors of the library.
#[derive(Debug)]
pub enum LuatError {
    /// Template parsing failed.
    ParseError {
        /// What went wrong.
        message: String,
        /// Line of the error.
        line: usize,
        /// Column of the error.
        column: usize,
        /// The file, if known.
        file: Option<String>,
        /// Source context for display.
        source_context: Option<SourceContext>,
    },
    /// AST to IR transformation failed.
    TransformError(String),
    /// Lua code generation failed.
    CodegenError(String),
    /// Lua runtime error.
    LuaError(mlua::Error),
    /// File I/O error.
    IoError(std::io::Error),
    /// A template could not be found or resolved.
    ResolutionError(String),
    /// A cache operation failed.
    CacheError(String),
    /// A required module could not be found.
    ModuleNotFound(String),
    /// The template structure is invalid.
    InvalidTemplate(String),
    /// More than one module script.
    MultipleModuleScripts,
    /// More than one regular script.
    MultipleRegularScripts,
    /// The module script is not the first thing in the template.
    ModuleScriptNotFirst,
    /// Runtime error while rendering.
    TemplateRuntimeError {
        /// The template.
        template: String,
        /// What went wrong.
        message: String,
        /// Lua stack trace, if any.
        lua_traceback: Option<String>,
        /// Source context for display.
        source_context: Option<SourceContext>,
    },
    /// Error while processing a module in a bundle.
    BundleModuleError {
        /// The module.
        module: String,
        /// What went wrong.
        message: String,
        /// The underlying error.
        original_error: Box<LuatError>,
    },
}

/// How `{:?}` writes a character inside a string.
pub open spec fn debug_char(c: char) -> Seq<char> {
    if c == '"' { "\\\""@ }
    else if c == '\\' { "\\\\"@ }
    else if c == '\n' { "\\n"@ }
    else if c == '\r' { "\\r"@ }
    else if c == '\t' { "\\t"@ }
    else if c == '\0' { "\\0"@ }
    else { seq![c] }
}

/// How `{:?}` writes the characters of a string.
pub open spec fn debug_escape(s: Seq<char>) -> Seq<char>
    decreases s.len(),
{
    if s.len() == 0 {
        Seq::empty()
    } else {
        debug_escape(s.drop_last()) + debug_char(s.last())
    }
}

/// How `{:?}` writes an optional string.
pub open spec fn debug_opt_string(o: Option<String>) -> Seq<char> {
    match o {
        None => "None"@,
        Some(s) => "Some(\""@ + debug_escape(s@) + "\")"@,
    }
}

/// The snippet of an optional source context (empty without one).
pub open spec fn opt_snippet(o: Option<SourceContext>) -> Seq<char> {
    match o {
        None => Seq::empty(),
        Some(ctx) => snippet_text(ctx),
    }
}

/// Source contexts that can be displayed.
pub open spec fn context_ok(o: Option<SourceContext>) -> bool {
    match o {
        None => true,
        Some(ctx) => ctx.snippet_start >= 1,
    }
}

/// The message of an error whose parts are all the library's own.
pub open spec fn error_message(e: LuatError) -> Seq<char> {
    match e {
        LuatError::ParseError { message, line, column, file, source_context } =>
            "Parse error in "@ + debug_opt_string(file) + ": "@ + message@ + " at line "@
                + dec(line as nat) + ", column "@ + dec(column as nat) + "\n"@ + opt_snippet(source_context),
        LuatError::TransformError(m) => "Transform error: "@ + m@,
        LuatError::CodegenError(m) => "Code generation error: "@ + m@,
        LuatError::ResolutionError(m) => "Resolution error: "@ + m@,
        LuatError::CacheError(m) => "Cache error: "@ + m@,
        LuatError::ModuleNotFound(m) => "Module not found: "@ + m@,
        LuatError::InvalidTemplate(m) => "Invalid template: "@ + m@,
        LuatError::MultipleModuleScripts => "Multiple module scripts found"@,
        LuatError::MultipleRegularScripts => "Multiple regular scripts found"@,
        LuatError::ModuleScriptNotFirst => "Module script must be first"@,
        LuatError::TemplateRuntimeError { template, message, lua_traceback, source_context } =>
            "Template runtime error in "@ + template@ + ": "@ + message@ + "\n"@ + opt_snippet(source_context),
        LuatError::BundleModuleError { module, message, original_error } =>
            "Bundle module error: "@ + module@ + " - "@ + message@,
        LuatError::LuaError(_) => Seq::empty(),
        LuatError::IoError(_) => Seq::empty(),
    }
}

/// Text of an outside Lua error (`mlua::Error`'s `Display`).
#[verifier::external_body]
fn lua_error_text(e: &mlua::Error) -> String {
    e.to_string()
}

/// Text of an I/O error (`std::io::Error`'s `Display`).
#[verifier::external_body]
pub(crate) fn io_error_text(e: &std::io::Error) -> String {
    e.to_string()
}

/// Appends `{:?}` of a string, without the quotes.
fn push_debug_escaped(out: &mut String, s: &String)
    ensures
        final(out)@ == old(out)@ + debug_escape(s@),
{
    let v = chars_of(s.as_str());
    let mut i: usize = 0;
    while i < v.len()
        invariant
            v@ == s@,
            i <= v@.len(),
            out@ == old(out)@ + debug_escape(v@.take(i as int)),
        decreases v@.len() - i,
    {
        let c = v[i];
        if c == '"' { out.append("\\\""); }
        else if c == '\\' { out.append("\\\\"); }
        else if c == '\n' { out.append("\\n"); }
        else if c == '\r' { out.append("\\r"); }
        else if c == '\t' { out.append("\\t"); }
        else if c == '\0' { out.append("\\0"); }
        else { push_char(out, c); }
        proof {
            assert(v@.take(i + 1).drop_last() =~= v@.take(i as int));
        }
        i = i + 1;
    }
    assert(v@.take(v@.len() as int) =~= v@);
}

fn push_opt_snippet(out: &mut String, o: &Option<SourceContext>)
    requires
        context_ok(*o),
    ensures
        final(out)@ == old(out)@ + opt_snippet(*o),
{
    match o {
        None => {},
        Some(ctx) => {
            let t = ctx.format_snippet();
            out.append(t.as_str());
        },
    }
}

/// An optional source context, shown as its snippet, or as nothing.
pub struct OptSourceContextDisplay<'a>(pub &'a Option<SourceContext>);

impl<'a> OptSourceContextDisplay<'a> {
    /// The snippet of the context, empty when there is none.
    pub fn to_message(&self) -> (r: String)
        requires
            context_ok(*self.0),
        ensures
            r@ == opt_snippet(*self.0),
    {
        let mut out = String::new();
        push_opt_snippet(&mut out, self.0);
        proof {
            assert(out@ =~= opt_snippet(*self.0));
        }
        out
    }
}

/// Something that can be shown as an optional source context.
pub trait AsDisplay<'a> {
    /// The value wrapped for showing.
    fn as_display(&'a self) -> OptSourceContextDisplay<'a>;
}

impl<'a> AsDisplay<'a> for Option<SourceContext> {
    fn as_display(&'a self) -> (r: OptSourceContextDisplay<'a>)
        ensures
            *r.0 == *self,
    {
        OptSourceContextDisplay(self)
    }
}

impl LuatError {
    /// The error's message, as its `Display` writes it. Of Lua and I/O errors
    /// it is the outside error's own text.
    pub fn to_message(&self) -> (r: String)
        requires
            match self {
                LuatError::ParseError { source_context, .. } => context_ok(*source_context),
                LuatError::TemplateRuntimeError { source_context, .. } => context_ok(*source_context),
                _ => true,
            },
        ensures
            !(self is LuaError) && !(self is IoError) ==> r@ == error_message(*self),
    {
        let mut out = String::new();
        match self {
            LuatError::ParseError { message, line, column, file, source_context } => {
                out.append("Parse error in ");
                match file {
                    None => out.append("None"),
                    Some(f) => {
                        out.append("Some(\"");
                        push_debug_escaped(&mut out, f);
                        out.append("\")");
                    },
                }
                out.append(": ");
                out.append(message.as_str());
                out.append(" at line ");
                out.append(dec_string(*line).as_str());
                out.append(", column ");
                out.append(dec_string(*column).as_str());
                out.append("\n");
                push_opt_snippet(&mut out, source_context);
            },
            LuatError::TransformError(m) => { out.append("Transform error: "); out.append(m.as_str()); },
            LuatError::CodegenError(m) => { out.append("Code generation error: "); out.append(m.as_str()); },
            LuatError::ResolutionError(m) => { out.append("Resolution error: "); out.append(m.as_str()); },
            LuatError::CacheError(m) => { out.append("Cache error: "); out.append(m.as_str()); },
            LuatError::ModuleNotFound(m) => { out.append("Module not found: "); out.append(m.as_str()); },
            LuatError::InvalidTemplate(m) => { out.append("Invalid template: "); out.append(m.as_str()); },
            LuatError::MultipleModuleScripts => { out.append("Multiple module scripts found"); },
            LuatError::MultipleRegularScripts => { out.append("Multiple regular scripts found"); },
            LuatError::ModuleScriptNotFirst => { out.append("Module script must be first"); },
            LuatError::TemplateRuntimeError { template, message, source_context, .. } => {
                out.append("Template runtime error in ");
                out.append(template.as_str());
                out.append(": ");
                out.append(message.as_str());
                out.append("\n");
                push_opt_snippet(&mut out, source_context);
            },
            LuatError::BundleModuleError { module, message, .. } => {
                out.append("Bundle module error: ");
                out.append(module.as_str());
                out.append(" - ");
                out.append(message.as_str());
            },
            LuatError::LuaError(e) => {
                out.append("Lua execution error: ");
                out.append(lua_error_text(e).as_str());
            },
            LuatError::IoError(e) => {
                out.append("IO error: ");
                out.append(io_error_text(e).as_str());
            },
        }
        out
    }
}

} // verus!
