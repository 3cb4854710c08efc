//! Compiling template sources into modules, and bundling them.

use vstd::prelude::*;
use crate::ast::TemplateAST;
use crate::cache::{string_hash, Module};
use crate::codegen::{
    bundle_map_of, bundle_sources_reporting as bundle_compiled, bundle_steps, bundle_text, comment_text, fits_line_numbers,
    generate_lua_code, generate_lua_code_with_sourcemap, phys_marks, module_lines, module_text, source_views,
};
use crate::bundler::{cannot_order, order_failed};
use crate::collections::pair_views;
use crate::progress::Progress;
use crate::dependencies::{dep_total, order_sources, ordering_of, source_graph, source_names};
use crate::enhanced_parser::{context_of, context_parse, opt_string_view, parse_template_with_context};
use crate::error::{error_message, LuatError};
use crate::parser::{is_parse_failure, nodes_wf, parse_template, script_wf, template_spec, template_view};
use crate::paths::{file_name, file_stem, path_file_name, path_file_stem, path_prefix, path_rest_after, path_starts_with, rest_after};
use crate::resolver::ResolvedResource;
use crate::sourcemap::BundleSourceMap;
use crate::text::{dec, dec_string_u64, ends_with, owned, push_char, starts_with, str_ends_with, views};
use crate::transform::{
    insert_all, is_local_error, nodes_components, nodes_ok, nodes_rel, transform_ast, validate_ir, IR,
};

verus! {

/// `ast` is the parse of `source`: what the template grammar reads from it
/// ([`template_spec`]), its expressions and scripts taken from the source.
pub open spec fn parsed_from(source: Seq<char>, ast: TemplateAST) -> bool {
    &&& template_view(Ok::<TemplateAST, LuatError>(ast)) == template_spec(source)
    &&& nodes_wf(source, ast.body@)
    &&& script_wf(source, ast.module_script)
    &&& script_wf(source, ast.regular_script)
}

/// `ir` is what transforming `ast` gives.
pub open spec fn transformed_from(ast: TemplateAST, ir: IR) -> bool {
    &&& nodes_ok(ast.body@, false)
    &&& nodes_rel(ast.body@, false, ir.body@)
    &&& ir.module_script == ast.module_script
    &&& ir.regular_script == ast.regular_script
    &&& ir.components@ == insert_all(Seq::empty(), nodes_components(ast.body@))
}

/// `ir` is the IR of a parse of `source`.
pub open spec fn ir_of(source: Seq<char>, ir: IR) -> bool {
    exists|ast: TemplateAST| #[trigger] parsed_from(source, ast) && transformed_from(ast, ir)
}

/// The parse of `source` holds a node that the transformation refuses.
pub open spec fn refused_parse(source: Seq<char>) -> bool {
    exists|ast: TemplateAST| #[trigger] parsed_from(source, ast) && !nodes_ok(ast.body@, false)
}

/// The code of the module for `ir` named `name`, with its source map as a
/// comment on the first line when the map is not empty.
pub open spec fn mapped_code(ir: IR, name: Seq<char>) -> Seq<char> {
    let marks = phys_marks(module_lines(ir, name), 2);
    if marks.len() == 0 {
        module_text(ir, name)
    } else {
        comment_text(marks) + seq!['\n'] + module_text(ir, name)
    }
}

/// The message of a template too large for the compiler's counters.
pub open spec fn too_large_message() -> Seq<char> {
    "template too large to compile"@
}

/// The error of a template too large for the compiler's counters.
pub open spec fn is_too_large(e: LuatError) -> bool {
    e matches LuatError::CodegenError(m) && m@ == too_large_message()
}

fn too_large() -> (e: LuatError)
    ensures
        is_too_large(e),
{
    proof {
        reveal_strlit("template too large to compile");
    }
    LuatError::CodegenError(owned("template too large to compile"))
}

/// A parse error of `source` with the template named `name` and the
/// source context of the error.
pub open spec fn is_named_parse_failure(e: LuatError, source: Seq<char>, name: Seq<char>) -> bool {
    &&& template_spec(source) is Err
    &&& context_parse(source, Some(name), Err(e))
    &&& is_parse_failure(e)
    &&& e matches LuatError::ParseError { line, column, file, source_context, .. } ==> {
        &&& opt_string_view(file) == Some(name)
        &&& source_context matches Some(ctx) && context_of(ctx, source, line, column)
    }
}

/// Compiles the template `source` named `name` into a module with the
/// path `path` and the source map of its code. Parse errors carry the
/// name and the source context; a `{@local}` out of place is refused.
pub fn compile_template_string_with_path(name: &str, source: &str, path: Option<String>) -> (r: Result<
    Module,
    LuatError,
>)
    ensures
        match r {
            Ok(m) => {
                &&& m.name@ == name@
                &&& m.path == path
                &&& m.dependencies@.len() == 0
                &&& m.hash == string_hash(m.lua_code@)
                &&& exists|ir: IR| #[trigger] ir_of(source@, ir) && m.lua_code@ == mapped_code(ir, name@)
                    && (m.source_map matches Some(map) && map.wf() && map@ == phys_marks(module_lines(ir, name@), 2))
            },
            Err(e) => {
                ||| is_named_parse_failure(e, source@, name@)
                ||| is_local_error(e) && refused_parse(source@)
                ||| is_too_large(e)
            },
        },
{
    if source.unicode_len() >= usize::MAX / 4 {
        return Err(too_large());
    }
    let ast = match parse_template_with_context(source, Some(name)) {
        Ok(a) => a,
        Err(e) => {
            return Err(e);
        },
    };
    if ast.body.len() == usize::MAX {
        return Err(too_large());
    }
    let ghost a = ast;
    proof {
        assert(parsed_from(source@, a));
    }
    let ir = match transform_ast(ast) {
        Ok(ir) => ir,
        Err(e) => {
            proof {
                assert(parsed_from(source@, a) && !nodes_ok(a.body@, false));
            }
            return Err(e);
        },
    };
    proof {
        assert(parsed_from(source@, a) && transformed_from(a, ir));
    }
    match validate_ir(&ir) {
        Ok(()) => {},
        Err(e) => return Err(e),
    }
    if !fits_line_numbers(&ir, name) {
        return Err(too_large());
    }
    let ghost gir = ir;
    match generate_lua_code_with_sourcemap(ir, name) {
        Ok((lua_code, source_map)) => {
            proof {
                assert(ir_of(source@, gir));
            }
            Ok(Module::with_source_map(owned(name), lua_code, Vec::new(), path, source_map))
        },
        Err(e) => Err(e),
    }
}

/// Compiles the template `source` named `name` into a module without a
/// path.
pub fn compile_template_string(name: &str, source: &str) -> (r: Result<Module, LuatError>)
    ensures
        match r {
            Ok(m) => {
                &&& m.name@ == name@
                &&& m.path is None
                &&& m.dependencies@.len() == 0
                &&& m.hash == string_hash(m.lua_code@)
                &&& exists|ir: IR| #[trigger] ir_of(source@, ir) && m.lua_code@ == mapped_code(ir, name@)
                    && (m.source_map matches Some(map) && map.wf() && map@ == phys_marks(module_lines(ir, name@), 2))
            },
            Err(e) => {
                ||| is_named_parse_failure(e, source@, name@)
                ||| is_local_error(e) && refused_parse(source@)
                ||| is_too_large(e)
            },
        },
{
    compile_template_string_with_path(name, source, None)
}

/// The code a bundle holds for the source `source` named `name`: the
/// compiled module for a `.luat` name, the source itself otherwise (which
/// must still parse as a template).
pub open spec fn bundled_code(name: Seq<char>, source: Seq<char>, code: Seq<char>) -> bool {
    exists|ir: IR| #[trigger] ir_of(source, ir)
        && code == if ends_with(name, ".luat"@) { module_text(ir, name) } else { source }
}

/// The code for the source `source` named `name` in a bundle: the
/// compiled module for a `.luat` name, the source itself otherwise, once it
/// parses and transforms as a template.
pub fn compile_for_bundle(name: &str, source: &str) -> (r: Result<String, LuatError>)
    ensures
        match r {
            Ok(code) => bundled_code(name@, source@, code@),
            Err(e) => bundle_refused(source@, e),
        },
{
    if source.unicode_len() >= usize::MAX / 4 {
        return Err(too_large());
    }
    let ast = match parse_template(source) {
        Ok(a) => a,
        Err(e) => return Err(e),
    };
    if ast.body.len() == usize::MAX {
        return Err(too_large());
    }
    let ghost a = ast;
    proof {
        assert(parsed_from(source@, a));
    }
    let ir = match transform_ast(ast) {
        Ok(ir) => ir,
        Err(e) => {
            proof {
                assert(parsed_from(source@, a) && !nodes_ok(a.body@, false));
            }
            return Err(e);
        },
    };
    proof {
        assert(parsed_from(source@, a) && transformed_from(a, ir));
        assert(ir_of(source@, ir));
    }
    match validate_ir(&ir) {
        Ok(()) => {},
        Err(e) => return Err(e),
    }
    proof {
        reveal_strlit(".luat");
    }
    if str_ends_with(name, ".luat") {
        if !fits_line_numbers(&ir, name) {
            return Err(too_large());
        }
        let ghost gir = ir;
        match generate_lua_code(ir, name) {
            Ok(code) => {
                proof {
                    assert(ir_of(source@, gir));
                }
                Ok(code)
            },
            Err(e) => Err(e),
        }
    } else {
        Ok(owned(source))
    }
}

/// `e` is an error that compiling the source `source` for a bundle can
/// give: it did not parse, its parse was refused, or it is too large.
pub open spec fn bundle_refused(source: Seq<char>, e: LuatError) -> bool {
    ||| is_parse_failure(e) && template_spec(source) is Err && template_view(Err(e)) == template_spec(source)
    ||| is_local_error(e) && refused_parse(source)
    ||| is_too_large(e)
}

/// Each code of `compiled` is the bundled code of the source of the same
/// name in `sources`.
pub open spec fn compiled_each(sources: Seq<(Seq<char>, Seq<char>)>, compiled: Seq<(Seq<char>, Seq<char>)>) -> bool {
    &&& compiled.len() == sources.len()
    &&& forall|j: int| 0 <= j < sources.len() ==> #[trigger] compiled_as(sources[j], compiled[j])
}

/// `compiled` is the source `source` (name, source) as it stands in a
/// bundle: the same name, and its bundled code.
pub open spec fn compiled_as(source: (Seq<char>, Seq<char>), compiled: (Seq<char>, Seq<char>)) -> bool {
    compiled.0 == source.0 && bundled_code(source.0, source.1, compiled.1)
}

/// `Failed to order sources by dependency: `.
pub open spec fn order_failure() -> Seq<char> {
    "Failed to order sources by dependency: "@
}

/// Compiles each source (name, source) as [`compile_for_bundle`] does,
/// orders them so that each module comes after those it requires, and
/// bundles them, as [`bundle_sources_reporting`] does, telling `progress`
/// of each step.
pub fn bundle_sources<F: FnMut(usize, usize)>(sources: Vec<(String, String)>, progress: F) -> (r: Result<
    (String, BundleSourceMap),
    LuatError,
>)
    requires
        forall|a: usize, b: usize| call_requires(progress, (a, b)),
    ensures
        match r {
            Ok((bundle, map)) => exists|c: Seq<(Seq<char>, Seq<char>)>, o: Seq<(Seq<char>, Seq<char>)>|
                #![trigger compiled_each(pair_views(sources@), c), bundle_text(o)]
                compiled_each(pair_views(sources@), c) && bundle@ == bundle_text(o) && bundle_map_of(map, o)
                && (dep_total(source_graph(c), source_names(c).len() as int)
                    < usize::MAX ==> ordering_of(c, o)),
            Err(e) => {
                ||| exists|j: int, c: Seq<(Seq<char>, Seq<char>)>| #![trigger compiled_each(pair_views(sources@).take(j), c)]
                    0 <= j < sources@.len() && compiled_each(pair_views(sources@).take(j), c)
                    && bundle_refused(pair_views(sources@)[j].1, e)
                ||| exists|c: Seq<(Seq<char>, Seq<char>)>| #![trigger compiled_each(pair_views(sources@), c)]
                    compiled_each(pair_views(sources@), c) && (e matches LuatError::InvalidTemplate(m) && starts_with(m@, order_failure()))
                    && (dep_total(source_graph(c), source_names(c).len() as int) < usize::MAX
                        ==> cannot_order(c, e))
            },
        },
{
    let mut reporter = Progress::new(progress);
    bundle_sources_reporting(sources, &mut reporter)
}

/// `x` held at `usize::MAX`.
pub open spec fn saturated(x: int) -> usize {
    if x <= usize::MAX { x as usize } else { usize::MAX }
}

/// The progress calls of compiling `n` sources: for source `i`, `(2i, 2n)`
/// before it is compiled and `(2i + 1, 2n)` after, each held at
/// `usize::MAX`.
pub open spec fn compile_steps(n: int) -> Seq<(usize, usize)> {
    Seq::new((2 * n) as nat, |j: int| (saturated(j), saturated(2 * n)))
}

/// Compiles each source (name, source) as [`compile_for_bundle`] does,
/// orders them so that each module comes after those it requires, and
/// bundles them. `progress` is told twice the index of each source before
/// and after it is compiled, and twice the count; then, as the bundle is
/// written, the index of each module, and the count at the end.
pub fn bundle_sources_reporting<F: FnMut(usize, usize)>(sources: Vec<(String, String)>, progress: &mut Progress<F>) -> (r: Result<
    (String, BundleSourceMap),
    LuatError,
>)
    requires
        forall|a: usize, b: usize| call_requires(old(progress).callback(), (a, b)),
    ensures
        final(progress).callback() == old(progress).callback(),
        match r {
            Ok((bundle, map)) => exists|c: Seq<(Seq<char>, Seq<char>)>, o: Seq<(Seq<char>, Seq<char>)>|
                #![trigger compiled_each(pair_views(sources@), c), bundle_text(o)]
                compiled_each(pair_views(sources@), c) && bundle@ == bundle_text(o) && bundle_map_of(map, o)
                && (dep_total(source_graph(c), source_names(c).len() as int)
                    < usize::MAX ==> ordering_of(c, o))
                && final(progress).calls() == old(progress).calls() + compile_steps(sources@.len() as int)
                    + bundle_steps(o.len() as usize),
            Err(e) => {
                ||| exists|j: int, c: Seq<(Seq<char>, Seq<char>)>| #![trigger compiled_each(pair_views(sources@).take(j), c)]
                    0 <= j < sources@.len() && compiled_each(pair_views(sources@).take(j), c)
                    && bundle_refused(pair_views(sources@)[j].1, e)
                    && final(progress).calls() == old(progress).calls() + compile_steps(sources@.len() as int).take(2 * j + 1)
                ||| exists|c: Seq<(Seq<char>, Seq<char>)>| #![trigger compiled_each(pair_views(sources@), c)]
                    compiled_each(pair_views(sources@), c) && (e matches LuatError::InvalidTemplate(m) && starts_with(m@, order_failure()))
                    && (dep_total(source_graph(c), source_names(c).len() as int) < usize::MAX
                        ==> cannot_order(c, e))
                    && final(progress).calls() == old(progress).calls() + compile_steps(sources@.len() as int)
            },
        },
{
    let ghost sv = pair_views(sources@);
    let ghost calls0 = progress.calls();
    let ghost cb0 = progress.callback();
    let n = sources.len();
    let mut compiled: Vec<(String, String)> = Vec::new();
    let mut i: usize = 0;
    proof {
        assert(pair_views(compiled@) =~= Seq::<(Seq<char>, Seq<char>)>::empty());
        assert(sv.take(0) =~= Seq::<(Seq<char>, Seq<char>)>::empty());
    }
    while i < n
        invariant
            n == sources@.len() == sv.len(),
            sv == pair_views(sources@),
            i <= n,
            compiled_each(sv.take(i as int), pair_views(compiled@)),
            forall|a: usize, b: usize| call_requires(progress.callback(), (a, b)),
            progress.callback() == cb0,
            cb0 == old(progress).callback(),
            calls0 == old(progress).calls(),
            progress.calls() == calls0 + compile_steps(n as int).take(2 * i),
        decreases n - i,
    {
        progress.report(i.saturating_add(i), n.saturating_add(n));
        proof {
            assert(compile_steps(n as int).take(2 * i + 1) =~= compile_steps(n as int).take(2 * i).push(compile_steps(n as int)[2 * i]));
        }
        let name = &sources[i].0;
        let source = &sources[i].1;
        let code = match compile_for_bundle(name.as_str(), source.as_str()) {
            Ok(c) => c,
            Err(e) => {
                proof {
                    assert(sv[i as int] == (name@, source@));
                    assert(compiled_each(sv.take(i as int), pair_views(compiled@)));
                    assert(progress.callback() == cb0);
                    assert(progress.calls() == calls0 + compile_steps(n as int).take(2 * i + 1));
                    assert(bundle_refused(sv[i as int].1, e));
                }
                return Err(e);
            },
        };
        let ghost before = pair_views(compiled@);
        let ghost code_v = code@;
        proof {
            assert(bundled_code(name@, source@, code_v));
        }
        compiled.push((owned(name.as_str()), code));
        proof {
            assert(sv[i as int] == (name@, source@));
            assert(pair_views(compiled@) =~= before.push((name@, code_v)));
            assert forall|j: int| 0 <= j < i + 1 implies #[trigger] compiled_as(sv.take(i + 1)[j], pair_views(compiled@)[j]) by {
                if j < i {
                    assert(sv.take(i + 1)[j] == sv.take(i as int)[j]);
                    assert(pair_views(compiled@)[j] == before[j]);
                    assert(compiled_as(sv.take(i as int)[j], before[j]));
                } else {
                    assert(sv.take(i + 1)[j] == sv[i as int]);
                    assert(pair_views(compiled@)[j] == (name@, code_v));
                }
            }
            assert(before.len() == i);
            assert(sv.take(i + 1).len() == i + 1);
            assert(pair_views(compiled@).len() == i + 1);
            assert(compiled_each(sv.take(i + 1), pair_views(compiled@)));
        }
        progress.report(i.saturating_add(i).saturating_add(1), n.saturating_add(n));
        proof {
            assert(compile_steps(n as int).take(2 * i + 2) =~= compile_steps(n as int).take(2 * i + 1).push(compile_steps(n as int)[2 * i + 1]));
        }
        i = i + 1;
    }
    let ghost cv = pair_views(compiled@);
    proof {
        assert(sv.take(n as int) =~= sv);
        assert(compile_steps(n as int).take(2 * n) =~= compile_steps(n as int));
    }
    let ordered = match order_sources(compiled) {
        Ok(o) => o,
        Err(e) => {
            proof {
                reveal_strlit("Failed to order sources by dependency: ");
            }
            let mut msg = String::new();
            msg.append("Failed to order sources by dependency: ");
            let reason = e.to_message();
            msg.append(reason.as_str());
            proof {
                assert(msg@.take(order_failure().len() as int) =~= order_failure());
                assert(msg@ =~= order_failed() + error_message(e));
                assert(compiled_each(sv, cv));
            }
            return Err(LuatError::InvalidTemplate(msg));
        },
    };
    let ghost ov = pair_views(ordered@);
    match bundle_compiled(ordered, progress) {
        Ok((bundle, map)) => {
            proof {
                assert(source_views(ordered@) =~= ov);
                assert(compiled_each(sv, cv) && bundle@ == bundle_text(ov));
            }
            Ok((bundle, map))
        },
        Err(e) => Err(e),
    }
}

/// The code that stands in a bundle for a module that did not compile:
/// it returns a table marking the parse error, with its message.
pub open spec fn failed_module_code(message: Seq<char>) -> Seq<char> {
    "-- PARSE ERROR: "@ + message + "\nreturn { parse_error = true, error = [["@ + message + "]] }"@
}

/// The compiled code of `source` named `name` for a bundle with a source
/// map: the module's code, or code that reports why it did not compile.
pub fn bundle_entry(name: &str, source: &str) -> (r: String)
    ensures
        (exists|ir: IR| #[trigger] ir_of(source@, ir) && r@ == mapped_code(ir, name@)) || exists|e: LuatError|
            (#[trigger] is_named_parse_failure(e, source@, name@) || is_local_error(e) || is_too_large(e))
            && r@ == failed_module_code(error_message(e)),
{
    match compile_template_string(name, source) {
        Ok(m) => m.lua_code,
        Err(e) => {
            let msg = e.to_message();
            let mut out = String::new();
            out.append("-- PARSE ERROR: ");
            out.append(msg.as_str());
            out.append("\nreturn { parse_error = true, error = [[");
            out.append(msg.as_str());
            out.append("]] }");
            proof {
                reveal_strlit("-- PARSE ERROR: ");
                reveal_strlit("\nreturn { parse_error = true, error = [[");
                reveal_strlit("]] }");
                assert(out@ =~= failed_module_code(error_message(e)));
                assert(is_named_parse_failure(e, source@, name@) || is_local_error(e) || is_too_large(e));
            }
            out
        },
    }
}

/// The stage of compilation that refused a template.
#[derive(Debug, Clone, Copy, PartialEq, Eq)]
pub enum CompileStage {
    /// Parsing.
    Parse,
    /// The transformation into IR.
    Transform,
    /// Code generation.
    Codegen,
}

/// Copies of the strings of `v`.
fn copy_strings(v: &Vec<String>) -> (r: Vec<String>)
    ensures
        views(r@) == views(v@),
{
    let mut r: Vec<String> = Vec::new();
    let mut i: usize = 0;
    while i < v.len()
        invariant
            i <= v@.len(),
            views(r@) == views(v@).take(i as int),
        decreases v@.len() - i,
    {
        let ghost before = views(r@);
        r.push(owned(v[i].as_str()));
        proof {
            assert(views(r@) =~= before.push(v@[i as int]@));
            assert(views(v@).take(i + 1) =~= views(v@).take(i as int).push(v@[i as int]@));
        }
        i = i + 1;
    }
    proof {
        assert(views(v@).take(i as int) =~= views(v@));
    }
    r
}

/// Compiles the template `source` into the Lua module named `module_name`,
/// with the components it uses in order of first use; an error comes with
/// the stage that raised it.
pub fn compile_module(source: &str, module_name: &str) -> (r: Result<(String, Vec<String>), (CompileStage, LuatError)>)
    ensures
        match r {
            Ok((code, components)) => exists|ir: IR| #[trigger] ir_of(source@, ir)
                && code@ == module_text(ir, module_name@) && views(components@) == ir.components@,
            Err((stage, e)) => {
                ||| stage == CompileStage::Parse && (is_parse_failure(e) && template_spec(source@) is Err
                    && template_view(Err(e)) == template_spec(source@) || is_too_large(e))
                ||| stage == CompileStage::Transform && (is_local_error(e) && refused_parse(source@) || is_too_large(e))
                ||| stage == CompileStage::Codegen && is_too_large(e)
            },
        },
{
    if source.unicode_len() >= usize::MAX / 4 {
        return Err((CompileStage::Parse, too_large()));
    }
    let ast = match parse_template(source) {
        Ok(a) => a,
        Err(e) => return Err((CompileStage::Parse, e)),
    };
    if ast.body.len() == usize::MAX {
        return Err((CompileStage::Transform, too_large()));
    }
    let ghost a = ast;
    proof {
        assert(parsed_from(source@, a));
    }
    let ir = match transform_ast(ast) {
        Ok(ir) => ir,
        Err(e) => {
            proof {
                assert(parsed_from(source@, a) && !nodes_ok(a.body@, false));
            }
            return Err((CompileStage::Transform, e));
        },
    };
    proof {
        assert(parsed_from(source@, a) && transformed_from(a, ir));
    }
    match validate_ir(&ir) {
        Ok(()) => {},
        Err(e) => return Err((CompileStage::Transform, e)),
    }
    if !fits_line_numbers(&ir, module_name) {
        return Err((CompileStage::Codegen, too_large()));
    }
    let components = copy_strings(ir.components.items());
    let ghost gir = ir;
    match generate_lua_code(ir, module_name) {
        Ok(code) => {
            proof {
                assert(ir_of(source@, gir));
            }
            Ok((code, components))
        },
        Err(e) => Err((CompileStage::Codegen, e)),
    }
}

/// The module for the entry `entry`, whose template was resolved to
/// `resolved`: a `.lua` file as it is, named `entry`, with its path and no
/// dependencies; any other file compiled as a template named `entry`, with
/// its path and source map.
pub fn entry_module(entry: &str, resolved: ResolvedResource) -> (r: Result<Module, LuatError>)
    ensures
        ends_with(entry@, ".lua"@) ==> (r matches Ok(m) && m.name@ == entry@ && m.lua_code == resolved.source
            && m.dependencies@.len() == 0 && m.path == Some(resolved.path) && m.source_map is None
            && m.hash == string_hash(resolved.source@)),
        !ends_with(entry@, ".lua"@) ==> match r {
            Ok(m) => {
                &&& m.name@ == entry@
                &&& m.path == Some(resolved.path)
                &&& m.dependencies@.len() == 0
                &&& m.hash == string_hash(m.lua_code@)
                &&& exists|ir: IR| #[trigger] ir_of(resolved.source@, ir) && m.lua_code@ == mapped_code(ir, entry@)
                    && (m.source_map matches Some(map) && map.wf() && map@ == phys_marks(module_lines(ir, entry@), 2))
            },
            Err(e) => {
                ||| is_named_parse_failure(e, resolved.source@, entry@)
                ||| is_local_error(e) && refused_parse(resolved.source@)
                ||| is_too_large(e)
            },
        },
{
    proof {
        reveal_strlit(".lua");
    }
    let ResolvedResource { path, source } = resolved;
    if str_ends_with(entry, ".lua") {
        Ok(Module::with_path(owned(entry), source, Vec::new(), path))
    } else {
        compile_template_string_with_path(entry, source.as_str(), Some(path))
    }
}

/// The name of the module compiled from the template at `path`: its file
/// stem, or `unknown` without one.
pub fn module_stem(path: &str) -> (r: String)
    ensures
        r@ == match file_stem(path@) {
            Some(st) => st,
            None => "unknown"@,
        },
{
    match path_file_stem(path) {
        Some(st) => st,
        None => owned("unknown"),
    }
}

/// How a template's path is shown in chunk names: relative to the root
/// directory when it lies within it, else its file name, else the path.
pub fn relative_path(absolute: &str, root: &Option<String>) -> (r: String)
    ensures
        r@ == match root {
            Some(q) => if path_prefix(absolute@, q@) {
                rest_after(absolute@, q@)
            } else {
                match file_name(absolute@) {
                    Some(f) => f,
                    None => absolute@,
                }
            },
            None => match file_name(absolute@) {
                Some(f) => f,
                None => absolute@,
            },
        },
{
    if let Some(q) = root {
        if path_starts_with(absolute, q.as_str()) {
            return path_rest_after(absolute, q.as_str());
        }
    }
    match path_file_name(absolute) {
        Some(f) => f,
        None => owned(absolute),
    }
}

/// The name to try a second time when `name` does not resolve: the name
/// with `.luat` appended, unless it already ends in `.luat` or `.lua`.
pub fn retry_name(name: &str) -> (r: Option<String>)
    ensures
        match r {
            Some(x) => !(ends_with(name@, ".luat"@) || ends_with(name@, ".lua"@)) && x@ == name@ + ".luat"@,
            None => ends_with(name@, ".luat"@) || ends_with(name@, ".lua"@),
        },
{
    proof {
        reveal_strlit(".luat");
        reveal_strlit(".lua");
    }
    if str_ends_with(name, ".luat") || str_ends_with(name, ".lua") {
        None
    } else {
        let mut r = owned(name);
        r.append(".luat");
        Some(r)
    }
}

/// How a module found by resolving `name` is labelled: `resolver:` and the
/// name, then `:` and the hash of its source when it was compiled.
pub fn resolver_label(name: &str, hash: Option<u64>) -> (r: String)
    ensures
        r@ == "resolver:"@ + name@ + match hash {
            Some(h) => seq![':'] + dec(h as nat),
            None => Seq::empty(),
        },
{
    let mut r = owned("resolver:");
    r.append(name);
    match hash {
        Some(h) => {
            push_char(&mut r, ':');
            let d = dec_string_u64(h);
            r.append(d.as_str());
            proof {
                assert(r@ =~= "resolver:"@ + name@ + (seq![':'] + dec(h as nat)));
            }
        },
        None => {
            proof {
                assert(r@ =~= "resolver:"@ + name@ + Seq::<char>::empty());
            }
        },
    }
    r
}

} // verus!
