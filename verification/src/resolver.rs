//! Finding template sources by module name.
//!
//! A resolver turns the name a template imports, seen from the template
//! that imports it, into the key or path of a source and that source.

use vstd::prelude::*;
use crate::collections::StrMap;
use crate::error::LuatError;
use crate::paths::{canonical_path, components, extension, file_name, has_extension, has_root, join, normalize, parent, path_exists, path_file_name, path_is_file, path_join, path_normalize, path_parent, path_prefix, path_rest_after, path_same, path_starts_with, path_strip_root, path_with_extension, rest_after, strip_root, with_extension};
use crate::text::{chars_of, ends_with, has_char_in, owned, starts_with, str_ends_with, str_starts_with, string_of_range};

verus! {

/// A path as a string with `/` separators (on Unix, the path itself).
pub fn path_to_string(path: &str) -> (r: String)
    ensures
        r@ == path@,
{
    owned(path)
}

/// A resolved template: its path or key, and its source.
#[derive(Debug, Clone)]
pub struct ResolvedResource {
    /// The path or key of the template.
    pub path: String,
    /// The template source.
    pub source: String,
}

/// Finds template sources: implement it to load templates from elsewhere.
pub trait ResourceResolver {
    /// The template that `module_name` names, imported from
    /// `importer_path` (empty for an entry template).
    fn resolve(&self, importer_path: &str, module_name: &str) -> Result<ResolvedResource, LuatError>;

    /// The path or key of the template that `module_name` names, without
    /// its source.
    fn get_resolved_path(&self, importer_path: &str, module_name: &str) -> Result<String, LuatError>;
}

/// `$lib/`.
pub open spec fn lib_alias() -> Seq<char> {
    seq!['$', 'l', 'i', 'b', '/']
}

/// `lib/`.
pub open spec fn lib_prefix() -> Seq<char> {
    seq!['l', 'i', 'b', '/']
}

/// A module name with the `$lib/` or `lib/` alias expanded to the lib
/// directory, and whether it was.
pub open spec fn expanded_name(lib_dir: Option<Seq<char>>, m: Seq<char>) -> (Seq<char>, bool) {
    match lib_dir {
        Some(l) => if starts_with(m, lib_alias()) {
            (l + seq!['/'] + m.skip(5), true)
        } else if starts_with(m, lib_prefix()) {
            (l + seq!['/'] + m.skip(4), true)
        } else {
            (m, false)
        },
        None => (m, false),
    }
}

/// With a lib directory `l`, the name `$lib/` + `s` is the path `l` + `/`
/// + `s`, under the lib directory, the same as the name `lib/` + `s`.
pub proof fn lemma_lib_alias_expansion(l: Seq<char>, s: Seq<char>)
    ensures
        expanded_name(Some(l), lib_alias() + s) == (l + seq!['/'] + s, true),
        expanded_name(Some(l), lib_alias() + s) == expanded_name(Some(l), lib_prefix() + s),
        expanded_name(Some(l), lib_alias() + s).0.take(l.len() as int + 1) == l + seq!['/'],
{
    let a = lib_alias() + s;
    let b = lib_prefix() + s;
    assert(a.take(5) =~= lib_alias());
    assert(a.skip(5) =~= s);
    assert(b.take(4) =~= lib_prefix());
    assert(b.skip(4) =~= s);
    assert(!starts_with(b, lib_alias())) by {
        if lib_alias().len() <= b.len() {
            assert(b[0] == 'l');
            assert(b.take(5)[0] == b[0]);
            assert(lib_alias()[0] == '$');
        }
    }
    assert((l + seq!['/'] + s).take(l.len() as int + 1) =~= l + seq!['/']);
}

/// A resolver over the file system, rooted at a directory, with an
/// optional directory for the `$lib` alias.
#[derive(Debug, Clone)]
pub struct FileSystemResolver {
    /// The root directory of templates.
    pub root_dir: String,
    /// The directory that `$lib/` names.
    pub lib_dir: Option<String>,
}

impl FileSystemResolver {
    /// A resolver rooted at `root_dir`, without a lib directory.
    pub fn new(root_dir: &str) -> (r: Self)
        ensures
            r.root_dir@ == root_dir@,
            r.lib_dir is None,
    {
        FileSystemResolver { root_dir: path_to_string(root_dir), lib_dir: None }
    }

    /// The resolver with `lib_dir` as the directory of `$lib/`.
    pub fn with_lib_dir(self, lib_dir: &str) -> (r: Self)
        ensures
            r.root_dir == self.root_dir,
            r.lib_dir matches Some(l) && l@ == lib_dir@,
    {
        FileSystemResolver { lib_dir: Some(path_to_string(lib_dir)), ..self }
    }

    /// `module_name` with `$lib/` (or `lib/`) replaced by the lib
    /// directory when one is set, and whether it was.
    pub fn expand_aliases(&self, module_name: &str) -> (r: (String, bool))
        ensures
            (r.0@, r.1) == expanded_name(
                match self.lib_dir {
                    Some(l) => Some(l@),
                    None => None,
                },
                module_name@,
            ),
    {
        match &self.lib_dir {
            Some(lib_dir) => {
                proof {
                    reveal_strlit("$lib/");
                    reveal_strlit("lib/");
                    assert("$lib/"@ =~= lib_alias());
                    assert("lib/"@ =~= lib_prefix());
                }
                let v = chars_of(module_name);
                if str_starts_with(module_name, "$lib/") {
                    let mut out = owned(lib_dir.as_str());
                    crate::text::push_char(&mut out, '/');
                    crate::text::push_range(&mut out, &v, 5, v.len());
                    proof {
                        assert(v@.subrange(5, v@.len() as int) =~= module_name@.skip(5));
                    }
                    return (out, true);
                }
                if str_starts_with(module_name, "lib/") {
                    let mut out = owned(lib_dir.as_str());
                    crate::text::push_char(&mut out, '/');
                    crate::text::push_range(&mut out, &v, 4, v.len());
                    proof {
                        assert(v@.subrange(4, v@.len() as int) =~= module_name@.skip(4));
                    }
                    return (out, true);
                }
                (owned(module_name), false)
            },
            None => (owned(module_name), false),
        }
    }
}

/// The directory that imports start from: the root without an importer;
/// else the importer (taken from the root when relative), or its parent
/// when it is a file or has an extension.
pub open spec fn import_base(root: Seq<char>, importer: Seq<char>, importer_is_file: bool) -> Seq<char> {
    if importer.len() == 0 {
        root
    } else {
        let full = join(root, importer);
        if importer_is_file || extension(full) is Some {
            match parent(full) {
                Some(p) => p,
                None => root,
            }
        } else {
            full
        }
    }
}

/// The directory that imports from `importer` start from; `importer_is_file`
/// tells whether a file is at the importer's path.
pub fn import_base_dir(root: &str, importer: &str, importer_is_file: bool) -> (r: String)
    ensures
        r@ == import_base(root@, importer@, importer_is_file),
{
    if chars_of(importer).len() == 0 {
        return owned(root);
    }
    let full = path_join(root, importer);
    if importer_is_file || has_extension(full.as_str()) {
        match path_parent(full.as_str()) {
            Some(p) => p,
            None => owned(root),
        }
    } else {
        full
    }
}

/// `./`.
pub open spec fn cur_prefix() -> Seq<char> {
    seq!['.', '/']
}

/// `../`.
pub open spec fn up_prefix() -> Seq<char> {
    seq!['.', '.', '/']
}

/// A module name that names its path from the importer's directory.
pub open spec fn explicitly_relative(m: Seq<char>) -> bool {
    starts_with(m, cur_prefix()) || starts_with(m, up_prefix())
}

/// Where module `m` points before extensions are tried: an absolute name
/// from the root (an expanded alias as it is), `./` and `../` names from
/// the base directory, other names from the base directory when something
/// is there (`base_hit`), else from the root.
pub open spec fn module_target(root: Seq<char>, base: Seq<char>, m: Seq<char>, alias_absolute: bool, base_hit: bool) -> Seq<char> {
    if has_root(m) {
        if alias_absolute {
            m
        } else {
            join(root, strip_root(m))
        }
    } else if explicitly_relative(m) || base_hit {
        join(base, m)
    } else {
        join(root, m)
    }
}

/// Whether `m` names its path from the importer's directory.
fn is_explicitly_relative(m: &str) -> (b: bool)
    ensures
        b == explicitly_relative(m@),
{
    proof {
        reveal_strlit("./");
        reveal_strlit("../");
        assert("./"@ =~= cur_prefix());
        assert("../"@ =~= up_prefix());
    }
    str_starts_with(m, "./") || str_starts_with(m, "../")
}

/// Where module `m` points before extensions are tried.
pub fn module_target_path(root: &str, base: &str, m: &str, alias_absolute: bool, base_hit: bool) -> (r: String)
    ensures
        r@ == module_target(root@, base@, m@, alias_absolute, base_hit),
{
    let v = chars_of(m);
    if v.len() > 0 && v[0] == '/' {
        proof {
            assert(has_root(m@));
        }
        if alias_absolute {
            owned(m)
        } else {
            let rest = path_strip_root(m);
            path_join(root, rest.as_str())
        }
    } else if is_explicitly_relative(m) || base_hit {
        path_join(base, m)
    } else {
        path_join(root, m)
    }
}

/// `lib`.
pub open spec fn lib_name() -> Seq<char> {
    seq!['l', 'i', 'b']
}

/// The target moved into the lib directory when, normalized, it lies
/// under `<root>/lib`.
pub open spec fn lib_remapped(root: Seq<char>, lib: Seq<char>, target: Seq<char>) -> Option<Seq<char>> {
    let lib_root = join(root, lib_name());
    let n = normalize(target);
    if path_prefix(n, lib_root) {
        Some(join(lib, rest_after(n, lib_root)))
    } else {
        None
    }
}

/// The target moved into the lib directory, if it lies under `<root>/lib`.
pub fn lib_remap(root: &str, lib: &str, target: &str) -> (r: Option<String>)
    ensures
        match lib_remapped(root@, lib@, target@) {
            Some(t) => r matches Some(x) && x@ == t,
            None => r is None,
        },
{
    proof {
        reveal_strlit("lib");
        assert("lib"@ =~= lib_name());
    }
    let lib_root = path_join(root, "lib");
    let n = path_normalize(target);
    if path_starts_with(n.as_str(), lib_root.as_str()) {
        let rel = path_rest_after(n.as_str(), lib_root.as_str());
        Some(path_join(lib, rel.as_str()))
    } else {
        None
    }
}

/// `luat`.
pub open spec fn luat_ext() -> Seq<char> {
    seq!['l', 'u', 'a', 't']
}

/// `lua`.
pub open spec fn lua_ext() -> Seq<char> {
    seq!['l', 'u', 'a']
}

/// The path itself when it has an extension, then the path with `.luat`
/// and with `.lua`.
pub open spec fn ext_candidates(p: Seq<char>) -> Seq<Seq<char>> {
    (if extension(p) is Some { seq![p] } else { Seq::empty() }) + seq![with_extension(p, luat_ext()), with_extension(p, lua_ext())]
}

/// The bare file name of the module with `.luat`, then `.lua`, each from
/// the base directory and, when it differs, from the root.
pub open spec fn name_candidates(root: Seq<char>, base: Seq<char>, m: Seq<char>) -> Seq<Seq<char>> {
    let name = match file_name(m) {
        Some(f) => f,
        None => m,
    };
    let other = components(base) != components(root);
    (seq![with_extension(join(base, name), luat_ext())] + (if other {
        seq![with_extension(join(root, name), luat_ext())]
    } else {
        Seq::empty()
    })) + (seq![with_extension(join(base, name), lua_ext())] + (if other {
        seq![with_extension(join(root, name), lua_ext())]
    } else {
        Seq::empty()
    }))
}

/// Where module `m` is looked for in the lib directory.
pub open spec fn lib_target(lib: Seq<char>, m: Seq<char>) -> Seq<char> {
    if has_root(m) {
        m
    } else {
        join(lib, m)
    }
}

/// The paths tried for module `m`, in order: the target with its
/// extensions, the bare file name, then the lib directory.
pub open spec fn candidates(root: Seq<char>, lib: Option<Seq<char>>, base: Seq<char>, m: Seq<char>, target: Seq<char>) -> Seq<Seq<char>> {
    ext_candidates(target) + name_candidates(root, base, m) + match lib {
        Some(l) => ext_candidates(lib_target(l, m)),
        None => Seq::empty(),
    }
}

/// Appends the candidates for path `p` and its extensions.
fn push_ext_candidates(out: &mut Vec<String>, p: &str)
    ensures
        crate::text::views(final(out)@) == crate::text::views(old(out)@) + ext_candidates(p@),
{
    proof {
        reveal_strlit("luat");
        reveal_strlit("lua");
        assert("luat"@ =~= luat_ext());
        assert("lua"@ =~= lua_ext());
    }
    let ghost before = crate::text::views(out@);
    if has_extension(p) {
        out.push(owned(p));
    }
    out.push(path_with_extension(p, "luat"));
    out.push(path_with_extension(p, "lua"));
    proof {
        assert(crate::text::views(out@) =~= before + ext_candidates(p@));
    }
}

/// The paths tried for module `m`, in order.
pub fn candidate_paths(root: &str, lib: &Option<String>, base: &str, m: &str, target: &str) -> (r: Vec<String>)
    ensures
        crate::text::views(r@) == candidates(
            root@,
            match lib {
                Some(l) => Some(l@),
                None => None,
            },
            base@,
            m@,
            target@,
        ),
{
    proof {
        reveal_strlit("luat");
        reveal_strlit("lua");
        assert("luat"@ =~= luat_ext());
        assert("lua"@ =~= lua_ext());
    }
    let mut out: Vec<String> = Vec::new();
    push_ext_candidates(&mut out, target);
    let ghost first = crate::text::views(out@);
    let name = match path_file_name(m) {
        Some(f) => f,
        None => owned(m),
    };
    let other = !path_same(base, root);
    let from_base = path_join(base, name.as_str());
    let from_root = path_join(root, name.as_str());
    out.push(path_with_extension(from_base.as_str(), "luat"));
    if other {
        out.push(path_with_extension(from_root.as_str(), "luat"));
    }
    out.push(path_with_extension(from_base.as_str(), "lua"));
    if other {
        out.push(path_with_extension(from_root.as_str(), "lua"));
    }
    proof {
        assert(crate::text::views(out@) =~= first + name_candidates(root@, base@, m@));
    }
    let ghost second = crate::text::views(out@);
    match lib {
        Some(l) => {
            let mv = chars_of(m);
            let lt = if mv.len() > 0 && mv[0] == '/' {
                owned(m)
            } else {
                path_join(l.as_str(), m)
            };
            proof {
                assert(lt@ == lib_target(l@, m@));
            }
            push_ext_candidates(&mut out, lt.as_str());
        },
        None => {
            proof {
                assert(crate::text::views(out@) =~= second + Seq::<Seq<char>>::empty());
            }
        },
    }
    out
}

/// Asks the disk, in order, whether anything is at each candidate, up to
/// the first that exists: one answer per candidate asked. What exists
/// depends on the disk; every answer but the last is `false`, and the
/// answers stop early only at a `true`.
fn probe_candidates(cands: &Vec<String>) -> (flags: Vec<bool>)
    ensures
        flags@.len() <= cands@.len(),
        forall|i: int| 0 <= i < flags@.len() - 1 ==> !(#[trigger] flags@[i]),
        flags@.len() < cands@.len() ==> flags@.len() > 0 && flags@.last(),
{
    let mut flags: Vec<bool> = Vec::new();
    let mut i: usize = 0;
    while i < cands.len()
        invariant
            i <= cands@.len(),
            flags@.len() == i,
            forall|k: int| 0 <= k < flags@.len() ==> !(#[trigger] flags@[k]),
        decreases cands@.len() - i,
    {
        let e = path_exists(cands[i].as_str());
        flags.push(e);
        if e {
            return flags;
        }
        i = i + 1;
    }
    flags
}

/// The index of the first `true` in `flags`.
pub open spec fn first_true(flags: Seq<bool>) -> Option<int>
    decreases flags.len(),
{
    if flags.len() == 0 {
        None
    } else {
        match first_true(flags.drop_last()) {
            Some(i) => Some(i),
            None => if flags.last() { Some(flags.len() - 1) } else { None },
        }
    }
}

/// The first candidate that the disk said exists (`exists`, one answer per
/// candidate asked, in order).
pub fn first_existing(cands: &Vec<String>, exists: &Vec<bool>) -> (r: Option<String>)
    requires
        exists@.len() <= cands@.len(),
    ensures
        match first_true(exists@) {
            Some(i) => r matches Some(c) && c@ == cands@[i]@,
            None => r is None,
        },
{
    let mut i: usize = 0;
    while i < exists.len()
        invariant
            i <= exists@.len() <= cands@.len(),
            first_true(exists@.take(i as int)) is None,
        decreases exists@.len() - i,
    {
        proof {
            assert(exists@.take(i + 1).drop_last() =~= exists@.take(i as int));
            lemma_first_true_prefix(exists@, i + 1);
        }
        if exists[i] {
            return Some(owned(cands[i].as_str()));
        }
        i = i + 1;
    }
    proof {
        assert(exists@.take(i as int) =~= exists@);
    }
    None
}

/// The first `true` of a prefix that holds one is the first of the whole.
proof fn lemma_first_true_prefix(flags: Seq<bool>, k: int)
    requires
        0 <= k <= flags.len(),
    ensures
        first_true(flags.take(k)) is Some ==> first_true(flags) == first_true(flags.take(k)),
    decreases flags.len() - k,
{
    if k < flags.len() {
        lemma_first_true_prefix(flags, k + 1);
        assert(flags.take(k + 1).drop_last() =~= flags.take(k));
    } else {
        assert(flags.take(k) =~= flags);
    }
}

/// `Failed to canonicalize <what> '<p>': <why>`.
pub open spec fn canonicalize_message(what: Seq<char>, p: Seq<char>, why: Seq<char>) -> Seq<char> {
    "Failed to canonicalize "@ + what + " '"@ + p + "': "@ + why
}

/// What resolving module `m` gives once the candidate `p` was found, from
/// the canonical forms of `p`, of the root directory `root` and of the lib
/// directory (each an error text where it could not be had): the canonical
/// path, twice, when it lies within the canonical root or lib directory;
/// else the error for the first thing that failed.
pub fn resolution_outcome(
    m: &str,
    p: &str,
    root: &str,
    canonical: Result<String, String>,
    canonical_root: Result<String, String>,
    canonical_lib: Option<String>,
) -> (r: Result<(String, String), LuatError>)
    ensures
        match canonical {
            Err(why) => r matches Err(LuatError::ResolutionError(msg)) && msg@ == canonicalize_message("path"@, p@, why@),
            Ok(c) => match canonical_root {
                Err(why) => r matches Err(LuatError::ResolutionError(msg)) && msg@ == canonicalize_message("root"@, root@, why@),
                Ok(cr) => if within_roots(c@, cr@, match canonical_lib {
                    Some(l) => Some(l@),
                    None => None,
                }) {
                    r matches Ok(v) && v.0@ == c@ && v.1@ == c@
                } else {
                    r matches Err(LuatError::ResolutionError(msg)) && msg@ == escapes_message(m@)
                },
            },
        },
{
    proof {
        reveal_strlit("Security: Path '");
        reveal_strlit("' escapes allowed directories");
        reveal_strlit("Failed to canonicalize path '");
        reveal_strlit("Failed to canonicalize root '");
        reveal_strlit("Failed to canonicalize ");
        reveal_strlit("path");
        reveal_strlit("root");
        reveal_strlit(" '");
        reveal_strlit("': ");
    }
    let canonical = match canonical {
        Ok(c) => c,
        Err(why) => {
            let mut msg = owned("Failed to canonicalize path '");
            msg.append(p);
            msg.append("': ");
            msg.append(why.as_str());
            proof {
                assert(msg@ =~= canonicalize_message("path"@, p@, why@));
            }
            return Err(LuatError::ResolutionError(msg));
        },
    };
    let canonical_root = match canonical_root {
        Ok(c) => c,
        Err(why) => {
            let mut msg = owned("Failed to canonicalize root '");
            msg.append(root);
            msg.append("': ");
            msg.append(why.as_str());
            proof {
                assert(msg@ =~= canonicalize_message("root"@, root@, why@));
            }
            return Err(LuatError::ResolutionError(msg));
        },
    };
    if !is_within_roots(canonical.as_str(), canonical_root.as_str(), &canonical_lib) {
        let mut msg = owned("Security: Path '");
        msg.append(m);
        msg.append("' escapes allowed directories");
        return Err(LuatError::ResolutionError(msg));
    }
    let text = path_to_string(canonical.as_str());
    Ok((canonical, text))
}

/// Whether canonical path `p` lies in the canonical root or, when there is
/// one, the canonical lib directory.
pub open spec fn within_roots(p: Seq<char>, root: Seq<char>, lib: Option<Seq<char>>) -> bool {
    path_prefix(p, root) || match lib {
        Some(l) => path_prefix(p, l),
        None => false,
    }
}

/// Whether canonical path `p` lies in one of the allowed directories.
pub fn is_within_roots(p: &str, root: &str, lib: &Option<String>) -> (b: bool)
    ensures
        b == within_roots(p@, root@, match lib {
            Some(l) => Some(l@),
            None => None,
        }),
{
    if path_starts_with(p, root) {
        return true;
    }
    match lib {
        Some(l) => path_starts_with(p, l.as_str()),
        None => false,
    }
}

/// The message when module `m` is not found from `importer`.
pub open spec fn fs_not_found(m: Seq<char>, importer: Seq<char>) -> Seq<char> {
    "Module '"@ + m + "' not found from importer '"@ + importer + "'"@
}

/// The message when the path of module `m` leaves the allowed directories.
pub open spec fn escapes_message(m: Seq<char>) -> Seq<char> {
    "Security: Path '"@ + m + "' escapes allowed directories"@
}

/// `Failed to canonicalize `.
pub open spec fn canonicalize_failed() -> Seq<char> {
    "Failed to canonicalize "@
}

impl FileSystemResolver {
    /// The view of the lib directory.
    pub open spec fn lib_view(&self) -> Option<Seq<char>> {
        match self.lib_dir {
            Some(l) => Some(l@),
            None => None,
        }
    }

    /// The canonical path of the template that `module_name` names from
    /// `importer_path`, twice (as path and as text). The candidates are
    /// [`candidate_paths`]; the first that exists on disk is taken
    /// ([`first_existing`]), and [`resolution_outcome`] decides from the
    /// canonical forms of it, of the root and of the lib directory. The
    /// errors say that nothing was found, that a path could not be made
    /// canonical, or that it leaves the root and lib directories.
    pub fn resolve_internal(&self, importer_path: &str, module_name: &str) -> (r: Result<(String, String), LuatError>)
        ensures
            r matches Ok(v) ==> v.0@ == v.1@,
            r matches Err(e) ==> e matches LuatError::ResolutionError(msg) && (
                msg@ == fs_not_found(expanded_name(self.lib_view(), module_name@).0, importer_path@)
                || msg@ == escapes_message(expanded_name(self.lib_view(), module_name@).0)
                || starts_with(msg@, canonicalize_failed())),
    {
        let (expanded, alias_absolute) = self.expand_aliases(module_name);
        let m = expanded.as_str();
        let root = self.root_dir.as_str();
        let importer_is_file = if importer_path.len() > 0 {
            let full_importer = path_join(root, importer_path);
            path_is_file(full_importer.as_str())
        } else {
            false
        };
        let base = import_base_dir(root, importer_path, importer_is_file);
        let mv = chars_of(m);
        let base_hit = if (mv.len() > 0 && mv[0] == '/') || is_explicitly_relative(m) {
            false
        } else {
            let from_base = path_join(base.as_str(), m);
            path_exists(from_base.as_str())
        };
        let mut target = module_target_path(root, base.as_str(), m, alias_absolute, base_hit);
        if let Some(lib) = &self.lib_dir {
            if !path_exists(target.as_str()) {
                if let Some(moved) = lib_remap(root, lib.as_str(), target.as_str()) {
                    target = moved;
                }
            }
        }
        let cands = candidate_paths(root, &self.lib_dir, base.as_str(), m, target.as_str());
        let flags = probe_candidates(&cands);
        let found = first_existing(&cands, &flags);
        proof {
            reveal_strlit("Module '");
            reveal_strlit("' not found from importer '");
            reveal_strlit("'");
            reveal_strlit("Failed to canonicalize ");
        }
        match found {
            None => {
                let mut msg = owned("Module '");
                msg.append(m);
                msg.append("' not found from importer '");
                msg.append(importer_path);
                msg.append("'");
                Err(LuatError::ResolutionError(msg))
            },
            Some(p) => {
                let canonical = match canonical_path(p.as_str()) {
                    Ok(c) => Ok(c),
                    Err(e) => Err(crate::error::io_error_text(&e)),
                };
                let canonical_root = match canonical_path(root) {
                    Ok(c) => Ok(c),
                    Err(e) => Err(crate::error::io_error_text(&e)),
                };
                let canonical_lib = match &self.lib_dir {
                    Some(l) => match canonical_path(l.as_str()) {
                        Ok(c) => Some(c),
                        Err(_) => None,
                    },
                    None => None,
                };
                let r = resolution_outcome(m, p.as_str(), root, canonical, canonical_root, canonical_lib);
                proof {
                    if r is Err {
                        let msg = r->Err_0->ResolutionError_0;
                        if !(msg@ == escapes_message(m@)) {
                            assert(msg@.take(canonicalize_failed().len() as int) =~= canonicalize_failed());
                        }
                    }
                }
                r
            },
        }
    }
}

/// A name that already ends in a template extension.
pub open spec fn has_source_ext(s: Seq<char>) -> bool {
    ends_with(s, ".luat"@) || ends_with(s, ".lua"@)
}

/// A resolver over templates held in memory, by key.
#[derive(Debug, Clone)]
pub struct MemoryResourceResolver {
    /// The templates, by key.
    pub resources: StrMap,
}

/// The directory that names are resolved from: the importer's parent when
/// the importer is a key with a `/`, else the importer itself.
pub open spec fn memory_base(res: StrMap, importer: Seq<char>) -> Seq<char> {
    if importer.len() == 0 {
        Seq::empty()
    } else if res.keys().contains(importer) && importer.contains('/') {
        match parent(importer) {
            Some(p) => p,
            None => Seq::empty(),
        }
    } else {
        importer
    }
}

/// The key that `module` names from `importer`: absolute names from the
/// root, others from the importer's directory; a name without a template
/// extension is tried with `.luat`, then `.lua`.
pub open spec fn memory_key(res: StrMap, importer: Seq<char>, module: Seq<char>) -> Option<Seq<char>> {
    let c = if has_root(module) { strip_root(module) } else { join(memory_base(res, importer), module) };
    if has_source_ext(c) {
        if res.keys().contains(c) { Some(c) } else { None }
    } else if res.keys().contains(c + ".luat"@) {
        Some(c + ".luat"@)
    } else if res.keys().contains(c + ".lua"@) {
        Some(c + ".lua"@)
    } else {
        None
    }
}

/// The message when `module` is not found from `importer`.
pub open spec fn memory_not_found(module: Seq<char>, importer: Seq<char>) -> Seq<char> {
    "Module '"@ + module + "' not found in memory resources from importer '"@ + importer + "'"@
}

impl MemoryResourceResolver {
    /// A resolver with no templates.
    pub fn new() -> (r: Self)
        ensures
            r.resources.wf(),
            r.resources.keys().len() == 0,
    {
        MemoryResourceResolver { resources: StrMap::new() }
    }

    /// Adds (or replaces) the template at `path`.
    pub fn add_resource(&mut self, path: &str, source: &str)
        requires
            old(self).resources.wf(),
        ensures
            final(self).resources.wf(),
            final(self).resources.lookup(path@) == Some(source@),
            forall|k: Seq<char>| k != path@ ==> final(self).resources.lookup(k) == old(self).resources.lookup(k),
    {
        self.resources.insert(path, source);
    }

    /// The key that `module_name` names from `importer_path` (twice).
    fn resolve_internal(&self, importer_path: &str, module_name: &str) -> (r: Result<(String, String), LuatError>)
        requires
            self.resources.wf(),
        ensures
            match memory_key(self.resources, importer_path@, module_name@) {
                Some(k) => r matches Ok((a, b)) && a@ == k && b@ == k,
                None => r matches Err(LuatError::ResolutionError(msg)) && msg@ == memory_not_found(
                    module_name@,
                    importer_path@,
                ),
            },
    {
        let iv = chars_of(importer_path);
        let mut base = String::new();
        if iv.len() > 0 {
            let has_slash = has_char_in(&iv, '/', 0, iv.len());
            proof {
                if importer_path@.contains('/') {
                    let k = choose|k: int| 0 <= k < importer_path@.len() && importer_path@[k] == '/';
                    assert(iv@[k] == '/');
                }
            }
            if self.resources.contains_key(importer_path) && has_slash {
                base = match path_parent(importer_path) {
                    Some(p) => p,
                    None => String::new(),
                };
            } else {
                base = owned(importer_path);
            }
        }
        let mv = chars_of(module_name);
        let c = if mv.len() > 0 && mv[0] == '/' {
            path_strip_root(module_name)
        } else {
            path_join(base.as_str(), module_name)
        };
        if str_ends_with(c.as_str(), ".luat") || str_ends_with(c.as_str(), ".lua") {
            if self.resources.contains_key(c.as_str()) {
                let k = owned(c.as_str());
                return Ok((k, c));
            }
        } else {
            let mut with_luat = owned(c.as_str());
            with_luat.append(".luat");
            if self.resources.contains_key(with_luat.as_str()) {
                let k = owned(with_luat.as_str());
                return Ok((k, with_luat));
            }
            let mut with_lua = owned(c.as_str());
            with_lua.append(".lua");
            if self.resources.contains_key(with_lua.as_str()) {
                let k = owned(with_lua.as_str());
                return Ok((k, with_lua));
            }
        }
        let mut msg = String::new();
        msg.append("Module '");
        msg.append(module_name);
        msg.append("' not found in memory resources from importer '");
        msg.append(importer_path);
        msg.append("'");
        Err(LuatError::ResolutionError(msg))
    }
}

impl Default for MemoryResourceResolver {
    fn default() -> (r: Self)
        ensures
            r.resources.wf(),
            r.resources.keys().len() == 0,
    {
        MemoryResourceResolver::new()
    }
}

impl ResourceResolver for MemoryResourceResolver {
    /// The template that `module_name` names from `importer_path`, with its
    /// key as path.
    fn resolve(&self, importer_path: &str, module_name: &str) -> (r: Result<ResolvedResource, LuatError>)
        ensures
            match memory_key(self.resources, importer_path@, module_name@) {
                Some(k) => r matches Ok(res) && res.path@ == k && Some(res.source@) == self.resources.lookup(k),
                None => r matches Err(LuatError::ResolutionError(msg)) && msg@ == memory_not_found(
                    module_name@,
                    importer_path@,
                ),
            },
    {
        proof {
            use_type_invariant(&self.resources);
        }
        let (key, _) = match self.resolve_internal(importer_path, module_name) {
            Ok(p) => p,
            Err(e) => return Err(e),
        };
        match self.resources.get(key.as_str()) {
            Some(source) => Ok(ResolvedResource { path: key, source: owned(source.as_str()) }),
            None => {
                let mut msg = String::new();
                msg.append("Module somehow disappeared from memory resources after key resolution for: ");
                msg.append(key.as_str());
                Err(LuatError::ResolutionError(msg))
            },
        }
    }

    /// The key that `module_name` names from `importer_path`.
    fn get_resolved_path(&self, importer_path: &str, module_name: &str) -> (r: Result<String, LuatError>)
        ensures
            match memory_key(self.resources, importer_path@, module_name@) {
                Some(k) => r matches Ok(p) && p@ == k,
                None => r matches Err(LuatError::ResolutionError(msg)) && msg@ == memory_not_found(
                    module_name@,
                    importer_path@,
                ),
            },
    {
        proof {
            use_type_invariant(&self.resources);
        }
        match self.resolve_internal(importer_path, module_name) {
            Ok((key, _)) => Ok(key),
            Err(e) => Err(e),
        }
    }
}

} // verus!
