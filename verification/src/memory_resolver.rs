//! A resolver over templates held in memory, with relative imports.

use vstd::prelude::*;
use crate::collections::StrMap;
use crate::error::LuatError;
use crate::paths::{extension, file_name, has_extension, join, parent, path_file_name, path_is_file, path_join, path_parent};
use crate::resolver::{has_source_ext, ResolvedResource, ResourceResolver};
use crate::text::{chars_of, ends_with, join as join_with, owned, push_char, starts_with, str_ends_with, str_starts_with, string_of_range};

verus! {

/// The parts of a path between `/`, after `..` climbs and without empty
/// and `.` parts.
pub open spec fn norm_pieces(ps: Seq<Seq<char>>) -> Seq<Seq<char>>
    decreases ps.len(),
{
    if ps.len() == 0 {
        Seq::empty()
    } else {
        let r = norm_pieces(ps.drop_last());
        let p = ps.last();
        if p.len() == 0 || p == seq!['.'] {
            r
        } else if p == seq!['.', '.'] {
            if r.len() > 0 { r.drop_last() } else { r }
        } else {
            r.push(p)
        }
    }
}

/// `path` with `.` and empty parts dropped and `..` resolved.
pub open spec fn normalized(path: Seq<char>) -> Seq<char> {
    join_with(norm_pieces(crate::text::split_char(path, '/')), seq!['/'])
}

/// The first character of `c.to_uppercase()`.
pub uninterp spec fn upper_first_char(c: char) -> char;

/// `char::to_uppercase`, first character: the result is named
/// `upper_first_char`; for an ASCII character it is its ASCII upper case.
#[verifier::external_body]
fn first_upper(c: char) -> (r: char)
    ensures
        r == upper_first_char(c),
        'a' <= c <= 'z' ==> r as u32 == c as u32 - 32,
        (c as u32) < 128 && !('a' <= c <= 'z') ==> r == c,
{
    c.to_uppercase().next().unwrap_or(c)
}

/// `s` with its first character upper-cased.
pub open spec fn capitalized(s: Seq<char>) -> Seq<char> {
    if s.len() == 0 {
        s
    } else {
        s.update(0, upper_first_char(s[0]))
    }
}

/// `s` followed by `.luat`.
pub open spec fn with_luat(s: Seq<char>) -> Seq<char> {
    s + ".luat"@
}

/// `s` followed by `.lua`.
pub open spec fn with_lua(s: Seq<char>) -> Seq<char> {
    s + ".lua"@
}

/// `s` with backslashes turned into slashes.
pub open spec fn slashes(s: Seq<char>) -> Seq<char> {
    s.map_values(|c: char| if c == '\\' { '/' } else { c })
}

/// The key that path `path` names, trying in turn: the path; with
/// `.luat` or `.lua` when it has no extension; without a leading `./`
/// (with the extensions when it has none of them); its file name; the
/// file name capitalised; the file name, then the capitalised name, with
/// the extensions.
pub open spec fn variant_key(keys: Seq<Seq<char>>, path: Seq<char>) -> Option<Seq<char>> {
    let n = slashes(path);
    let base = match file_name(n) {
        Some(f) => f,
        None => n,
    };
    let cap = capitalized(base);
    let nd = n.skip(2);
    if keys.contains(n) {
        Some(n)
    } else if extension(n) is None && keys.contains(with_luat(n)) {
        Some(with_luat(n))
    } else if extension(n) is None && keys.contains(with_lua(n)) {
        Some(with_lua(n))
    } else if starts_with(n, seq!['.', '/']) && keys.contains(nd) {
        Some(nd)
    } else if starts_with(n, seq!['.', '/']) && !has_source_ext(nd) && keys.contains(with_luat(nd)) {
        Some(with_luat(nd))
    } else if starts_with(n, seq!['.', '/']) && !has_source_ext(nd) && keys.contains(with_lua(nd)) {
        Some(with_lua(nd))
    } else if keys.contains(base) {
        Some(base)
    } else if cap != base && keys.contains(cap) {
        Some(cap)
    } else if !has_source_ext(base) && keys.contains(with_luat(base)) {
        Some(with_luat(base))
    } else if !has_source_ext(base) && keys.contains(with_lua(base)) {
        Some(with_lua(base))
    } else if !has_source_ext(base) && cap != base && keys.contains(with_luat(cap)) {
        Some(with_luat(cap))
    } else {
        None
    }
}

/// The message when `name` is not found.
pub open spec fn not_found_message(name: Seq<char>) -> Seq<char> {
    "Module '"@ + name + "' not found in memory resolver"@
}

/// `s` without any number of leading `./`.
pub open spec fn trim_dot_slash(s: Seq<char>) -> Seq<char>
    decreases s.len(),
{
    if starts_with(s, seq!['.', '/']) {
        trim_dot_slash(s.skip(2))
    } else {
        s
    }
}

/// The key that `module` names, imported from `importer`: the name
/// itself, then with `.luat` or `.lua`; for `./` and `../` names with an
/// importer, the name from the importer's directory, normalised, then with
/// the extensions.
pub open spec fn resolve_key(keys: Seq<Seq<char>>, importer: Seq<char>, module: Seq<char>) -> Option<Seq<char>> {
    let dir = match parent(importer) {
        Some(d) => d,
        None => Seq::empty(),
    };
    let joined = if dir.len() == 0 { trim_dot_slash(module) } else { dir + seq!['/'] + module };
    let np = normalized(joined);
    let relative = importer.len() > 0 && (starts_with(module, seq!['.', '/']) || starts_with(module, seq!['.', '.', '/']));
    if keys.contains(module) {
        Some(module)
    } else if !has_source_ext(module) && keys.contains(with_luat(module)) {
        Some(with_luat(module))
    } else if !has_source_ext(module) && keys.contains(with_lua(module)) {
        Some(with_lua(module))
    } else if relative && keys.contains(np) {
        Some(np)
    } else if relative && !has_source_ext(np) && keys.contains(with_luat(np)) {
        Some(with_luat(np))
    } else if relative && !has_source_ext(np) && keys.contains(with_lua(np)) {
        Some(with_lua(np))
    } else {
        None
    }
}

/// The path that a `module` imported from `importer` stands for, from the
/// importer's directory; `importer_is_file` is whether the importer is a
/// file on disk, which is consulted only when it has no extension.
pub open spec fn internal_target(importer: Seq<char>, module: Seq<char>, importer_is_file: bool) -> Seq<char> {
    if starts_with(module, seq!['/']) {
        module.skip(1)
    } else if importer.len() == 0 {
        module
    } else {
        let base = if importer_is_file || extension(importer) is Some {
            match parent(importer) {
                Some(p) => p,
                None => Seq::empty(),
            }
        } else {
            importer
        };
        if starts_with(module, seq!['.', '.', '/']) || starts_with(module, seq!['.', '/']) {
            normalized(join(base, module))
        } else if base.len() == 0 {
            normalized(module)
        } else {
            normalized(join(base, module))
        }
    }
}

/// A resolver over templates held in memory, with relative imports. The
/// resolver owns its templates: a clone holds a copy of them, and a
/// template added to one is not seen by the other.
#[derive(Debug, Clone)]
pub struct MemoryResourceResolver {
    templates: StrMap,
}

impl MemoryResourceResolver {
    /// The templates held.
    pub closed spec fn store(&self) -> StrMap {
        self.templates
    }

    /// A resolver with no templates.
    pub fn new() -> (r: Self)
        ensures
            r.store().keys().len() == 0,
    {
        MemoryResourceResolver { templates: StrMap::new() }
    }

    /// Adds (or replaces) the template at `path`.
    pub fn add_template(&mut self, path: &str, content: String)
        ensures
            final(self).store().lookup(path@) == Some(content@),
            forall|k: Seq<char>| k != path@ ==> final(self).store().lookup(k) == old(self).store().lookup(k),
    {
        proof {
            use_type_invariant(&self.templates);
        }
        self.templates.insert(path, content.as_str());
    }

    /// Adds (or replaces) the template at `path`.
    pub fn add_resource(&mut self, path: &str, content: &str)
        ensures
            final(self).store().lookup(path@) == Some(content@),
            forall|k: Seq<char>| k != path@ ==> final(self).store().lookup(k) == old(self).store().lookup(k),
    {
        self.add_template(path, owned(content));
    }

    /// Removes the template at `path`.
    pub fn remove_template(&mut self, path: &str)
        ensures
            final(self).store().lookup(path@) is None,
            forall|k: Seq<char>| k != path@ ==> final(self).store().lookup(k) == old(self).store().lookup(k),
    {
        proof {
            use_type_invariant(&self.templates);
        }
        self.templates.remove(path);
    }

    /// Removes every template.
    pub fn clear(&mut self)
        ensures
            final(self).store().keys().len() == 0,
    {
        self.templates.clear();
    }

    /// `path` with `.` and empty parts dropped and `..` resolved.
    pub fn normalize_path(&self, path: &str) -> (r: String)
        ensures
            r@ == normalized(path@),
    {
        let v = chars_of(path);
        let pieces = crate::text::split_vec(&v, '/');
        let ghost ps = crate::text::split_char(path@, '/');
        let mut kept: Vec<Vec<char>> = Vec::new();
        let mut i: usize = 0;
        proof {
            assert(ps.take(0) =~= Seq::<Seq<char>>::empty());
        }
        while i < pieces.len()
            invariant
                i <= pieces@.len() == ps.len(),
                forall|k: int| 0 <= k < pieces@.len() ==> (#[trigger] pieces@[k])@ == ps[k],
                kept@.len() == norm_pieces(ps.take(i as int)).len(),
                forall|k: int| 0 <= k < kept@.len() ==> (#[trigger] kept@[k])@ == norm_pieces(ps.take(i as int))[k],
            decreases pieces@.len() - i,
        {
            let p = &pieces[i];
            proof {
                assert(ps.take(i + 1).drop_last() =~= ps.take(i as int));
                assert(ps.take(i + 1).last() == p@);
            }
            let ghost before = norm_pieces(ps.take(i as int));
            if p.len() == 0 || (p.len() == 1 && p[0] == '.') {
                proof {
                    if p.len() == 1 {
                        assert(p@ =~= seq!['.']);
                    }
                }
            } else if p.len() == 2 && p[0] == '.' && p[1] == '.' {
                proof {
                    assert(p@ =~= seq!['.', '.']);
                }
                if kept.len() > 0 {
                    kept.pop();
                }
            } else {
                proof {
                    if p.len() == 1 {
                        assert(p@[0] != '.');
                        assert(p@ != seq!['.']);
                    }
                    if p.len() == 2 {
                        assert(p@ != seq!['.', '.']);
                    }
                }
                kept.push(crate::text::sub_chars(p, 0, p.len()));
                proof {
                    assert(p@.subrange(0, p@.len() as int) =~= p@);
                }
            }
            i = i + 1;
        }
        proof {
            assert(ps.take(i as int) =~= ps);
        }
        let ghost parts = norm_pieces(ps);
        let mut out = String::new();
        let mut k: usize = 0;
        while k < kept.len()
            invariant
                k <= kept@.len() == parts.len(),
                forall|j: int| 0 <= j < kept@.len() ==> (#[trigger] kept@[j])@ == parts[j],
                out@ == join_with(parts.take(k as int), seq!['/']),
            decreases kept@.len() - k,
        {
            if k > 0 {
                push_char(&mut out, '/');
            }
            crate::text::push_chars(&mut out, &kept[k]);
            proof {
                let t = parts.take(k + 1);
                assert(t.drop_last() =~= parts.take(k as int));
                assert(t.last() == parts[k as int]);
                if k == 0 {
                    assert(join_with(parts.take(0), seq!['/']) =~= Seq::<char>::empty());
                    assert(join_with(t, seq!['/']) == t[0]);
                }
                assert(out@ =~= join_with(t, seq!['/']));
            }
            k = k + 1;
        }
        proof {
            assert(parts.take(k as int) =~= parts);
        }
        out
    }
}

/// The outcome of looking up `key`: the key twice when found, else the
/// not-found error for `name`.
pub open spec fn key_outcome(r: Result<(String, String), LuatError>, key: Option<Seq<char>>, name: Seq<char>) -> bool {
    match key {
        Some(k) => r matches Ok((a, b)) && a@ == k && b@ == k,
        None => r matches Err(LuatError::ResolutionError(msg)) && msg@ == not_found_message(name),
    }
}

/// `s` followed by `ext`.
fn suffixed(s: &str, ext: &str) -> (r: String)
    ensures
        r@ == s@ + ext@,
{
    let mut out = owned(s);
    out.append(ext);
    out
}

/// The not-found error for `name`.
fn not_found(name: &str) -> (e: LuatError)
    ensures
        e matches LuatError::ResolutionError(msg) && msg@ == not_found_message(name@),
{
    let mut msg = String::new();
    msg.append("Module '");
    msg.append(name);
    msg.append("' not found in memory resolver");
    LuatError::ResolutionError(msg)
}

/// `s` with its first character upper-cased.
fn capitalize(s: &str) -> (r: String)
    ensures
        r@ == capitalized(s@),
{
    let v = chars_of(s);
    if v.len() == 0 {
        return owned(s);
    }
    let mut out = String::new();
    push_char(&mut out, first_upper(v[0]));
    crate::text::push_range(&mut out, &v, 1, v.len());
    proof {
        assert(out@ =~= capitalized(s@));
    }
    out
}

/// `s` with backslashes turned into slashes.
fn to_slashes(s: &str) -> (r: String)
    ensures
        r@ == slashes(s@),
{
    let v = chars_of(s);
    let mut out = String::new();
    let mut i: usize = 0;
    while i < v.len()
        invariant
            i <= v@.len(),
            v@ == s@,
            out@ == slashes(s@).take(i as int),
        decreases v@.len() - i,
    {
        let c = v[i];
        push_char(&mut out, if c == '\\' { '/' } else { c });
        proof {
            assert(out@ =~= slashes(s@).take(i + 1));
        }
        i = i + 1;
    }
    proof {
        assert(slashes(s@).take(i as int) =~= slashes(s@));
    }
    out
}

/// `s` without any number of leading `./`.
fn trim_dot_slash_str(s: &str) -> (r: String)
    ensures
        r@ == trim_dot_slash(s@),
{
    let v = chars_of(s);
    let n = v.len();
    let mut i: usize = 0;
    proof {
        assert(v@.skip(0) =~= v@);
    }
    loop
        invariant
            i <= n == v@.len(),
            trim_dot_slash(s@) == trim_dot_slash(v@.skip(i as int)),
            v@ == s@,
        ensures
            i <= n,
            trim_dot_slash(s@) == v@.skip(i as int),
        decreases n - i,
    {
        let ghost t = v@.skip(i as int);
        if n - i >= 2 && v[i] == '.' && v[i + 1] == '/' {
            proof {
                assert(t.take(2) =~= seq!['.', '/']);
                assert(t.skip(2) =~= v@.skip(i + 2));
            }
            i = i + 2;
        } else {
            proof {
                if t.len() >= 2 {
                    assert(t.take(2)[0] == v@[i as int]);
                    assert(t.take(2)[1] == v@[i + 1]);
                }
                assert(!starts_with(t, seq!['.', '/']));
            }
            break;
        }
    }
    proof {
        assert(v@.subrange(i as int, n as int) =~= v@.skip(i as int));
    }
    string_of_range(&v, i, n)
}

/// Whether `s` ends in `.luat` or `.lua`.
fn has_source_ext_str(s: &str) -> (b: bool)
    ensures
        b == has_source_ext(s@),
{
    str_ends_with(s, ".luat") || str_ends_with(s, ".lua")
}

impl MemoryResourceResolver {
    /// The key that `path` names, trying its variants in turn
    /// (`variant_key`).
    pub fn try_resolve_with_variants(&self, path: &str) -> (r: Result<(String, String), LuatError>)
        ensures
            key_outcome(r, variant_key(self.store().keys(), path@), path@),
    {
        proof {
            use_type_invariant(&self.templates);
            reveal_strlit("./");
            assert("./"@ =~= seq!['.', '/']);
        }
        let n = to_slashes(path);
        if self.templates.contains_key(n.as_str()) {
            return Ok((owned(n.as_str()), n));
        }
        let no_ext = !has_extension(n.as_str());
        if no_ext {
            let a = suffixed(n.as_str(), ".luat");
            if self.templates.contains_key(a.as_str()) {
                return Ok((owned(a.as_str()), a));
            }
            let b = suffixed(n.as_str(), ".lua");
            if self.templates.contains_key(b.as_str()) {
                return Ok((owned(b.as_str()), b));
            }
        }
        let nv = chars_of(n.as_str());
        if str_starts_with(n.as_str(), "./") {
            let nd = string_of_range(&nv, 2, nv.len());
            proof {
                assert(nv@.subrange(2, nv@.len() as int) =~= n@.skip(2));
            }
            if self.templates.contains_key(nd.as_str()) {
                return Ok((owned(nd.as_str()), nd));
            }
            if !has_source_ext_str(nd.as_str()) {
                let a = suffixed(nd.as_str(), ".luat");
                if self.templates.contains_key(a.as_str()) {
                    return Ok((owned(a.as_str()), a));
                }
                let b = suffixed(nd.as_str(), ".lua");
                if self.templates.contains_key(b.as_str()) {
                    return Ok((owned(b.as_str()), b));
                }
            }
        }
        let base = match path_file_name(n.as_str()) {
            Some(f) => f,
            None => owned(n.as_str()),
        };
        if self.templates.contains_key(base.as_str()) {
            return Ok((owned(base.as_str()), base));
        }
        let cap = capitalize(base.as_str());
        let differs = !crate::ast::str_eq(cap.as_str(), base.as_str());
        if differs && self.templates.contains_key(cap.as_str()) {
            return Ok((owned(cap.as_str()), cap));
        }
        if !has_source_ext_str(base.as_str()) {
            let a = suffixed(base.as_str(), ".luat");
            if self.templates.contains_key(a.as_str()) {
                return Ok((owned(a.as_str()), a));
            }
            let b = suffixed(base.as_str(), ".lua");
            if self.templates.contains_key(b.as_str()) {
                return Ok((owned(b.as_str()), b));
            }
            let c = suffixed(cap.as_str(), ".luat");
            if differs && self.templates.contains_key(c.as_str()) {
                return Ok((owned(c.as_str()), c));
            }
        }
        Err(not_found(path))
    }

    /// The key that `module_name` names from `importer_path`: an absolute
    /// name from the root, else from the importer's directory (its parent
    /// when it is a file, which may be asked of the disk), normalised, then
    /// with its variants (`variant_key`).
    pub fn resolve_internal(&self, importer_path: &str, module_name: &str) -> (r: Result<(String, String), LuatError>)
        ensures
            exists|f: bool| #![trigger internal_target(importer_path@, module_name@, f)]
                key_outcome(r, variant_key(self.store().keys(), internal_target(importer_path@, module_name@, f)),
                internal_target(importer_path@, module_name@, f)),
    {
        proof {
            reveal_strlit("/");
            reveal_strlit("./");
            reveal_strlit("../");
            assert("/"@ =~= seq!['/']);
            assert("./"@ =~= seq!['.', '/']);
            assert("../"@ =~= seq!['.', '.', '/']);
        }
        let mv = chars_of(module_name);
        if str_starts_with(module_name, "/") {
            let clean = string_of_range(&mv, 1, mv.len());
            proof {
                assert(mv@.subrange(1, mv@.len() as int) =~= module_name@.skip(1));
            }
            let r = self.try_resolve_with_variants(clean.as_str());
            proof {
                assert(key_outcome(r, variant_key(self.store().keys(), internal_target(importer_path@, module_name@, true)),
                    internal_target(importer_path@, module_name@, true)));
            }
            return r;
        }
        if chars_of(importer_path).len() == 0 {
            let r = self.try_resolve_with_variants(module_name);
            proof {
                assert(key_outcome(r, variant_key(self.store().keys(), internal_target(importer_path@, module_name@, true)),
                    internal_target(importer_path@, module_name@, true)));
            }
            return r;
        }
        let is_file = path_is_file(importer_path);
        let base: String = if is_file || has_extension(importer_path) {
            match path_parent(importer_path) {
                Some(p) => p,
                None => String::new(),
            }
        } else {
            owned(importer_path)
        };
        let target = if str_starts_with(module_name, "../") || str_starts_with(module_name, "./") {
            path_join(base.as_str(), module_name)
        } else if chars_of(base.as_str()).len() == 0 {
            owned(module_name)
        } else {
            path_join(base.as_str(), module_name)
        };
        let normalized_target = self.normalize_path(target.as_str());
        let r = self.try_resolve_with_variants(normalized_target.as_str());
        proof {
            assert(key_outcome(r, variant_key(self.store().keys(), internal_target(importer_path@, module_name@, is_file)),
                internal_target(importer_path@, module_name@, is_file)));
        }
        r
    }

    /// The resolved template for `key`, which is held.
    fn found(&self, key: String) -> (r: ResolvedResource)
        requires
            self.store().keys().contains(key@),
        ensures
            r.path@ == key@,
            Some(r.source@) == self.store().lookup(key@),
    {
        proof {
            use_type_invariant(&self.templates);
            let i = choose|i: int| 0 <= i < self.templates.keys().len() && self.templates.keys()[i] == key@;
            assert(crate::collections::index_of(self.templates.keys(), key@) is Some);
        }
        match self.templates.get(key.as_str()) {
            Some(source) => ResolvedResource { path: key, source: owned(source.as_str()) },
            None => ResolvedResource { path: key, source: String::new() },
        }
    }
}

/// The outcome of a resolution for `key`, for a module named `name`.
pub open spec fn resolve_outcome(r: Result<ResolvedResource, LuatError>, store: StrMap, key: Option<Seq<char>>, name: Seq<char>) -> bool {
    match key {
        Some(k) => r matches Ok(res) && res.path@ == k && Some(res.source@) == store.lookup(k),
        None => r matches Err(LuatError::ResolutionError(msg)) && msg@ == not_found_message(name),
    }
}

/// A template held under a path is what resolving that exact path gives,
/// from any importer: the path is its own key, and the result carries the
/// held source.
pub proof fn lemma_resolve_added(r: MemoryResourceResolver, importer: Seq<char>, path: Seq<char>)
    requires
        r.store().lookup(path) is Some,
    ensures
        resolve_key(r.store().keys(), importer, path) == Some(path),
        forall|res: Result<ResolvedResource, LuatError>| #[trigger]
            resolve_outcome(res, r.store(), resolve_key(r.store().keys(), importer, path), path) ==> (res matches Ok(x)
                && x.path@ == path && Some(x.source@) == r.store().lookup(path)),
{
    let keys = r.store().keys();
    assert(keys.contains(path));
}

impl ResourceResolver for MemoryResourceResolver {
    /// The template that `module_name` names from `importer_path`
    /// (`resolve_key`), with its key as path.
    fn resolve(&self, importer_path: &str, module_name: &str) -> (r: Result<ResolvedResource, LuatError>)
        ensures
            resolve_outcome(r, self.store(), resolve_key(self.store().keys(), importer_path@, module_name@), module_name@),
    {
        proof {
            reveal_strlit("./");
            reveal_strlit("../");
            assert("./"@ =~= seq!['.', '/']);
            assert("../"@ =~= seq!['.', '.', '/']);
        }
        if self.templates.contains_key(module_name) {
            return Ok(self.found(owned(module_name)));
        }
        if !has_source_ext_str(module_name) {
            let a = suffixed(module_name, ".luat");
            if self.templates.contains_key(a.as_str()) {
                return Ok(self.found(a));
            }
            let b = suffixed(module_name, ".lua");
            if self.templates.contains_key(b.as_str()) {
                return Ok(self.found(b));
            }
        }
        if chars_of(importer_path).len() > 0 && (str_starts_with(module_name, "./") || str_starts_with(module_name, "../")) {
            let dir: String = match path_parent(importer_path) {
                Some(d) => d,
                None => String::new(),
            };
            let joined = if chars_of(dir.as_str()).len() == 0 {
                trim_dot_slash_str(module_name)
            } else {
                let mut j = owned(dir.as_str());
                push_char(&mut j, '/');
                j.append(module_name);
                j
            };
            let ghost dv = match parent(importer_path@) {
                Some(d) => d,
                None => Seq::<char>::empty(),
            };
            proof {
                assert(dir@ == dv);
                assert(joined@ =~= (if dv.len() == 0 { trim_dot_slash(module_name@) } else { dv + seq!['/'] + module_name@ }));
            }
            let np = self.normalize_path(joined.as_str());
            proof {
                assert(np@ == normalized(if dv.len() == 0 { trim_dot_slash(module_name@) } else { dv + seq!['/'] + module_name@ }));
            }
            if self.templates.contains_key(np.as_str()) {
                return Ok(self.found(np));
            }
            if !has_source_ext_str(np.as_str()) {
                let a = suffixed(np.as_str(), ".luat");
                if self.templates.contains_key(a.as_str()) {
                    return Ok(self.found(a));
                }
                let b = suffixed(np.as_str(), ".lua");
                if self.templates.contains_key(b.as_str()) {
                    return Ok(self.found(b));
                }
            }
        }
        Err(not_found(module_name))
    }

    /// The key that `module_name` names from `importer_path`.
    fn get_resolved_path(&self, importer_path: &str, module_name: &str) -> (r: Result<String, LuatError>)
        ensures
            match resolve_key(self.store().keys(), importer_path@, module_name@) {
                Some(k) => r matches Ok(p) && p@ == k,
                None => r matches Err(LuatError::ResolutionError(msg)) && msg@ == not_found_message(module_name@),
            },
    {
        match self.resolve(importer_path, module_name) {
            Ok(res) => Ok(res.path),
            Err(e) => Err(e),
        }
    }
}

impl Default for MemoryResourceResolver {
    fn default() -> (r: Self)
        ensures
            r.store().keys().len() == 0,
    {
        MemoryResourceResolver::new()
    }
}

} // verus!
