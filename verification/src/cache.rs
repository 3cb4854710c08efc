//! Compiled modules and the cache interface.

use vstd::prelude::*;
use std::collections::hash_map::DefaultHasher;
use std::hash::{Hash, Hasher};
use std::sync::Arc;
use crate::codegen::LuaSourceMap;
use crate::error::LuatError;
use crate::text::{ends_with, hex, hex_string, owned, str_ends_with, views};

verus! {

/// The `DefaultHasher` hash of a string.
pub uninterp spec fn string_hash(s: Seq<char>) -> u64;

/// The `DefaultHasher` hash of a source followed by a slice of
/// dependency names.
pub uninterp spec fn source_deps_hash(source: Seq<char>, deps: Seq<Seq<char>>) -> u64;

/// `str::hash` into a fresh `DefaultHasher` (`DefaultHasher::new`, then
/// `finish`): the result is named `string_hash`.
#[verifier::external_body]
fn hash_string(s: &str) -> (h: u64)
    ensures
        h == string_hash(s@),
{
    let mut hasher = DefaultHasher::new();
    s.hash(&mut hasher);
    hasher.finish()
}

/// `str::hash` then `<[String]>::hash` into a fresh `DefaultHasher`: the
/// result is named `source_deps_hash`.
#[verifier::external_body]
fn hash_source_deps(source: &str, deps: &[String]) -> (h: u64)
    ensures
        h == source_deps_hash(source@, views(deps@)),
{
    let mut hasher = DefaultHasher::new();
    source.hash(&mut hasher);
    deps.hash(&mut hasher);
    hasher.finish()
}

/// A shared pointer to a cached module.
pub type SharedPtr<T> = Arc<T>;

/// A compiled template: its generated Lua code and what it depends on.
#[derive(Debug, Clone)]
pub struct Module {
    /// The module name.
    pub name: String,
    /// The generated Lua code.
    pub lua_code: String,
    /// The components it depends on.
    pub dependencies: Vec<String>,
    /// Hash of the Lua code.
    pub hash: u64,
    /// The template's path.
    pub path: Option<String>,
    /// Lines of the Lua code mapped to lines of the template.
    pub source_map: Option<LuaSourceMap>,
}

impl Module {
    /// A module with the hash of its code, and no path or source map.
    pub fn new(name: String, lua_code: String, dependencies: Vec<String>) -> (r: Self)
        ensures
            r.name == name,
            r.lua_code == lua_code,
            r.dependencies == dependencies,
            r.hash == string_hash(lua_code@),
            r.path is None,
            r.source_map is None,
    {
        let hash = hash_string(lua_code.as_str());
        Module { name, lua_code, dependencies, hash, path: None, source_map: None }
    }

    /// A module with the hash of its code and a path.
    pub fn with_path(name: String, lua_code: String, dependencies: Vec<String>, path: String) -> (r: Self)
        ensures
            r.name == name,
            r.lua_code == lua_code,
            r.dependencies == dependencies,
            r.hash == string_hash(lua_code@),
            r.path == Some(path),
            r.source_map is None,
    {
        let mut module = Module::new(name, lua_code, dependencies);
        module.path = Some(path);
        module
    }

    /// A module with the hash of its code, a path and a source map.
    pub fn with_source_map(
        name: String,
        lua_code: String,
        dependencies: Vec<String>,
        path: Option<String>,
        source_map: LuaSourceMap,
    ) -> (r: Self)
        ensures
            r.name == name,
            r.lua_code == lua_code,
            r.dependencies == dependencies,
            r.hash == string_hash(lua_code@),
            r.path == path,
            r.source_map == Some(source_map),
    {
        let hash = hash_string(lua_code.as_str());
        Module { name, lua_code, dependencies, hash, path, source_map: Some(source_map) }
    }
}

/// A cache of compiled modules: implement it for other storage.
pub trait Cache {
    /// The module cached under `key`.
    fn get(&self, key: &str) -> Result<Option<SharedPtr<Module>>, LuatError>;

    /// Caches `module` under `key`.
    fn set(&self, key: &str, module: SharedPtr<Module>) -> Result<(), LuatError>;

    /// Drops the module cached under `key`.
    fn remove(&self, key: &str) -> Result<(), LuatError>;

    /// Drops every cached module.
    fn clear(&self) -> Result<(), LuatError>;

    /// Whether a module is cached under `key`.
    fn contains_key(&self, key: &str) -> bool;
}

/// A cache that keeps nothing.
#[derive(Debug, Clone)]
pub struct NoOpCache;

impl NoOpCache {
    /// The cache that keeps nothing.
    pub fn new() -> (r: Self) {
        NoOpCache
    }
}

impl Default for NoOpCache {
    fn default() -> (r: Self) {
        NoOpCache
    }
}

impl Cache for NoOpCache {
    /// Nothing is ever cached.
    fn get(&self, key: &str) -> (r: Result<Option<SharedPtr<Module>>, LuatError>)
        ensures
            r matches Ok(None),
    {
        Ok(None)
    }

    /// Keeps nothing.
    fn set(&self, key: &str, module: SharedPtr<Module>) -> (r: Result<(), LuatError>)
        ensures
            r is Ok,
    {
        Ok(())
    }

    /// Nothing to drop.
    fn remove(&self, key: &str) -> (r: Result<(), LuatError>)
        ensures
            r is Ok,
    {
        Ok(())
    }

    /// Nothing to drop.
    fn clear(&self) -> (r: Result<(), LuatError>)
        ensures
            r is Ok,
    {
        Ok(())
    }

    /// Nothing is ever cached.
    fn contains_key(&self, key: &str) -> (b: bool)
        ensures
            !b,
    {
        false
    }
}

/// The cache key of a template: the hash of its source and dependency
/// names, in lower-case hexadecimal.
pub fn generate_cache_key(source: &str, dependencies: &[String]) -> (r: String)
    ensures
        r@ == hex(source_deps_hash(source@, views(dependencies@)) as nat),
{
    hex_string(hash_source_deps(source, dependencies))
}

/// The `DefaultHasher` hash of a template source.
pub fn source_hash(source: &str) -> (h: u64)
    ensures
        h == string_hash(source@),
{
    hash_string(source)
}

/// `module:` followed by `path`: the key a compiled module is cached under.
pub fn module_key(path: &str) -> (r: String)
    ensures
        r@ == "module:"@ + path@,
{
    let mut r = String::new();
    r.append("module:");
    r.append(path);
    proof {
        reveal_strlit("module:");
    }
    r
}

/// The template a `require` name stands for: the name itself when it ends
/// in `.luat` or `.lua`, else the name with `.luat` appended.
pub fn module_file_name(name: &str) -> (r: String)
    ensures
        r@ == if ends_with(name@, ".luat"@) || ends_with(name@, ".lua"@) { name@ } else { name@ + ".luat"@ },
{
    proof {
        reveal_strlit(".luat");
        reveal_strlit(".lua");
    }
    if str_ends_with(name, ".luat") || str_ends_with(name, ".lua") {
        owned(name)
    } else {
        let mut r = owned(name);
        r.append(".luat");
        r
    }
}

} // verus!
