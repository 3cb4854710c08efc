//! Bundles of compiled modules in load order, with a table of their
//! sources and a loader that resolves `require` between them, and the map
//! from bundle lines back to modules.

use vstd::prelude::*;
use crate::codegen::{escape_lua_string, lua_escape};
use crate::collections::pair_views;
use crate::dependencies::{dep_total, is_cycle_error, ordering_of, order_sources, settled, source_graph, source_names};
use crate::progress::Progress;
use crate::error::{error_message, LuatError};
use crate::sourcemap::{info_matches, BundleSourceMap};
use crate::text::{chars_of, dec, dec_string, lines, line_bounds, push_char, starts_with};

verus! {

/// What a bundle starts with: the table of sources and an error handler.
pub const BUNDLE_HEAD: &'static str = r##"-- SOURCE MAP TABLE
local __source_map = {}

-- Enhanced error handler
local function __wrap_error(module_name, error_msg, traceback)
    local enhanced_msg = string.format(
        "Error in module '%s': %s\nTraceback:\n%s",
        module_name,
        error_msg,
        traceback or debug.traceback()
    )
    error(enhanced_msg, 0)
end

-- Wrap require to add module context
local __original_require = require
local function __enhanced_require(module_name)
    local ok, result = pcall(__original_require, module_name)
    if not ok then
        __wrap_error(module_name, result, debug.traceback())
    end
    return result
end
_G.require = __enhanced_require
"##;

/// The module loader: path normalization, `$lib` aliases, resolution of a
/// `require` between bundled modules and server sources.
pub const BUNDLE_LOADER: &'static str = r##"
-- BUNDLED MODULES
local __module_loaders = {}
local __modules = {}
local __original_require = require

local function __normalize_path(path)
  path = string.gsub(path, "\\", "/")
  local parts = {}
  for part in string.gmatch(path, "[^/]+") do
    if part == ".." then
      if #parts > 0 then table.remove(parts) end
    elseif part ~= "." and part ~= "" then
      table.insert(parts, part)
    end
  end
  return table.concat(parts, "/")
end

local function __dirname(path)
  if not path or path == "" then return "" end
  local dir = string.match(path, "^(.*)/")
  if not dir then return "" end
  return dir
end

local function __expand_alias(name)
  if string.sub(name, 1, 5) == "$lib/" then
    return "lib/" .. string.sub(name, 6)
  end
  return name
end

local function __add_candidates(candidates, base)
  if base == "" then return end
  table.insert(candidates, base)
  if not string.match(base, "%.luat$") and not string.match(base, "%.lua$") then
    table.insert(candidates, base .. ".luat")
    table.insert(candidates, base .. ".lua")
  end
end

local function __resolve_module(name, importer)
  local require_map = rawget(_G, "__require_map")
  if require_map ~= nil then
    local importer_map = require_map[importer] or require_map[""]
    if importer_map and importer_map[name] then
      local resolved = importer_map[name]
      if __modules[resolved] ~= nil then
        return "module", resolved
      end
      if __module_loaders[resolved] ~= nil then
        return "loader", resolved
      end
      if __server_sources and __server_sources[resolved] ~= nil then
        return "server", resolved
      end
    end
  end
  local candidates = {}
  local expanded = __expand_alias(name)
  local base_dir = ""
  if importer and importer ~= "" then
    base_dir = __dirname(importer)
  end
  if string.sub(expanded, 1, 1) == "/" then
    __add_candidates(candidates, __normalize_path(string.sub(expanded, 2)))
  elseif string.sub(expanded, 1, 2) == "./" or string.sub(expanded, 1, 3) == "../" then
    local joined = expanded
    if base_dir ~= "" then joined = base_dir .. "/" .. expanded end
    __add_candidates(candidates, __normalize_path(joined))
  else
    if base_dir ~= "" then
      __add_candidates(candidates, __normalize_path(base_dir .. "/" .. expanded))
    end
    __add_candidates(candidates, __normalize_path(expanded))
  end
  local basename = string.match(expanded, "([^/]+)$") or expanded
  if basename ~= expanded then
    if base_dir ~= "" then
      __add_candidates(candidates, __normalize_path(base_dir .. "/" .. basename))
    end
    __add_candidates(candidates, __normalize_path(basename))
  end
  for _, key in ipairs(candidates) do
    if __modules[key] ~= nil then
      return "module", key
    end
    if __module_loaders[key] ~= nil then
      return "loader", key
    end
    if __server_sources and __server_sources[key] ~= nil then
      return "server", key
    end
  end
  return nil
end

local function __load_server_module(key)
  if package.loaded[key] ~= nil then return package.loaded[key] end
  if not __server_sources then return nil end
  local source = __server_sources[key]
  if not source then return nil end
  local prev = _G.__luat_current_module
  _G.__luat_current_module = key
  local fn = load(source, "@" .. key)
  local ok, result = pcall(fn)
  _G.__luat_current_module = prev
  if not ok then error(result, 2) end
  if result == nil then result = true end
  package.loaded[key] = result
  return result
end

"##;

/// What a bundle ends with: the enhanced `require` and debugging helpers.
pub const BUNDLE_TAIL: &'static str = r##"
-- ENHANCED MODULE LOADER
local function __module_keys()
    local keys = {}
    for k, _ in pairs(__module_loaders) do
        table.insert(keys, k)
    end
    for k, _ in pairs(__modules) do
        table.insert(keys, k)
    end
    return keys
end

local function __require(name)
    local importer = _G.__luat_current_module or ""
    local kind, key = __resolve_module(name, importer)
    if kind == "module" then
        local module = __modules[key]
        if type(module) == "table" and module.parse_error then
            error(string.format("Module '%s' has parse error: %s", key, module.error), 2)
        end
        return module
    end
    if kind == "loader" then
        local module = __module_loaders[key]()
        if module == nil then module = true end
        __modules[key] = module
        package.loaded[key] = module
        if type(module) == "table" and module.parse_error then
            error(string.format("Module '%s' has parse error: %s", key, module.error), 2)
        end
        return module
    end
    if kind == "server" then
        local module = __load_server_module(key)
        if module ~= nil then return module end
    end
    local ok, result = pcall(__original_require, name)
    if ok then return result end
    error(string.format("Module '%s' not found in bundle. Available modules: %s. Require error: %s",
        name, table.concat(__module_keys(), ", "), result), 2)
end

-- Replace global require
_G.require = __require

-- Export for debugging
_G.__bundle_debug = {
    modules = __modules,
    source_map = __source_map,
    get_source = function(module_name, line_num)
        local map = __source_map[module_name]
        if not map then return nil end
        
        local lines = {}
        for line in map.source:gmatch("[^\n]+") do
            table.insert(lines, line)
        end
        
        if line_num and lines[line_num] then
            return lines[line_num]
        end
        return lines
    end,
    get_module_from_line = function(bundle_line)
        for name, info in pairs(__source_map) do
            if info.start_line <= bundle_line and 
               info.start_line + #(info.source:gmatch("[^\n]+)")) >= bundle_line then
                return name, bundle_line - info.start_line + 1
            end
        end
        return nil, nil
    end
}
"##;

/// The line at which the next module starts: one after the last line, or
/// the largest `usize`.
pub open spec fn next_line(text: Seq<char>) -> usize {
    if lines(text).len() + 1 <= usize::MAX { (lines(text).len() + 1) as usize } else { usize::MAX }
}

/// The entry of module `name` with compiled code `code`, starting at bundle
/// line `off`, in the table of sources.
pub open spec fn source_entry(name: Seq<char>, code: Seq<char>, off: usize) -> Seq<char> {
    "\n-- MODULE: "@ + name + " (line "@ + dec(off as nat) + ")\n"@
        + "__source_map['"@ + name + "'] = {\n"@
        + "  start_line = "@ + dec(off as nat) + ",\n"@
        + "  source = [=["@ + code + "]=]\n"@
        + "}\n"@
}

/// The loader of module `name` with compiled code `code`.
pub open spec fn loader_entry(name: Seq<char>, code: Seq<char>) -> Seq<char> {
    "__module_loaders['"@ + lua_escape(name) + "'] = function()\n"@
        + "  local __prev = _G.__luat_current_module\n"@
        + "  _G.__luat_current_module = '"@ + lua_escape(name) + "'\n"@
        + "  local ok, result = pcall(function()\n"@
        + code
        + "\n  end)\n"@
        + "  _G.__luat_current_module = __prev\n"@
        + "  if not ok then\n"@
        + "    __wrap_error('"@ + lua_escape(name) + "', result)\n"@
        + "  end\n"@
        + "  return result\n"@
        + "end\n"@
}

/// The part of the bundle for module `name` with compiled code `code`
/// starting at bundle line `off`: its entry in the source table and its
/// loader.
pub open spec fn module_section(name: Seq<char>, code: Seq<char>, off: usize) -> Seq<char> {
    source_entry(name, code, off) + loader_entry(name, code)
}

/// The bundle before module `k` of `mods` (name, compiled code).
pub open spec fn section_prefix(mods: Seq<(Seq<char>, Seq<char>)>, k: int) -> Seq<char>
    decreases k,
{
    if k <= 0 {
        BUNDLE_HEAD@ + BUNDLE_LOADER@
    } else {
        let p = section_prefix(mods, k - 1);
        p + module_section(mods[k - 1].0, mods[k - 1].1, next_line(p))
    }
}

/// The bundle line at which module `k` starts.
pub open spec fn section_start(mods: Seq<(Seq<char>, Seq<char>)>, k: int) -> usize {
    next_line(section_prefix(mods, k))
}

/// The bundle of modules `mods`, in their order.
pub open spec fn sections_text(mods: Seq<(Seq<char>, Seq<char>)>) -> Seq<char> {
    section_prefix(mods, mods.len() as int) + BUNDLE_TAIL@
}

/// Module `j` is the last of the first `k` with its name.
pub open spec fn last_named(mods: Seq<(Seq<char>, Seq<char>)>, k: int, j: int) -> bool {
    &&& 0 <= j < k
    &&& forall|m: int| j < m < k ==> #[trigger] mods[m].0 != mods[j].0
}

/// The source map of the bundle of `mods` records each module name, with
/// the start line and code of the last module of that name.
pub open spec fn maps_sections(map: BundleSourceMap, mods: Seq<(Seq<char>, Seq<char>)>) -> bool {
    &&& map.modules.wf()
    &&& forall|n: Seq<char>| #![trigger map.modules.get_spec(n)]
        (map.modules.get_spec(n) is Some <==> exists|j: int| 0 <= j < mods.len() && mods[j].0 == n)
    &&& forall|j: int| #[trigger] last_named(mods, mods.len() as int, j) ==> (map.modules.get_spec(mods[j].0) matches Some(info)
        && info_matches(info, mods[j].0, section_start(mods, j), mods[j].1))
}


/// The line at which the next module starts after `text`.
fn next_line_of(text: &str) -> (r: usize)
    ensures
        r == next_line(text@),
{
    let n = line_bounds(&chars_of(text)).len();
    n.saturating_add(1)
}

/// Appends the source entry of module `name`.
fn push_source_entry(bundle: &mut String, name: &str, code: &str, off: usize)
    ensures
        final(bundle)@ == old(bundle)@ + source_entry(name@, code@, off),
{
    let ghost before = bundle@;
    let line = dec_string(off);
    bundle.append("\n-- MODULE: ");
    bundle.append(name);
    bundle.append(" (line ");
    bundle.append(line.as_str());
    bundle.append(")\n");
    bundle.append("__source_map['");
    bundle.append(name);
    bundle.append("'] = {\n");
    bundle.append("  start_line = ");
    bundle.append(line.as_str());
    bundle.append(",\n");
    bundle.append("  source = [=[");
    bundle.append(code);
    bundle.append("]=]\n");
    bundle.append("}\n");
    proof {
        assert(bundle@ =~= before + source_entry(name@, code@, off));
    }
}

/// Appends the loader of module `name`.
fn push_loader_entry(bundle: &mut String, name: &str, code: &str)
    ensures
        final(bundle)@ == old(bundle)@ + loader_entry(name@, code@),
{
    let ghost before = bundle@;
    let escaped = escape_lua_string(name);
    bundle.append("__module_loaders['");
    bundle.append(escaped.as_str());
    bundle.append("'] = function()\n");
    bundle.append("  local __prev = _G.__luat_current_module\n");
    bundle.append("  _G.__luat_current_module = '");
    bundle.append(escaped.as_str());
    bundle.append("'\n");
    bundle.append("  local ok, result = pcall(function()\n");
    bundle.append(code);
    bundle.append("\n  end)\n");
    bundle.append("  _G.__luat_current_module = __prev\n");
    bundle.append("  if not ok then\n");
    bundle.append("    __wrap_error('");
    bundle.append(escaped.as_str());
    bundle.append("', result)\n");
    bundle.append("  end\n");
    bundle.append("  return result\n");
    bundle.append("end\n");
    proof {
        assert(bundle@ =~= before + loader_entry(name@, code@));
    }
}

/// Appends the part of module `name` with code `code` starting at `off`.
fn push_module_section(bundle: &mut String, name: &str, code: &str, off: usize)
    ensures
        final(bundle)@ == old(bundle)@ + module_section(name@, code@, off),
{
    let ghost before = bundle@;
    push_source_entry(bundle, name, code, off);
    push_loader_entry(bundle, name, code);
    proof {
        assert(bundle@ =~= before + module_section(name@, code@, off));
    }
}

/// Bundles compiled modules (name, code), already in load order: the head,
/// the loader, each module's source entry and loader, the tail. `progress`
/// is told the index of each module once it is added, and the count. The
/// source map records where each module starts; of modules with the same
/// name the last one counts.
pub fn bundle_ordered<F: FnMut(usize, usize)>(mods: Vec<(String, String)>, progress: F) -> (r: (String, BundleSourceMap))
    requires
        forall|a: usize, b: usize| call_requires(progress, (a, b)),
    ensures
        r.0@ == sections_text(pair_views(mods@)),
        maps_sections(r.1, pair_views(mods@)),
{
    let mut reporter = Progress::new(progress);
    bundle_ordered_reporting(mods, &mut reporter)
}

/// The progress calls of bundling `n` ordered modules: `(i, n)` once
/// module `i` is added.
pub open spec fn section_steps(n: usize) -> Seq<(usize, usize)> {
    Seq::new(n as nat, |i: int| (i as usize, n))
}

/// [`bundle_ordered`], telling `progress` of each module added.
pub fn bundle_ordered_reporting<F: FnMut(usize, usize)>(mods: Vec<(String, String)>, progress: &mut Progress<F>) -> (r: (
    String,
    BundleSourceMap,
))
    requires
        forall|a: usize, b: usize| call_requires(old(progress).callback(), (a, b)),
    ensures
        r.0@ == sections_text(pair_views(mods@)),
        maps_sections(r.1, pair_views(mods@)),
        final(progress).callback() == old(progress).callback(),
        final(progress).calls() == old(progress).calls() + section_steps(mods@.len() as usize),
{
    let ghost ms = pair_views(mods@);
    let ghost calls0 = progress.calls();
    let ghost cb0 = progress.callback();
    let mut bundle = String::new();
    let mut source_map = BundleSourceMap::new();
    bundle.append(BUNDLE_HEAD);
    bundle.append(BUNDLE_LOADER);
    let n = mods.len();
    let mut i: usize = 0;
    proof {
        assert(bundle@ =~= section_prefix(ms, 0));
    }
    while i < n
        invariant
            n == mods@.len() == ms.len(),
            ms == pair_views(mods@),
            i <= n,
            bundle@ == section_prefix(ms, i as int),
            forall|a: usize, b: usize| call_requires(progress.callback(), (a, b)),
            progress.callback() == cb0,
            cb0 == old(progress).callback(),
            calls0 == old(progress).calls(),
            progress.calls() == calls0 + section_steps(n).take(i as int),
            source_map.modules.wf(),
            forall|m: Seq<char>| #![trigger source_map.modules.get_spec(m)]
                (source_map.modules.get_spec(m) is Some <==> exists|j: int| 0 <= j < i && ms[j].0 == m),
            forall|j: int| #[trigger] last_named(ms, i as int, j) ==> (source_map.modules.get_spec(ms[j].0) matches Some(info)
                && info_matches(info, ms[j].0, section_start(ms, j), ms[j].1)),
        decreases n - i,
    {
        let name = &mods[i].0;
        let code = &mods[i].1;
        proof {
            assert(ms[i as int] == (name@, code@));
        }
        let start = next_line_of(bundle.as_str());
        let ghost old_map = source_map.modules;
        source_map.add_module(name.as_str(), name.as_str(), start, code.as_str());
        push_module_section(&mut bundle, name.as_str(), code.as_str(), start);
        proof {
            assert forall|m: Seq<char>| #![trigger source_map.modules.get_spec(m)]
                (source_map.modules.get_spec(m) is Some <==> exists|j: int| 0 <= j < i + 1 && ms[j].0 == m) by {
                if m == name@ {
                    assert(ms[i as int].0 == m);
                } else {
                    assert(old_map.get_spec(m) == source_map.modules.get_spec(m));
                    if exists|j: int| 0 <= j < i + 1 && ms[j].0 == m {
                        let j = choose|j: int| 0 <= j < i + 1 && ms[j].0 == m;
                        assert(j < i);
                    }
                }
            }
            assert forall|j: int| #[trigger] last_named(ms, i + 1, j) implies (source_map.modules.get_spec(ms[j].0) matches Some(info)
                && info_matches(info, ms[j].0, section_start(ms, j), ms[j].1)) by {
                if j < i {
                    assert(ms[i as int].0 != ms[j].0);
                    assert(last_named(ms, i as int, j));
                }
            }
        }
        progress.report(i, n);
        proof {
            assert(section_steps(n).take(i + 1) =~= section_steps(n).take(i as int).push((i, n)));
        }
        i = i + 1;
    }
    proof {
        assert(section_steps(n).take(n as int) =~= section_steps(n));
    }
    bundle.append(BUNDLE_TAIL);
    (bundle, source_map)
}

/// `Failed to order sources by dependency: `.
pub open spec fn order_failed() -> Seq<char> {
    "Failed to order sources by dependency: "@
}

/// `e` reports that the modules `ms` (name, code) cannot be ordered: their
/// `require` graph has a cycle, so that settling it in order leaves some
/// module out, and the message says so after [`order_failed`].
pub open spec fn cannot_order(ms: Seq<(Seq<char>, Seq<char>)>, e: LuatError) -> bool {
    &&& exists|s: Seq<Seq<char>>| #[trigger] settled(source_graph(ms), s) && s.len() != source_names(ms).len()
    &&& exists|c: LuatError| #[trigger] is_cycle_error(c)
        && (e matches LuatError::InvalidTemplate(msg) && msg@ == order_failed() + error_message(c))
}

/// Bundles compiled modules (name, code) in dependency order, with the map
/// from bundle lines to modules; `progress` is told the index of each
/// module once it is added, and the count. When the modules cannot be
/// ordered (a `require` cycle among them), the error says so, with the
/// reason.
pub fn bundle_sources_with_sourcemap<F: FnMut(usize, usize)>(compiled: Vec<(String, String)>, progress: F) -> (r: Result<
    (String, BundleSourceMap),
    LuatError,
>)
    requires
        forall|a: usize, b: usize| call_requires(progress, (a, b)),
    ensures
        r matches Ok((b, m)) ==> exists|o: Seq<(Seq<char>, Seq<char>)>| #[trigger] sections_text(o) == b@ && maps_sections(m, o) && (
            crate::dependencies::dep_total(
                crate::dependencies::source_graph(pair_views(compiled@)),
                crate::dependencies::source_names(pair_views(compiled@)).len() as int,
            ) < usize::MAX ==> ordering_of(pair_views(compiled@), o)),
        r matches Err(e) ==> e matches LuatError::InvalidTemplate(msg) && starts_with(msg@, order_failed()),
        dep_total(source_graph(pair_views(compiled@)), source_names(pair_views(compiled@)).len() as int)
            < usize::MAX ==> (r matches Err(e) ==> cannot_order(pair_views(compiled@), e)),
{
    let mut reporter = Progress::new(progress);
    bundle_sources_with_sourcemap_reporting(compiled, &mut reporter)
}

/// [`bundle_sources_with_sourcemap`], telling `progress` of each module
/// added once they are ordered, and of nothing when they cannot be.
pub fn bundle_sources_with_sourcemap_reporting<F: FnMut(usize, usize)>(
    compiled: Vec<(String, String)>,
    progress: &mut Progress<F>,
) -> (r: Result<(String, BundleSourceMap), LuatError>)
    requires
        forall|a: usize, b: usize| call_requires(old(progress).callback(), (a, b)),
    ensures
        r matches Ok((b, m)) ==> exists|o: Seq<(Seq<char>, Seq<char>)>| #[trigger] sections_text(o) == b@ && maps_sections(m, o) && (
            crate::dependencies::dep_total(
                crate::dependencies::source_graph(pair_views(compiled@)),
                crate::dependencies::source_names(pair_views(compiled@)).len() as int,
            ) < usize::MAX ==> ordering_of(pair_views(compiled@), o))
            && final(progress).calls() == old(progress).calls() + section_steps(o.len() as usize),
        r matches Err(e) ==> e matches LuatError::InvalidTemplate(msg) && starts_with(msg@, order_failed())
            && final(progress).calls() == old(progress).calls(),
        dep_total(source_graph(pair_views(compiled@)), source_names(pair_views(compiled@)).len() as int)
            < usize::MAX ==> (r matches Err(e) ==> cannot_order(pair_views(compiled@), e)),
        final(progress).callback() == old(progress).callback(),
{
    let ghost cv = pair_views(compiled@);
    match order_sources(compiled) {
        Ok(ordered) => {
            let ghost ov = pair_views(ordered@);
            let (bundle, map) = bundle_ordered_reporting(ordered, progress);
            proof {
                assert(sections_text(ov) == bundle@);
            }
            Ok((bundle, map))
        },
        Err(e) => {
            proof {
                reveal_strlit("Failed to order sources by dependency: ");
            }
            let mut msg = String::new();
            msg.append("Failed to order sources by dependency: ");
            let reason = e.to_message();
            msg.append(reason.as_str());
            proof {
                assert(msg@.take(order_failed().len() as int) =~= order_failed());
                assert(msg@ =~= order_failed() + error_message(e));
            }
            Err(LuatError::InvalidTemplate(msg))
        },
    }
}

} // verus!
