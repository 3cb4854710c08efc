//! File-based routing.
//!
//! Files named by convention define routes: `+page.luat` a page,
//! `+server.lua` an API route, `+layout.luat` and `+layout.server.lua`
//! layouts, `+error.luat` an error page, and `.luat` files in a
//! `(fragments)` folder action templates. Directory names `[param]`,
//! `[[optional]]` and `[...rest]` become URL parameters.

use vstd::prelude::*;
use matchit::Router as UrlMatcher;
use crate::ast::str_eq;
use crate::collections::{pair_views, StrMap};
use crate::paths::{components, file_name, parent, path_components, path_file_name, path_parent};
use crate::sourcemap::{str_less, str_lt};
use crate::text::{
    char_count, chars_of, count_char, ends_with, join, owned, starts_with, str_ends_with, str_starts_with, string_of_range,
    views,
};

verus! {

/// A discovered route.
#[derive(Debug, Clone)]
pub struct Route {
    /// The URL pattern, such as `/blog/{slug}`.
    pub pattern: String,
    /// The directory of the route, relative to the routes root.
    pub fs_path: String,
    /// URL parameters from a match.
    pub params: StrMap,
    /// The `+page.luat` file.
    pub page: Option<String>,
    /// The `+layout.luat` file of this directory.
    pub layout: Option<String>,
    /// The `+page.server.lua` file.
    pub page_server: Option<String>,
    /// The `+server.lua` file (API route).
    pub api: Option<String>,
    /// The `+layout.server.lua` file of this directory.
    pub layout_server: Option<String>,
    /// The layouts from the root down to this route.
    pub layouts: Vec<String>,
    /// The layout server files from the root down to this route.
    pub layout_servers: Vec<String>,
    /// The `+error.luat` file.
    pub error: Option<String>,
    /// Action templates of the directory, by action name.
    pub action_templates: StrMap,
}

/// The view of an optional string.
pub open spec fn opt_str(o: Option<String>) -> Option<Seq<char>> {
    match o {
        Some(s) => Some(s@),
        None => None,
    }
}

impl Route {
    /// A route with `pattern` for directory `fs_path`, with no files.
    pub fn new(pattern: &str, fs_path: &str) -> (r: Self)
        ensures
            r.pattern@ == pattern@,
            r.fs_path@ == fs_path@,
            r.params.wf() && r.params.keys().len() == 0,
            r.page is None && r.layout is None && r.page_server is None && r.api is None,
            r.layout_server is None && r.error is None,
            r.layouts@.len() == 0 && r.layout_servers@.len() == 0,
            r.action_templates.wf() && r.action_templates.keys().len() == 0,
    {
        Route {
            pattern: owned(pattern),
            fs_path: owned(fs_path),
            params: StrMap::new(),
            page: None,
            layout: None,
            page_server: None,
            api: None,
            layout_server: None,
            layouts: Vec::new(),
            layout_servers: Vec::new(),
            error: None,
            action_templates: StrMap::new(),
        }
    }

    /// An API route: a `+server.lua` and no `+page.luat`.
    pub fn is_api_route(&self) -> (b: bool)
        ensures
            b == (self.api is Some && self.page is None),
    {
        self.api.is_some() && self.page.is_none()
    }

    /// A page route: a `+page.luat`.
    pub fn is_page_route(&self) -> (b: bool)
        ensures
            b == self.page is Some,
    {
        self.page.is_some()
    }

    /// The route with `params` as its URL parameters.
    pub fn with_params(self, params: StrMap) -> (r: Self)
        ensures
            r == (Route { params, ..self }),
    {
        Route { params, ..self }
    }
}

/// A segment of a route directory path.
#[derive(Debug, Clone, PartialEq)]
pub enum SegmentType {
    /// A fixed segment, such as `blog`.
    Static(String),
    /// A parameter, `[slug]`.
    Dynamic(String),
    /// An optional parameter, `[[tab]]`.
    Optional(String),
    /// A parameter for the rest of the path, `[...rest]`.
    CatchAll(String),
}

/// The kind of a segment (0 static, 1 dynamic, 2 optional, 3 catch-all)
/// and its name.
pub open spec fn segment_view(t: SegmentType) -> (nat, Seq<char>) {
    match t {
        SegmentType::Static(s) => (0, s@),
        SegmentType::Dynamic(s) => (1, s@),
        SegmentType::Optional(s) => (2, s@),
        SegmentType::CatchAll(s) => (3, s@),
    }
}

/// How a directory name reads as a segment.
pub open spec fn parse_segment(s: Seq<char>) -> (nat, Seq<char>) {
    if starts_with(s, seq!['[', '[']) && ends_with(s, seq![']', ']']) {
        (2, s.subrange(2, s.len() - 2))
    } else if starts_with(s, seq!['[', '.', '.', '.']) && ends_with(s, seq![']']) {
        (3, s.subrange(4, s.len() - 1))
    } else if starts_with(s, seq!['[']) && ends_with(s, seq![']']) {
        (1, s.subrange(1, s.len() - 1))
    } else {
        (0, s)
    }
}

/// The URL pattern text of a segment.
pub open spec fn segment_pattern(v: (nat, Seq<char>)) -> Seq<char> {
    if v.0 == 0 {
        v.1
    } else if v.0 == 3 {
        seq!['{', '*'] + v.1 + seq!['}']
    } else {
        seq!['{'] + v.1 + seq!['}']
    }
}

/// What each kind of segment stands for in a URL pattern: a static name
/// for itself, a parameter `[n]` and an optional parameter `[[n]]` for the
/// placeholder `{n}`, a catch-all `[...n]` for `{*n}`. A parameter's name
/// never stands in the pattern bare.
pub proof fn lemma_segment_patterns(t: SegmentType)
    ensures
        segment_pattern(segment_view(t)) == match t {
            SegmentType::Static(s) => s@,
            SegmentType::Dynamic(n) => seq!['{'] + n@ + seq!['}'],
            SegmentType::Optional(n) => seq!['{'] + n@ + seq!['}'],
            SegmentType::CatchAll(n) => seq!['{', '*'] + n@ + seq!['}'],
        },
{
}

/// A directory named `[[n]]` is the optional parameter `n`, and stands for
/// the placeholder `{n}` in the URL pattern, whatever the name.
pub proof fn lemma_optional_segment(n: Seq<char>)
    ensures
        parse_segment(seq!['[', '['] + n + seq![']', ']']) == (2nat, n),
        segment_pattern(parse_segment(seq!['[', '['] + n + seq![']', ']'])) == seq!['{'] + n + seq!['}'],
{
    let s = seq!['[', '['] + n + seq![']', ']'];
    assert(s.take(2) =~= seq!['[', '[']);
    assert(s.skip(s.len() - 2) =~= seq![']', ']']);
    assert(s.subrange(2, s.len() - 2) =~= n);
}

/// A directory named `[n]` is the parameter `n`, one named `[...n]` the
/// catch-all `n`, for names that do not themselves start with `[` or `.`;
/// a name that does not start with `[` is static.
pub proof fn lemma_segment_kinds(n: Seq<char>)
    ensures
        n.len() > 0 && n[0] != '[' && n[0] != '.' ==> parse_segment(seq!['['] + n + seq![']']) == (1nat, n),
        n.len() > 0 && n[0] != '[' ==> parse_segment(seq!['[', '.', '.', '.'] + n + seq![']']) == (3nat, n),
        (n.len() == 0 || n[0] != '[') ==> parse_segment(n) == (0nat, n),
{
    let a = seq!['['] + n + seq![']'];
    if n.len() > 0 && n[0] != '[' && n[0] != '.' {
        assert(a.take(1) =~= seq!['[']);
        assert(a.skip(a.len() - 1) =~= seq![']']);
        assert(a.subrange(1, a.len() - 1) =~= n);
        assert(a[1] == n[0]);
        if 2 <= a.len() {
            assert(a.take(2)[1] == a[1]);
        }
        if 4 <= a.len() {
            assert(a.take(4)[1] == a[1]);
        }
    }
    let b = seq!['[', '.', '.', '.'] + n + seq![']'];
    if n.len() > 0 && n[0] != '[' {
        assert(b.take(4) =~= seq!['[', '.', '.', '.']);
        assert(b.skip(b.len() - 1) =~= seq![']']);
        assert(b.subrange(4, b.len() - 1) =~= n);
        assert(b.take(2)[1] == '.');
    }
    if n.len() == 0 || n[0] != '[' {
        if n.len() >= 1 {
            assert(n.take(1)[0] == n[0]);
        }
        if n.len() >= 2 {
            assert(n.take(2)[0] == n[0]);
        }
        if n.len() >= 4 {
            assert(n.take(4)[0] == n[0]);
        }
    }
}

/// The URL pattern of a route directory: `/` and its segments' patterns
/// joined by `/`.
pub open spec fn path_pattern(path: Seq<char>) -> Seq<char> {
    let cs = components(path);
    if path.len() == 0 || cs.len() == 0 {
        seq!['/']
    } else {
        seq!['/'] + join(cs.map_values(|c: Seq<char>| segment_pattern(parse_segment(c))), seq!['/'])
    }
}

impl SegmentType {
    /// Reads a directory name as a segment.
    pub fn parse(segment: &str) -> (r: Self)
        ensures
            segment_view(r) == parse_segment(segment@),
    {
        let v = chars_of(segment);
        let n = v.len();
        if str_starts_with(segment, "[[") && str_ends_with(segment, "]]") {
            proof {
                reveal_strlit("[[");
                reveal_strlit("]]");
                assert("[["@ =~= seq!['[', '[']);
                assert("]]"@ =~= seq![']', ']']);
                if n < 4 {
                    assert(segment@.take(2)[1] == '[');
                    assert(segment@.skip(n - 2)[0] == ']');
                }
            }
            SegmentType::Optional(string_of_range(&v, 2, n - 2))
        } else if str_starts_with(segment, "[...") && str_ends_with(segment, "]") {
            proof {
                reveal_strlit("[[");
                reveal_strlit("]]");
                reveal_strlit("[...");
                reveal_strlit("]");
                assert("[["@ =~= seq!['[', '[']);
                assert("]]"@ =~= seq![']', ']']);
                assert("[..."@ =~= seq!['[', '.', '.', '.']);
                assert("]"@ =~= seq![']']);
                if n < 5 {
                    assert(segment@.take(4)[3] == '.');
                    assert(segment@.skip(n - 1)[0] == ']');
                    assert(segment@[3] == '.');
                }
            }
            SegmentType::CatchAll(string_of_range(&v, 4, n - 1))
        } else if str_starts_with(segment, "[") && str_ends_with(segment, "]") {
            proof {
                reveal_strlit("[[");
                reveal_strlit("]]");
                reveal_strlit("[...");
                reveal_strlit("[");
                reveal_strlit("]");
                assert("[["@ =~= seq!['[', '[']);
                assert("]]"@ =~= seq![']', ']']);
                assert("[..."@ =~= seq!['[', '.', '.', '.']);
                assert("["@ =~= seq!['[']);
                assert("]"@ =~= seq![']']);
                if n < 2 {
                    assert(segment@.take(1)[0] == '[');
                    assert(segment@.skip(n - 1)[0] == ']');
                }
            }
            SegmentType::Dynamic(string_of_range(&v, 1, n - 1))
        } else {
            proof {
                reveal_strlit("[[");
                reveal_strlit("]]");
                reveal_strlit("[...");
                reveal_strlit("[");
                reveal_strlit("]");
                assert("[["@ =~= seq!['[', '[']);
                assert("]]"@ =~= seq![']', ']']);
                assert("[..."@ =~= seq!['[', '.', '.', '.']);
                assert("["@ =~= seq!['[']);
                assert("]"@ =~= seq![']']);
                assert(v@.subrange(0, n as int) =~= segment@);
            }
            SegmentType::Static(owned(segment))
        }
    }

    /// The URL pattern text of the segment: the name, `{name}`, or
    /// `{*name}` for a catch-all.
    pub fn to_pattern(&self) -> (r: String)
        ensures
            r@ == segment_pattern(segment_view(*self)),
    {
        let mut out = String::new();
        match self {
            SegmentType::Static(s) => {
                out.append(s.as_str());
            },
            SegmentType::Dynamic(name) => {
                crate::text::push_char(&mut out, '{');
                out.append(name.as_str());
                crate::text::push_char(&mut out, '}');
            },
            SegmentType::Optional(name) => {
                crate::text::push_char(&mut out, '{');
                out.append(name.as_str());
                crate::text::push_char(&mut out, '}');
            },
            SegmentType::CatchAll(name) => {
                crate::text::push_char(&mut out, '{');
                crate::text::push_char(&mut out, '*');
                out.append(name.as_str());
                crate::text::push_char(&mut out, '}');
            },
        }
        proof {
            assert(out@ =~= segment_pattern(segment_view(*self)));
        }
        out
    }

    /// Whether this is an optional parameter.
    pub fn is_optional(&self) -> (b: bool)
        ensures
            b == (segment_view(*self).0 == 2),
    {
        match self {
            SegmentType::Optional(_) => true,
            _ => false,
        }
    }
}

/// The URL pattern of a route directory (`blog/[slug]` gives
/// `/blog/{slug}`).
pub fn path_to_pattern(path: &str) -> (r: String)
    ensures
        r@ == path_pattern(path@),
{
    let cs = path_components(path);
    if chars_of(path).len() == 0 || cs.len() == 0 {
        let mut out = String::new();
        crate::text::push_char(&mut out, '/');
        proof {
            assert(out@ =~= seq!['/']);
        }
        return out;
    }
    let ghost pats = components(path@).map_values(|c: Seq<char>| segment_pattern(parse_segment(c)));
    let mut out = String::new();
    crate::text::push_char(&mut out, '/');
    let mut i: usize = 0;
    while i < cs.len()
        invariant
            0 < cs@.len(),
            i <= cs@.len() == components(path@).len(),
            forall|k: int| 0 <= k < cs@.len() ==> (#[trigger] cs@[k])@ == components(path@)[k],
            pats == components(path@).map_values(|c: Seq<char>| segment_pattern(parse_segment(c))),
            out@ == seq!['/'] + join(pats.take(i as int), seq!['/']),
        decreases cs@.len() - i,
    {
        if i > 0 {
            crate::text::push_char(&mut out, '/');
        }
        let seg = SegmentType::parse(cs[i].as_str());
        out.append(seg.to_pattern().as_str());
        proof {
            let ps = pats.take(i + 1);
            assert(ps.drop_last() =~= pats.take(i as int));
            assert(ps.last() == pats[i as int]);
            if i == 0 {
                assert(join(pats.take(0), seq!['/']) =~= Seq::<char>::empty());
                assert(join(ps, seq!['/']) == ps[0]);
            }
            assert(out@ =~= seq!['/'] + join(ps, seq!['/']));
        }
        i = i + 1;
    }
    proof {
        assert(pats.take(i as int) =~= pats);
    }
    out
}

// ---------------------------------------------------------------------------
// URL matching
// ---------------------------------------------------------------------------

/// `matchit::Router`, a URL matcher.
#[verifier::external_type_specification]
#[verifier::external_body]
#[verifier::reject_recursive_types(T)]
pub struct ExUrlMatcher<T>(UrlMatcher<T>);

/// A route pattern is registered for matching only with fewer `{` than
/// this: the matcher cannot hold 26 parameters in one route.
pub const MAX_ROUTE_BRACES: usize = 26;

/// The (pattern, index) pairs registered for the first `k` of the routes
/// with patterns `pats`: those with fewer than [`MAX_ROUTE_BRACES`] `{`.
pub open spec fn registered(pats: Seq<Seq<char>>, k: int) -> Seq<(Seq<char>, usize)>
    decreases k,
{
    if k <= 0 {
        Seq::empty()
    } else if char_count(pats[k - 1], '{') < MAX_ROUTE_BRACES {
        registered(pats, k - 1).push((pats[k - 1], (k - 1) as usize))
    } else {
        registered(pats, k - 1)
    }
}

/// The (route, value) pairs handed to `insert` on a matcher, in order,
/// whether it accepted them or not.
pub uninterp spec fn matcher_inserts(m: UrlMatcher<usize>) -> Seq<(Seq<char>, usize)>;

/// Whether `matchit::Router::insert` accepts `route` after the inserts
/// `ins`.
pub uninterp spec fn matcher_accepts(ins: Seq<(Seq<char>, usize)>, route: Seq<char>) -> bool;

/// What `matchit::Router::at` finds for `path` after the inserts `ins`: the
/// value and the parameters in order.
pub uninterp spec fn matcher_finds(ins: Seq<(Seq<char>, usize)>, path: Seq<char>) -> Option<(usize, Seq<(Seq<char>, Seq<char>)>)>;

/// `matchit::Router::new`: a matcher with no routes.
#[verifier::external_body]
fn matcher_new() -> (m: UrlMatcher<usize>)
    ensures
        matcher_inserts(m) == Seq::<(Seq<char>, usize)>::empty(),
{
    UrlMatcher::new()
}

/// `matchit::Router::insert`: records the call, and reports whether the
/// route was accepted (`matcher_accepts`). It panics on a route with 26 or
/// more parameters; a route with fewer than 26 `{` has fewer parameters.
#[verifier::external_body]
fn matcher_insert(m: &mut UrlMatcher<usize>, route: &str, value: usize) -> (ok: bool)
    requires
        char_count(route@, '{') < MAX_ROUTE_BRACES,
    ensures
        ok == matcher_accepts(matcher_inserts(*old(m)), route@),
        matcher_inserts(*final(m)) == matcher_inserts(*old(m)).push((route@, value)),
{
    m.insert(route, value).is_ok()
}

/// `matchit::Router::at`: the value and the parameters of the route that
/// `path` matches (`matcher_finds`).
#[verifier::external_body]
fn matcher_at(m: &UrlMatcher<usize>, path: &str) -> (r: Option<(usize, Vec<(String, String)>)>)
    ensures
        match matcher_finds(matcher_inserts(*m), path@) {
            None => r is None,
            Some((v, ps)) => r matches Some((w, qs)) && w == v && pair_views(qs@) == ps,
        },
{
    match m.at(path) {
        Ok(matched) => Some((
            *matched.value,
            matched.params.iter().map(|(k, v)| (k.to_string(), v.to_string())).collect(),
        )),
        Err(_) => None,
    }
}

/// `a` and `b` agree on everything but their URL parameters.
pub open spec fn same_route_files(a: Route, b: Route) -> bool {
    &&& a.pattern@ == b.pattern@
    &&& a.fs_path@ == b.fs_path@
    &&& opt_str(a.page) == opt_str(b.page)
    &&& opt_str(a.layout) == opt_str(b.layout)
    &&& opt_str(a.page_server) == opt_str(b.page_server)
    &&& opt_str(a.api) == opt_str(b.api)
    &&& opt_str(a.layout_server) == opt_str(b.layout_server)
    &&& opt_str(a.error) == opt_str(b.error)
    &&& views(a.layouts@) == views(b.layouts@)
    &&& views(a.layout_servers@) == views(b.layout_servers@)
    &&& a.action_templates.keys() == b.action_templates.keys()
    &&& a.action_templates.vals() == b.action_templates.vals()
}

/// A copy of an optional string.
fn copy_opt(o: &Option<String>) -> (r: Option<String>)
    ensures
        opt_str(r) == opt_str(*o),
{
    match o {
        Some(s) => Some(owned(s.as_str())),
        None => None,
    }
}

/// A copy of a vector of strings.
fn copy_strings(v: &Vec<String>) -> (r: Vec<String>)
    ensures
        views(r@) == views(v@),
{
    let mut r: Vec<String> = Vec::new();
    let mut i: usize = 0;
    while i < v.len()
        invariant
            i <= v@.len(),
            views(r@) == views(v@).take(i as int),
        decreases v@.len() - i,
    {
        let ghost before = r@;
        r.push(owned(v[i].as_str()));
        proof {
            assert(views(r@) =~= views(before).push(v@[i as int]@));
            assert(views(r@) =~= views(v@).take(i + 1));
        }
        i = i + 1;
    }
    proof {
        assert(views(v@).take(i as int) =~= views(v@));
    }
    r
}

impl Route {
    /// A copy of the route.
    fn duplicate(&self) -> (r: Route)
        ensures
            same_route_files(r, *self),
            r.params.keys() == self.params.keys(),
            r.params.vals() == self.params.vals(),
    {
        Route {
            pattern: owned(self.pattern.as_str()),
            fs_path: owned(self.fs_path.as_str()),
            params: self.params.duplicate(),
            page: copy_opt(&self.page),
            layout: copy_opt(&self.layout),
            page_server: copy_opt(&self.page_server),
            api: copy_opt(&self.api),
            layout_server: copy_opt(&self.layout_server),
            layouts: copy_strings(&self.layouts),
            layout_servers: copy_strings(&self.layout_servers),
            error: copy_opt(&self.error),
            action_templates: self.action_templates.duplicate(),
        }
    }
}

/// The path that is matched for a URL path: `/` for the empty path and
/// `/`, else the path without trailing slashes.
pub open spec fn url_key(path: Seq<char>) -> Seq<char> {
    if path.len() == 0 || path == seq!['/'] {
        seq!['/']
    } else {
        path.take(trim_slashes_end(path, path.len() as int))
    }
}

/// End of `s[..j]` without its trailing slashes.
pub open spec fn trim_slashes_end(s: Seq<char>, j: int) -> int
    decreases j,
{
    if j <= 0 {
        0
    } else if s[j - 1] == '/' {
        trim_slashes_end(s, j - 1)
    } else {
        j
    }
}

/// The routes and the matcher built over their patterns.
pub struct Router {
    matcher: UrlMatcher<usize>,
    routes: Vec<Route>,
}

impl Router {
    /// The routes, in the order they were given to the matcher.
    pub closed spec fn route_list(&self) -> Seq<Route> {
        self.routes@
    }

    /// The insert calls made on the matcher.
    pub closed spec fn matcher_calls(&self) -> Seq<(Seq<char>, usize)> {
        matcher_inserts(self.matcher)
    }

    /// A router with no routes.
    pub fn new() -> (r: Self)
        ensures
            r.route_list().len() == 0,
            r.matcher_calls().len() == 0,
    {
        Router { matcher: matcher_new(), routes: Vec::new() }
    }

    /// The route that URL path `path` matches, with the parameters of the
    /// match.
    pub fn match_url(&self, path: &str) -> (r: Option<Route>)
        ensures
            match matcher_finds(self.matcher_calls(), url_key(path@)) {
                None => r is None,
                Some((i, ps)) => if i < self.route_list().len() {
                    r matches Some(route) && same_route_files(route, self.route_list()[i as int])
                        && route.params.wf() && forall|k: Seq<char>| #[trigger] route.params.lookup(k)
                        == crate::collections::last_value(ps, k)
                } else {
                    r is None
                },
            },
    {
        let v = chars_of(path);
        let key: String = if v.len() == 0 || (v.len() == 1 && v[0] == '/') {
            let mut k = String::new();
            crate::text::push_char(&mut k, '/');
            proof {
                if v@.len() == 1 {
                    assert(path@ =~= seq!['/']);
                }
                assert(k@ =~= seq!['/']);
            }
            k
        } else {
            let mut j = v.len();
            while j > 0 && v[j - 1] == '/'
                invariant
                    j <= v@.len(),
                    trim_slashes_end(v@, v@.len() as int) == trim_slashes_end(v@, j as int),
                decreases j,
            {
                j = j - 1;
            }
            proof {
                if v@.len() == 1 {
                    assert(path@ != seq!['/']);
                }
            }
            string_of_range(&v, 0, j)
        };
        match matcher_at(&self.matcher, key.as_str()) {
            None => None,
            Some((i, params)) => {
                if i < self.routes.len() {
                    let route = self.routes[i].duplicate();
                    Some(route.with_params(StrMap::from_pairs(params)))
                } else {
                    None
                }
            },
        }
    }

    /// The routes, in matching priority order.
    pub fn routes(&self) -> (r: &[Route])
        ensures
            r@ == self.route_list(),
    {
        self.routes.as_slice()
    }
}

impl Default for Router {
    fn default() -> (r: Self)
        ensures
            r.route_list().len() == 0,
            r.matcher_calls().len() == 0,
    {
        Router::new()
    }
}

// ---------------------------------------------------------------------------
// Route discovery
// ---------------------------------------------------------------------------

/// The directory of a file path (`""` when it has none).
pub open spec fn dir_of(p: Seq<char>) -> Seq<char> {
    match parent(p) {
        Some(d) => d,
        None => Seq::empty(),
    }
}

/// The file name of a file path (`""` when it has none).
pub open spec fn name_of(p: Seq<char>) -> Seq<char> {
    match file_name(p) {
        Some(f) => f,
        None => Seq::empty(),
    }
}

/// The last path of `ps` in directory `d` with file name `f`.
pub open spec fn last_file(ps: Seq<Seq<char>>, d: Seq<char>, f: Seq<char>) -> Option<Seq<char>>
    decreases ps.len(),
{
    if ps.len() == 0 {
        None
    } else if dir_of(ps.last()) == d && name_of(ps.last()) == f {
        Some(ps.last())
    } else {
        last_file(ps.drop_last(), d, f)
    }
}

/// The directories of the paths, each once, in order of first appearance.
pub open spec fn route_dirs(ps: Seq<Seq<char>>) -> Seq<Seq<char>>
    decreases ps.len(),
{
    if ps.len() == 0 {
        Seq::empty()
    } else {
        let ds = route_dirs(ps.drop_last());
        if ds.contains(dir_of(ps.last())) {
            ds
        } else {
            ds.push(dir_of(ps.last()))
        }
    }
}

/// `.luat`.
pub open spec fn luat_ext() -> Seq<char> {
    seq!['.', 'l', 'u', 'a', 't']
}

/// `(fragments)`, the folder of action templates.
pub open spec fn fragments_dir() -> Seq<char> {
    seq!['(', 'f', 'r', 'a', 'g', 'm', 'e', 'n', 't', 's', ')']
}

/// `s` without any number of trailing `.luat`.
pub open spec fn trim_luat(s: Seq<char>) -> Seq<char>
    decreases s.len(),
{
    if ends_with(s, luat_ext()) {
        trim_luat(s.take(s.len() - 5))
    } else {
        s
    }
}

/// For a `.luat` file in a `(fragments)` folder: the route directory above
/// the folder and the action name (the file name without `.luat`).
pub open spec fn action_of(p: Seq<char>) -> Option<(Seq<char>, Seq<char>)> {
    if ends_with(name_of(p), luat_ext()) {
        match parent(p) {
            Some(par) => if file_name(par) == Some(fragments_dir()) {
                match parent(par) {
                    Some(gp) => Some((gp, trim_luat(name_of(p)))),
                    None => None,
                }
            } else {
                None
            },
            None => None,
        }
    } else {
        None
    }
}

/// The last action template of `ps` for directory `d` and action `n`.
pub open spec fn last_action(ps: Seq<Seq<char>>, d: Seq<char>, n: Seq<char>) -> Option<Seq<char>>
    decreases ps.len(),
{
    if ps.len() == 0 {
        None
    } else if action_of(ps.last()) == Some((d, n)) {
        Some(ps.last())
    } else {
        last_action(ps.drop_last(), d, n)
    }
}

/// The directory path made of the first `k` components `cs`.
pub open spec fn prefix_path(cs: Seq<Seq<char>>, k: int) -> Seq<char>
    decreases k,
{
    if k <= 0 {
        Seq::empty()
    } else {
        let c = prefix_path(cs, k - 1);
        (if c.len() > 0 { c + seq!['/'] } else { c }) + cs[k - 1]
    }
}

/// The files named `f` of `ps` in the root directory and in the
/// directories of the first `k` components `cs`, each once, from the root
/// down.
pub open spec fn layout_walk(ps: Seq<Seq<char>>, f: Seq<char>, cs: Seq<Seq<char>>, k: int) -> Seq<Seq<char>>
    decreases k,
{
    if k <= 0 {
        match last_file(ps, Seq::empty(), f) {
            Some(l) => seq![l],
            None => Seq::empty(),
        }
    } else {
        let prev = layout_walk(ps, f, cs, k - 1);
        match last_file(ps, prefix_path(cs, k), f) {
            Some(l) => if prev.contains(l) { prev } else { prev.push(l) },
            None => prev,
        }
    }
}

/// The files named `f` that apply to directory `d`, from the root down.
pub open spec fn layout_chain(ps: Seq<Seq<char>>, d: Seq<char>, f: Seq<char>) -> Seq<Seq<char>> {
    layout_walk(ps, f, components(d), components(d).len() as int)
}

/// What the first pass knows of the route for directory `d`.
pub open spec fn partial_route(r: Route, ps: Seq<Seq<char>>, d: Seq<char>) -> bool {
    &&& r.pattern@ == path_pattern(d)
    &&& r.fs_path@ == d
    &&& opt_str(r.page) == last_file(ps, d, "+page.luat"@)
    &&& opt_str(r.page_server) == last_file(ps, d, "+page.server.lua"@)
    &&& opt_str(r.api) == last_file(ps, d, "+server.lua"@)
    &&& opt_str(r.layout) == last_file(ps, d, "+layout.luat"@)
    &&& opt_str(r.layout_server) == last_file(ps, d, "+layout.server.lua"@)
    &&& opt_str(r.error) == last_file(ps, d, "+error.luat"@)
    &&& r.params.wf() && r.params.keys().len() == 0
}

/// Route `r` is the route discovered from `ps` for directory `d`.
pub open spec fn route_fits(r: Route, ps: Seq<Seq<char>>, d: Seq<char>) -> bool {
    &&& partial_route(r, ps, d)
    &&& views(r.layouts@) == layout_chain(ps, d, "+layout.luat"@)
    &&& views(r.layout_servers@) == layout_chain(ps, d, "+layout.server.lua"@)
    &&& r.action_templates.wf()
    &&& forall|n: Seq<char>| #[trigger] r.action_templates.lookup(n) == last_action(ps, d, n)
}

/// Directory `d` holds a page or an API route.
pub open spec fn has_route(ps: Seq<Seq<char>>, d: Seq<char>) -> bool {
    last_file(ps, d, "+page.luat"@) is Some || last_file(ps, d, "+server.lua"@) is Some
}

/// The directories of `ds` that hold a route, in order.
pub open spec fn routed(ps: Seq<Seq<char>>, ds: Seq<Seq<char>>) -> Seq<Seq<char>>
    decreases ds.len(),
{
    if ds.len() == 0 {
        Seq::empty()
    } else {
        let r = routed(ps, ds.drop_last());
        if has_route(ps, ds.last()) { r.push(ds.last()) } else { r }
    }
}

/// A pattern with a parameter.
pub open spec fn is_dynamic(pattern: Seq<char>) -> bool {
    pattern.contains('{')
}

/// Route directory `a` may come before `b`: static patterns first, then by
/// pattern.
pub open spec fn key_le(a: Seq<char>, b: Seq<char>) -> bool {
    let pa = path_pattern(a);
    let pb = path_pattern(b);
    (!is_dynamic(pa) && is_dynamic(pb)) || (is_dynamic(pa) == is_dynamic(pb) && !str_lt(pb, pa))
}

/// `x` put into the sorted `s` after every element that may come before it.
pub open spec fn insert_stable(s: Seq<Seq<char>>, x: Seq<char>) -> Seq<Seq<char>>
    decreases s.len(),
{
    if s.len() == 0 {
        seq![x]
    } else if key_le(s.last(), x) {
        s.push(x)
    } else {
        insert_stable(s.drop_last(), x).push(s.last())
    }
}

/// `s` sorted by `key_le`, keeping the order of equal keys.
pub open spec fn sort_dirs(s: Seq<Seq<char>>) -> Seq<Seq<char>>
    decreases s.len(),
{
    if s.len() == 0 {
        Seq::empty()
    } else {
        insert_stable(sort_dirs(s.drop_last()), s.last())
    }
}

/// The route directories discovered from `ps`, in matching priority order.
pub open spec fn discovered(ps: Seq<Seq<char>>) -> Seq<Seq<char>> {
    sort_dirs(routed(ps, route_dirs(ps)))
}

/// The views of string slices.
pub open spec fn str_views(v: Seq<&str>) -> Seq<Seq<char>> {
    v.map_values(|p: &str| p@)
}

/// The directories of `route_dirs` are distinct, and they are the
/// directories of the paths.
pub proof fn lemma_route_dirs(ps: Seq<Seq<char>>)
    ensures
        forall|i: int, j: int| 0 <= i < j < route_dirs(ps).len() ==> route_dirs(ps)[i] != route_dirs(ps)[j],
        forall|d: Seq<char>| route_dirs(ps).contains(d) <==> exists|k: int| 0 <= k < ps.len() && #[trigger] dir_of(ps[k]) == d,
    decreases ps.len(),
{
    if ps.len() > 0 {
        let q = ps.drop_last();
        lemma_route_dirs(q);
        let ds = route_dirs(q);
        assert forall|d: Seq<char>| route_dirs(ps).contains(d) <==> exists|k: int| 0 <= k < ps.len() && #[trigger] dir_of(ps[k]) == d by {
            if route_dirs(ps).contains(d) {
                if ds.contains(d) {
                    let k = choose|k: int| 0 <= k < q.len() && #[trigger] dir_of(q[k]) == d;
                    assert(ps[k] == q[k]);
                } else {
                    assert(dir_of(ps[ps.len() - 1]) == d);
                }
            }
            if exists|k: int| 0 <= k < ps.len() && #[trigger] dir_of(ps[k]) == d {
                let k = choose|k: int| 0 <= k < ps.len() && #[trigger] dir_of(ps[k]) == d;
                if k < ps.len() - 1 {
                    assert(q[k] == ps[k]);
                    assert(ds.contains(d));
                    if !ds.contains(dir_of(ps.last())) {
                        let i = choose|i: int| 0 <= i < ds.len() && ds[i] == d;
                        assert(route_dirs(ps)[i] == d);
                    }
                } else {
                    if ds.contains(dir_of(ps.last())) {
                    } else {
                        assert(route_dirs(ps)[ds.len() as int] == d);
                    }
                }
            }
        }
    }
}

/// The file names that define a route are distinct.
proof fn lemma_route_file_names()
    ensures
        "+page.luat"@ != "+page.server.lua"@,
        "+page.luat"@ != "+server.lua"@,
        "+page.luat"@ != "+layout.luat"@,
        "+page.luat"@ != "+layout.server.lua"@,
        "+page.luat"@ != "+error.luat"@,
        "+page.server.lua"@ != "+server.lua"@,
        "+page.server.lua"@ != "+layout.luat"@,
        "+page.server.lua"@ != "+layout.server.lua"@,
        "+page.server.lua"@ != "+error.luat"@,
        "+server.lua"@ != "+layout.luat"@,
        "+server.lua"@ != "+layout.server.lua"@,
        "+server.lua"@ != "+error.luat"@,
        "+layout.luat"@ != "+layout.server.lua"@,
        "+layout.luat"@ != "+error.luat"@,
        "+layout.server.lua"@ != "+error.luat"@,
{
    reveal_strlit("+page.luat");
    reveal_strlit("+page.server.lua");
    reveal_strlit("+server.lua");
    reveal_strlit("+layout.luat");
    reveal_strlit("+layout.server.lua");
    reveal_strlit("+error.luat");
    assert("+page.luat"@.len() != "+page.server.lua"@.len());
    assert("+page.luat"@.len() != "+server.lua"@.len());
    assert("+page.luat"@.len() != "+layout.luat"@.len());
    assert("+page.luat"@.len() != "+layout.server.lua"@.len());
    assert("+page.luat"@.len() != "+error.luat"@.len());
    assert("+page.server.lua"@.len() != "+server.lua"@.len());
    assert("+page.server.lua"@.len() != "+layout.luat"@.len());
    assert("+page.server.lua"@.len() != "+layout.server.lua"@.len());
    assert("+page.server.lua"@.len() != "+error.luat"@.len());
    assert("+server.lua"@.len() != "+layout.luat"@.len());
    assert("+server.lua"@.len() != "+layout.server.lua"@.len());
    assert("+server.lua"@[1] != "+error.luat"@[1]);
    assert("+layout.luat"@.len() != "+layout.server.lua"@.len());
    assert("+layout.luat"@.len() != "+error.luat"@.len());
    assert("+layout.server.lua"@.len() != "+error.luat"@.len());
}

/// A file found for a directory is a path of that directory.
pub proof fn lemma_last_file_in(ps: Seq<Seq<char>>, d: Seq<char>, f: Seq<char>)
    ensures
        last_file(ps, d, f) is Some ==> exists|k: int| 0 <= k < ps.len() && #[trigger] dir_of(ps[k]) == d,
    decreases ps.len(),
{
    if ps.len() > 0 {
        lemma_last_file_in(ps.drop_last(), d, f);
        if last_file(ps.drop_last(), d, f) is Some && !(dir_of(ps.last()) == d && name_of(ps.last()) == f) {
            let k = choose|k: int| 0 <= k < ps.len() - 1 && #[trigger] dir_of(ps.drop_last()[k]) == d;
            assert(ps[k] == ps.drop_last()[k]);
        }
        if dir_of(ps.last()) == d {
            assert(dir_of(ps[ps.len() - 1]) == d);
        }
    }
}

/// The routes, layout files and action templates seen so far.
struct Scan {
    routes: Vec<Route>,
    layouts: StrMap,
    layout_servers: StrMap,
    actions: Vec<(String, StrMap)>,
}

/// The action template maps hold the templates of `ps`, one map per
/// route directory.
spec fn actions_ok(actions: Seq<(String, StrMap)>, ps: Seq<Seq<char>>) -> bool {
    &&& forall|j: int| 0 <= j < actions.len() ==> (#[trigger] actions[j]).1.wf()
    &&& forall|j: int, n: Seq<char>| 0 <= j < actions.len() ==> #[trigger] actions[j].1.lookup(n) == last_action(ps, actions[j].0@, n)
    &&& forall|j: int, k: int| 0 <= j < k < actions.len() ==> actions[j].0@ != actions[k].0@
    &&& forall|d: Seq<char>, n: Seq<char>| #[trigger] last_action(ps, d, n) is Some ==> exists|j: int| 0 <= j < actions.len() && (#[trigger] actions[j]).0@ == d
}

/// The first-pass routes are those of the directories of `ps`, with no
/// action templates yet.
spec fn routes_ok(routes: Seq<Route>, ps: Seq<Seq<char>>) -> bool {
    &&& routes.len() == route_dirs(ps).len()
    &&& forall|j: int| 0 <= j < routes.len() ==> partial_route(#[trigger] routes[j], ps, route_dirs(ps)[j])
    &&& forall|j: int| 0 <= j < routes.len() ==> (#[trigger] routes[j]).action_templates.wf()
        && routes[j].action_templates.keys().len() == 0
}

impl Scan {
    spec fn ok(&self, ps: Seq<Seq<char>>) -> bool {
        &&& routes_ok(self.routes@, ps)
        &&& self.layouts.wf()
        &&& forall|d: Seq<char>| #[trigger] self.layouts.lookup(d) == last_file(ps, d, "+layout.luat"@)
        &&& self.layout_servers.wf()
        &&& forall|d: Seq<char>| #[trigger] self.layout_servers.lookup(d) == last_file(ps, d, "+layout.server.lua"@)
        &&& actions_ok(self.actions@, ps)
    }
}

/// Records action template `p` named `name` for route directory `dir`.
fn put_action(actions: &mut Vec<(String, StrMap)>, dir: &str, name: &str, p: &str, Ghost(ps): Ghost<Seq<Seq<char>>>)
    requires
        actions_ok(old(actions)@, ps),
        action_of(p@) == Some((dir@, name@)),
    ensures
        actions_ok(final(actions)@, ps.push(p@)),
{
    let ghost ps2 = ps.push(p@);
    proof {
        assert(ps2.drop_last() =~= ps);
    }
    let ghost before = actions@;
    let mut j: usize = 0;
    while j < actions.len()
        invariant
            j <= actions@.len(),
            actions@ == before,
            forall|k: int| 0 <= k < j ==> (#[trigger] before[k]).0@ != dir@,
        ensures
            j <= before.len(),
            actions@ == before,
            j < before.len() ==> before[j as int].0@ == dir@,
            forall|k: int| 0 <= k < j ==> (#[trigger] before[k]).0@ != dir@,
        decreases actions@.len() - j,
    {
        if str_eq(actions[j].0.as_str(), dir) {
            break;
        }
        j = j + 1;
    }
    if j < actions.len() {
        let (d, mut m) = actions.remove(j);
        m.insert(name, p);
        actions.insert(j, (d, m));
        proof {
            let a = actions@;
            assert forall|k: int, n: Seq<char>| 0 <= k < a.len() implies #[trigger] a[k].1.lookup(n) == last_action(ps2, a[k].0@, n) by {
                if k != j {
                    assert(a[k] == before[k]);
                    if k < j {
                        assert(before[k].0@ != before[j as int].0@);
                    } else {
                        assert(before[j as int].0@ != before[k].0@);
                    }
                }
            }
            assert forall|d2: Seq<char>, n: Seq<char>| #[trigger] last_action(ps2, d2, n) is Some implies exists|i: int| 0 <= i < a.len() && (#[trigger] a[i]).0@ == d2 by {
                if d2 != dir@ || !(last_action(ps, d2, n) is None) {
                    if last_action(ps, d2, n) is Some {
                        let i = choose|i: int| 0 <= i < before.len() && (#[trigger] before[i]).0@ == d2;
                        assert(a[i].0@ == d2);
                    }
                } else {
                    assert(a[j as int].0@ == d2);
                }
            }
            assert forall|k: int| 0 <= k < a.len() implies (#[trigger] a[k]).1.wf() by {
                if k != j {
                    assert(a[k] == before[k]);
                }
            }
            assert forall|k: int, l: int| 0 <= k < l < a.len() implies a[k].0@ != a[l].0@ by {
                assert(a[k].0@ == before[k].0@);
                assert(a[l].0@ == before[l].0@);
            }
        }
    } else {
        let mut m = StrMap::new();
        m.insert(name, p);
        actions.push((owned(dir), m));
        proof {
            let a = actions@;
            assert forall|k: int, n: Seq<char>| 0 <= k < a.len() implies #[trigger] a[k].1.lookup(n) == last_action(ps2, a[k].0@, n) by {
                if k < before.len() {
                    assert(a[k] == before[k]);
                    assert(before[k].0@ != dir@);
                } else {
                    if n != name@ {
                        if last_action(ps, dir@, n) is Some {
                            let i = choose|i: int| 0 <= i < before.len() && (#[trigger] before[i]).0@ == dir@;
                        }
                    }
                    if last_action(ps, dir@, n) is Some {
                        let i = choose|i: int| 0 <= i < before.len() && (#[trigger] before[i]).0@ == dir@;
                    }
                }
            }
            assert forall|d2: Seq<char>, n: Seq<char>| #[trigger] last_action(ps2, d2, n) is Some implies exists|i: int| 0 <= i < a.len() && (#[trigger] a[i]).0@ == d2 by {
                if last_action(ps, d2, n) is Some {
                    let i = choose|i: int| 0 <= i < before.len() && (#[trigger] before[i]).0@ == d2;
                    assert(a[i].0@ == d2);
                } else {
                    assert(a[before.len() as int].0@ == d2);
                }
            }
            assert forall|k: int| 0 <= k < a.len() implies (#[trigger] a[k]).1.wf() by {
                if k < before.len() {
                    assert(a[k] == before[k]);
                }
            }
            assert forall|k: int, l: int| 0 <= k < l < a.len() implies a[k].0@ != a[l].0@ by {
                if l < before.len() {
                    assert(a[k].0@ == before[k].0@);
                    assert(a[l].0@ == before[l].0@);
                } else {
                    assert(a[k].0@ == before[k].0@);
                }
            }
        }
    }
}

/// The name of an action template: `s` without its trailing `.luat`s.
fn trim_luat_str(s: &str) -> (r: String)
    ensures
        r@ == trim_luat(s@),
{
    let v = chars_of(s);
    let mut n = v.len();
    let suffix = chars_of(".luat");
    proof {
        reveal_strlit(".luat");
        assert(suffix@ =~= luat_ext());
        assert(v@.take(n as int) =~= s@);
    }
    while n >= 5 && crate::text::starts_with_at(&v, n - 5, &suffix)
        invariant
            n <= v@.len(),
            suffix@ == luat_ext(),
            trim_luat(s@) == trim_luat(v@.take(n as int)),
        decreases n,
    {
        proof {
            let t = v@.take(n as int);
            assert(t.skip(n - 5) =~= v@.subrange(n - 5, n as int));
            assert(t.take(n - 5) =~= v@.take(n - 5));
        }
        n = n - 5;
    }
    proof {
        let t = v@.take(n as int);
        if n >= 5 {
            assert(t.skip(n - 5) =~= v@.subrange(n - 5, n as int));
        }
        assert(!ends_with(t, luat_ext()));
        assert(v@.subrange(0, n as int) =~= t);
    }
    string_of_range(&v, 0, n)
}

/// Records file `p`, of directory `dir` and name `fname`, in the route of
/// its directory, adding that route when it is new.
fn note_route(routes: &mut Vec<Route>, dir: &str, fname: &str, p: &str, Ghost(ps): Ghost<Seq<Seq<char>>>)
    requires
        routes_ok(old(routes)@, ps),
        dir@ == dir_of(p@),
        fname@ == name_of(p@),
    ensures
        routes_ok(final(routes)@, ps.push(p@)),
{
    let ghost ps2 = ps.push(p@);
    proof {
        assert(ps2.drop_last() =~= ps);
        assert(ps2.last() == p@);
        lemma_route_dirs(ps);
    }
    let ghost before = routes@;
    let ghost ds = route_dirs(ps);
    let mut j: usize = 0;
    while j < routes.len()
        invariant
            j <= routes@.len(),
            routes@ == before,
            routes_ok(before, ps),
            ds == route_dirs(ps),
            forall|k: int| 0 <= k < j ==> ds[k] != dir@,
        ensures
            j <= before.len(),
            routes@ == before,
            j < before.len() ==> ds[j as int] == dir@,
            forall|k: int| 0 <= k < j ==> ds[k] != dir@,
        decreases routes@.len() - j,
    {
        if str_eq(routes[j].fs_path.as_str(), dir) {
            break;
        }
        j = j + 1;
    }
    let found = j < routes.len();
    let mut r = if found {
        routes.remove(j)
    } else {
        Route::new(path_to_pattern(dir).as_str(), dir)
    };
    if str_eq(fname, "+page.luat") {
        r.page = Some(owned(p));
    } else if str_eq(fname, "+page.server.lua") {
        r.page_server = Some(owned(p));
    } else if str_eq(fname, "+server.lua") {
        r.api = Some(owned(p));
    } else if str_eq(fname, "+layout.luat") {
        r.layout = Some(owned(p));
    } else if str_eq(fname, "+layout.server.lua") {
        r.layout_server = Some(owned(p));
    } else if str_eq(fname, "+error.luat") {
        r.error = Some(owned(p));
    }
    proof {
        if !found {
            assert(!ds.contains(dir@));
            assert(route_dirs(ps2) == ds.push(dir@));
        } else {
            assert(ds.contains(dir@));
            assert(route_dirs(ps2) == ds);
        }
    }
    if found {
        routes.insert(j, r);
    } else {
        routes.push(r);
    }
    proof {
        let ds2 = route_dirs(ps2);
        let a = routes@;
        lemma_route_file_names();
        if !found {
            lemma_last_file_in(ps, dir@, "+page.luat"@);
            lemma_last_file_in(ps, dir@, "+page.server.lua"@);
            lemma_last_file_in(ps, dir@, "+server.lua"@);
            lemma_last_file_in(ps, dir@, "+layout.luat"@);
            lemma_last_file_in(ps, dir@, "+layout.server.lua"@);
            lemma_last_file_in(ps, dir@, "+error.luat"@);
        }
        assert(ds2[j as int] == dir@);
        assert(partial_route(a[j as int], ps2, ds2[j as int]));
        assert forall|k: int| 0 <= k < a.len() implies partial_route(#[trigger] a[k], ps2, ds2[k]) by {
            if k != j {
                assert(a[k] == before[k]);
                assert(ds2[k] == ds[k]);
                assert(ds[k] != dir@);
            }
        }
        assert forall|k: int| 0 <= k < a.len() implies (#[trigger] a[k]).action_templates.wf()
            && a[k].action_templates.keys().len() == 0 by {
            if k != j {
                assert(a[k] == before[k]);
            }
        }
    }
}

impl Scan {
    /// Records path `p`.
    fn note_path(&mut self, p: &str, Ghost(ps): Ghost<Seq<Seq<char>>>)
        requires
            old(self).ok(ps),
        ensures
            final(self).ok(ps.push(p@)),
    {
        let ghost ps2 = ps.push(p@);
        proof {
            assert(ps2.drop_last() =~= ps);
            assert(ps2.last() == p@);
        }
        let fname: String = match path_file_name(p) {
            Some(f) => f,
            None => String::new(),
        };
        let dir: String = match path_parent(p) {
            Some(d) => d,
            None => String::new(),
        };
        if str_eq(fname.as_str(), "+layout.luat") {
            self.layouts.insert(dir.as_str(), p);
        } else if str_eq(fname.as_str(), "+layout.server.lua") {
            self.layout_servers.insert(dir.as_str(), p);
        }
        proof {
            lemma_route_file_names();
            assert forall|d: Seq<char>| #[trigger] self.layouts.lookup(d) == last_file(ps2, d, "+layout.luat"@) by {}
            assert forall|d: Seq<char>| #[trigger] self.layout_servers.lookup(d) == last_file(ps2, d, "+layout.server.lua"@) by {}
        }
        let mut is_action = false;
        if str_ends_with(fname.as_str(), ".luat") {
            match path_parent(p) {
                Some(par) => match path_file_name(par.as_str()) {
                    Some(pn) => if str_eq(pn.as_str(), "(fragments)") {
                        match path_parent(par.as_str()) {
                            Some(gp) => {
                                let name = trim_luat_str(fname.as_str());
                                proof {
                                    reveal_strlit(".luat");
                                    reveal_strlit("(fragments)");
                                    assert(".luat"@ =~= luat_ext());
                                    assert("(fragments)"@ =~= fragments_dir());
                                }
                                put_action(&mut self.actions, gp.as_str(), name.as_str(), p, Ghost(ps));
                                is_action = true;
                            },
                            None => {},
                        }
                    },
                    None => {},
                },
                None => {},
            }
        }
        if !is_action {
            proof {
                reveal_strlit(".luat");
                reveal_strlit("(fragments)");
                assert(".luat"@ =~= luat_ext());
                assert("(fragments)"@ =~= fragments_dir());
                assert(action_of(p@) is None);
                let a = self.actions@;
                assert forall|j: int, n: Seq<char>| 0 <= j < a.len() implies #[trigger] a[j].1.lookup(n) == last_action(ps2, a[j].0@, n) by {}
                assert forall|d: Seq<char>, n: Seq<char>| #[trigger] last_action(ps2, d, n) is Some implies exists|j: int| 0 <= j < a.len() && (#[trigger] a[j]).0@ == d by {
                    assert(last_action(ps, d, n) is Some);
                }
            }
        }
        note_route(&mut self.routes, dir.as_str(), fname.as_str(), p, Ghost(ps));
    }
}

/// Whether `v` holds the string `s`.
fn contains_string(v: &Vec<String>, s: &str) -> (b: bool)
    ensures
        b == views(v@).contains(s@),
{
    let mut i: usize = 0;
    while i < v.len()
        invariant
            i <= v@.len(),
            forall|k: int| 0 <= k < i ==> views(v@)[k] != s@,
        decreases v@.len() - i,
    {
        if str_eq(v[i].as_str(), s) {
            assert(views(v@)[i as int] == s@);
            return true;
        }
        i = i + 1;
    }
    false
}

/// The layout files of `layouts_by_dir` that apply to `dir`, from the root
/// down, each once.
fn collect_layouts(dir: &str, layouts_by_dir: &StrMap, Ghost(ps): Ghost<Seq<Seq<char>>>, Ghost(f): Ghost<Seq<char>>) -> (r: Vec<String>)
    requires
        layouts_by_dir.wf(),
        forall|d: Seq<char>| #[trigger] layouts_by_dir.lookup(d) == last_file(ps, d, f),
    ensures
        views(r@) == layout_chain(ps, dir@, f),
{
    let mut layouts: Vec<String> = Vec::new();
    let mut current = String::new();
    proof {
        reveal_strlit("");
        assert(""@ =~= Seq::<char>::empty());
    }
    match layouts_by_dir.get("") {
        Some(l) => {
            layouts.push(owned(l.as_str()));
        },
        None => {},
    }
    let cs = path_components(dir);
    let ghost comps = components(dir@);
    proof {
        assert(views(layouts@) =~= layout_walk(ps, f, comps, 0));
    }
    let mut i: usize = 0;
    while i < cs.len()
        invariant
            i <= cs@.len() == comps.len(),
            comps == components(dir@),
            forall|k: int| 0 <= k < cs@.len() ==> (#[trigger] cs@[k])@ == comps[k],
            layouts_by_dir.wf(),
            forall|d: Seq<char>| #[trigger] layouts_by_dir.lookup(d) == last_file(ps, d, f),
            views(layouts@) == layout_walk(ps, f, comps, i as int),
            current@ == prefix_path(comps, i as int),
        decreases cs@.len() - i,
    {
        if current.unicode_len() > 0 {
            crate::text::push_char(&mut current, '/');
        }
        current.append(cs[i].as_str());
        proof {
            assert(current@ =~= prefix_path(comps, i + 1));
        }
        match layouts_by_dir.get(current.as_str()) {
            Some(l) => {
                if !contains_string(&layouts, l.as_str()) {
                    let ghost before = layouts@;
                    layouts.push(owned(l.as_str()));
                    proof {
                        assert(views(layouts@) =~= views(before).push(l@));
                    }
                }
            },
            None => {},
        }
        i = i + 1;
    }
    layouts
}

/// The routes of the directories that hold a page or an API route, with
/// their layout chains and action templates.
fn finish_routes(scan: Scan, Ghost(ps): Ghost<Seq<Seq<char>>>) -> (r: Vec<Route>)
    requires
        scan.ok(ps),
    ensures
        r@.len() == routed(ps, route_dirs(ps)).len(),
        forall|i: int| 0 <= i < r@.len() ==> route_fits(#[trigger] r@[i], ps, routed(ps, route_dirs(ps))[i]),
{
    let Scan { routes, layouts, layout_servers, actions } = scan;
    let ghost ds = route_dirs(ps);
    let ghost all = routes@;
    let mut kept: Vec<Route> = Vec::new();
    for route in it: routes.into_iter()
        invariant
            it.seq() == all,
            routes_ok(all, ps),
            ds == route_dirs(ps),
            layouts.wf(),
            forall|d: Seq<char>| #[trigger] layouts.lookup(d) == last_file(ps, d, "+layout.luat"@),
            layout_servers.wf(),
            forall|d: Seq<char>| #[trigger] layout_servers.lookup(d) == last_file(ps, d, "+layout.server.lua"@),
            actions_ok(actions@, ps),
            kept@.len() == routed(ps, ds.take(it.index() as int)).len(),
            forall|i: int| 0 <= i < kept@.len() ==> route_fits(#[trigger] kept@[i], ps, routed(ps, ds.take(it.index() as int))[i]),
    {
        let ghost i = it.index() as int;
        proof {
            assert(ds.take(i + 1).drop_last() =~= ds.take(i));
            assert(ds.take(i + 1).last() == ds[i]);
            assert(route == all[i]);
            assert(partial_route(all[i], ps, ds[i]));
            assert(all[i].action_templates.keys().len() == 0);
        }
        if route.page.is_some() || route.api.is_some() {
            let mut route = route;
            route.layouts = collect_layouts(route.fs_path.as_str(), &layouts, Ghost(ps), Ghost("+layout.luat"@));
            route.layout_servers = collect_layouts(route.fs_path.as_str(), &layout_servers, Ghost(ps), Ghost("+layout.server.lua"@));
            let mut j: usize = 0;
            while j < actions.len()
                invariant
                    j <= actions@.len(),
                    forall|k: int| 0 <= k < j ==> (#[trigger] actions@[k]).0@ != route.fs_path@,
                ensures
                    j <= actions@.len(),
                    j < actions@.len() ==> actions@[j as int].0@ == route.fs_path@,
                    forall|k: int| 0 <= k < j ==> (#[trigger] actions@[k]).0@ != route.fs_path@,
                decreases actions@.len() - j,
            {
                if str_eq(actions[j].0.as_str(), route.fs_path.as_str()) {
                    break;
                }
                j = j + 1;
            }
            if j < actions.len() {
                route.action_templates = actions[j].1.duplicate();
                proof {
                    assert forall|n: Seq<char>| #[trigger] route.action_templates.lookup(n) == last_action(ps, ds[i], n) by {
                        assert(actions@[j as int].1.lookup(n) == last_action(ps, actions@[j as int].0@, n));
                    }
                }
            } else {
                proof {
                    assert forall|n: Seq<char>| #[trigger] route.action_templates.lookup(n) == last_action(ps, ds[i], n) by {
                        if last_action(ps, ds[i], n) is Some {
                            let k = choose|k: int| 0 <= k < actions@.len() && (#[trigger] actions@[k]).0@ == ds[i];
                        }
                        assert(route.action_templates.keys().len() == 0);
                        assert(!route.action_templates.keys().contains(n));
                    }
                }
            }
            let ghost before = kept@;
            kept.push(route);
            proof {
                assert(has_route(ps, ds[i]));
                assert forall|k: int| 0 <= k < kept@.len() implies route_fits(#[trigger] kept@[k], ps, routed(ps, ds.take(i + 1))[k]) by {
                    if k < before.len() {
                        assert(kept@[k] == before[k]);
                    }
                }
            }
        } else {
            proof {
                assert(!has_route(ps, ds[i]));
            }
        }
    }
    proof {
        assert(ds.take(all.len() as int) =~= ds);
    }
    kept
}

/// `x` goes into `s` at `k` when every element before `k` may come before
/// it and no element from `k` on may.
proof fn lemma_insert_stable(s: Seq<Seq<char>>, x: Seq<char>, k: int)
    requires
        0 <= k <= s.len(),
        k == 0 || key_le(s[k - 1], x),
        forall|j: int| k <= j < s.len() ==> !key_le(#[trigger] s[j], x),
    ensures
        insert_stable(s, x) == s.insert(k, x),
    decreases s.len(),
{
    if s.len() == k {
        if k == 0 {
            assert(s.insert(0, x) =~= seq![x]);
        } else {
            assert(s.insert(k, x) =~= s.push(x));
        }
    } else {
        assert(!key_le(s.last(), x));
        let t = s.drop_last();
        lemma_insert_stable(t, x, k);
        assert(t.insert(k, x).push(s.last()) =~= s.insert(k, x));
    }
}

/// Whether a pattern has a parameter.
fn pattern_is_dynamic(pattern: &str) -> (b: bool)
    ensures
        b == is_dynamic(pattern@),
{
    let v = chars_of(pattern);
    let b = crate::text::has_char_in(&v, '{', 0, v.len());
    proof {
        if b {
            let k = choose|k: int| 0 <= k < v@.len() && v@[k] == '{';
            assert(pattern@[k] == '{');
        }
    }
    b
}

/// Whether the route of directory `a` may come before that of `b`.
fn route_le(a: &Route, b: &Route, Ghost(da): Ghost<Seq<char>>, Ghost(db): Ghost<Seq<char>>) -> (r: bool)
    requires
        a.pattern@ == path_pattern(da),
        b.pattern@ == path_pattern(db),
    ensures
        r == key_le(da, db),
{
    let xa = pattern_is_dynamic(a.pattern.as_str());
    let xb = pattern_is_dynamic(b.pattern.as_str());
    (!xa && xb) || (xa == xb && !str_less(b.pattern.as_str(), a.pattern.as_str()))
}

/// The routes sorted by `key_le` of their directories `ds`, keeping the
/// order of equal keys.
fn sort_routes(routes: Vec<Route>, Ghost(ps): Ghost<Seq<Seq<char>>>, Ghost(ds): Ghost<Seq<Seq<char>>>) -> (r: Vec<Route>)
    requires
        routes@.len() == ds.len(),
        forall|i: int| 0 <= i < ds.len() ==> route_fits(#[trigger] routes@[i], ps, ds[i]),
    ensures
        r@.len() == sort_dirs(ds).len(),
        forall|i: int| 0 <= i < r@.len() ==> route_fits(#[trigger] r@[i], ps, sort_dirs(ds)[i]),
{
    let ghost all = routes@;
    let mut sorted: Vec<Route> = Vec::new();
    for route in it: routes.into_iter()
        invariant
            it.seq() == all,
            all.len() == ds.len(),
            forall|i: int| 0 <= i < ds.len() ==> route_fits(#[trigger] all[i], ps, ds[i]),
            sorted@.len() == sort_dirs(ds.take(it.index() as int)).len(),
            forall|i: int| 0 <= i < sorted@.len() ==> route_fits(#[trigger] sorted@[i], ps, sort_dirs(ds.take(it.index() as int))[i]),
    {
        let ghost k = it.index() as int;
        let ghost cur = sort_dirs(ds.take(k));
        let ghost x = ds[k];
        proof {
            assert(ds.take(k + 1).drop_last() =~= ds.take(k));
            assert(ds.take(k + 1).last() == x);
            assert(route == all[k]);
        }
        let mut pos = sorted.len();
        while pos > 0 && !route_le(&sorted[pos - 1], &route, Ghost(cur[pos - 1]), Ghost(x))
            invariant
                pos <= sorted@.len() == cur.len(),
                forall|i: int| 0 <= i < sorted@.len() ==> route_fits(#[trigger] sorted@[i], ps, cur[i]),
                route_fits(route, ps, x),
                forall|j: int| pos <= j < cur.len() ==> !key_le(#[trigger] cur[j], x),
            decreases pos,
        {
            pos = pos - 1;
        }
        proof {
            lemma_insert_stable(cur, x, pos as int);
        }
        let ghost before = sorted@;
        sorted.insert(pos, route);
        proof {
            let ns = cur.insert(pos as int, x);
            assert forall|i: int| 0 <= i < sorted@.len() implies route_fits(#[trigger] sorted@[i], ps, ns[i]) by {
                if i < pos {
                    assert(sorted@[i] == before[i]);
                } else if i > pos {
                    assert(sorted@[i] == before[i - 1]);
                }
            }
        }
    }
    proof {
        assert(ds.take(all.len() as int) =~= ds);
    }
    sorted
}

impl Router {
    /// Discovers the routes defined by the file paths `paths` (relative to
    /// the routes root) and registers their patterns for matching, static
    /// patterns first, then in pattern order. A pattern with 26 or more `{`
    /// is listed but not registered: the matcher cannot hold it.
    pub fn from_paths(paths: Vec<&str>) -> (r: Self)
        ensures
            r.route_list().len() == discovered(str_views(paths@)).len(),
            forall|i: int| 0 <= i < r.route_list().len() ==> route_fits(
                #[trigger] r.route_list()[i],
                str_views(paths@),
                discovered(str_views(paths@))[i],
            ),
            r.matcher_calls() == registered(
                discovered(str_views(paths@)).map_values(|p: Seq<char>| path_pattern(p)),
                r.route_list().len() as int,
            ),
    {
        let ghost ps = str_views(paths@);
        let mut scan = Scan { routes: Vec::new(), layouts: StrMap::new(), layout_servers: StrMap::new(), actions: Vec::new() };
        proof {
            assert(ps.take(0) =~= Seq::<Seq<char>>::empty());
            assert forall|d: Seq<char>| #[trigger] scan.layouts.lookup(d) == last_file(ps.take(0), d, "+layout.luat"@) by {
                assert(!scan.layouts.keys().contains(d));
            }
            assert forall|d: Seq<char>| #[trigger] scan.layout_servers.lookup(d) == last_file(ps.take(0), d, "+layout.server.lua"@) by {
                assert(!scan.layout_servers.keys().contains(d));
            }
        }
        let mut i: usize = 0;
        while i < paths.len()
            invariant
                i <= paths@.len(),
                ps == str_views(paths@),
                scan.ok(ps.take(i as int)),
            decreases paths@.len() - i,
        {
            proof {
                assert(ps.take(i as int).push(paths@[i as int]@) =~= ps.take(i + 1));
            }
            scan.note_path(paths[i], Ghost(ps.take(i as int)));
            i = i + 1;
        }
        proof {
            assert(ps.take(i as int) =~= ps);
        }
        let kept = finish_routes(scan, Ghost(ps));
        let sorted = sort_routes(kept, Ghost(ps), Ghost(routed(ps, route_dirs(ps))));
        let ghost d = discovered(ps);
        let ghost pats = d.map_values(|p: Seq<char>| path_pattern(p));
        let mut matcher = matcher_new();
        let mut k: usize = 0;
        while k < sorted.len()
            invariant
                k <= sorted@.len() == d.len(),
                forall|j: int| 0 <= j < sorted@.len() ==> route_fits(#[trigger] sorted@[j], ps, d[j]),
                pats == d.map_values(|p: Seq<char>| path_pattern(p)),
                matcher_inserts(matcher) == registered(pats, k as int),
            decreases sorted@.len() - k,
        {
            proof {
                assert(sorted@[k as int].pattern@ == path_pattern(d[k as int]));
                assert(pats[k as int] == path_pattern(d[k as int]));
            }
            if count_char(sorted[k].pattern.as_str(), '{') < MAX_ROUTE_BRACES {
                let _ = matcher_insert(&mut matcher, sorted[k].pattern.as_str(), k);
            }
            k = k + 1;
        }
        Router { matcher, routes: sorted }
    }
}

} // verus!
