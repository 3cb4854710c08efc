//! How a request is handled: which kind of handler runs, what an action
//! handler is given, and what the results of server code become.

use vstd::prelude::*;
use crate::actions::{unicode_upper, upper_case, ActionContext};
use crate::body::{action_body_outcome, body_error_message, parse_action_body, BodyParseError};
use crate::body::{json_string_object, string_object};
use crate::collections::{entry_keys, entry_values, pair_views, StrMap};
use crate::request::{action_key, LuatRequest};
use crate::response::{json_null, ActionResponse, LuatResponse};
use crate::router::Route;
use crate::runtime::{ApiResult, LoadResult};
use crate::text::{eq_ignore_ascii_case, owned, str_eq_ignore_ascii_case};

verus! {

/// The kind of handler that answers a request.
#[derive(Debug, Clone, Copy, PartialEq, Eq)]
pub enum Handling {
    /// An API route: its `+server.lua`.
    Api,
    /// A form action of a page: its `+page.server.lua` actions.
    Action,
    /// A page: load functions, then the template.
    Page,
}

/// A request to a page with server code is an action unless it is a `GET`
/// without action name.
pub open spec fn action_request(route: Route, request: LuatRequest) -> bool {
    route.page_server is Some && (!eq_ignore_ascii_case(request.method@, "GET"@) || action_key(request.query.keys()) is Some)
}

/// Whether the request runs an action of the route.
pub fn is_action_request(route: &Route, request: &LuatRequest) -> (b: bool)
    ensures
        b == action_request(*route, *request),
{
    if route.page_server.is_none() {
        return false;
    }
    if !str_eq_ignore_ascii_case(request.method.as_str(), "GET") {
        return true;
    }
    request.action_name().is_some()
}

/// The kind of handler for the request: API routes first, then actions,
/// then pages.
pub fn handling_for(route: &Route, request: &LuatRequest) -> (h: Handling)
    ensures
        h == (if route.api is Some && route.page is None {
            Handling::Api
        } else if action_request(*route, *request) {
            Handling::Action
        } else {
            Handling::Page
        }),
{
    if route.is_api_route() {
        return Handling::Api;
    }
    if is_action_request(route, request) {
        return Handling::Action;
    }
    Handling::Page
}

/// The server files whose `load` runs before a page, in order: the layout
/// servers from the root down, then the page server.
pub fn load_chain(route: &Route) -> (r: Vec<String>)
    ensures
        crate::text::views(r@) == crate::text::views(route.layout_servers@) + match route.page_server {
            Some(p) => seq![p@],
            None => Seq::empty(),
        },
{
    let mut r: Vec<String> = Vec::new();
    let mut i: usize = 0;
    while i < route.layout_servers.len()
        invariant
            i <= route.layout_servers@.len(),
            crate::text::views(r@) == crate::text::views(route.layout_servers@).take(i as int),
        decreases route.layout_servers@.len() - i,
    {
        let ghost before = crate::text::views(r@);
        r.push(owned(route.layout_servers[i].as_str()));
        proof {
            assert(crate::text::views(r@) =~= before.push(route.layout_servers@[i as int]@));
            assert(crate::text::views(route.layout_servers@).take(i + 1) =~= crate::text::views(route.layout_servers@).take(i as int).push(route.layout_servers@[i as int]@));
        }
        i = i + 1;
    }
    proof {
        assert(crate::text::views(route.layout_servers@).take(i as int) =~= crate::text::views(route.layout_servers@));
    }
    match &route.page_server {
        Some(p) => {
            let ghost before = crate::text::views(r@);
            r.push(owned(p.as_str()));
            proof {
                assert(crate::text::views(r@) =~= before.push(p@));
            }
        },
        None => {
            proof {
                assert(crate::text::views(r@) =~= crate::text::views(r@) + Seq::<Seq<char>>::empty());
            }
        },
    }
    r
}

/// The redirect a `load` asks for: its location, with its status or 302.
pub fn load_redirect(result: &LoadResult) -> (r: Option<LuatResponse>)
    ensures
        match result.redirect {
            Some(loc) => r matches Some(LuatResponse::Redirect { status, location }) && location@ == loc@
                && status == match result.status {
                    Some(s) => s,
                    None => 302u16,
                },
            None => r is None,
        },
{
    match &result.redirect {
        Some(loc) => {
            let status = match result.status {
                Some(s) => s,
                None => 302,
            };
            Some(LuatResponse::redirect_with_status(status, loc.as_str()))
        },
        None => None,
    }
}

/// What an API handler's result becomes: a redirect when it sets
/// `Location`, else its JSON with status and headers.
pub fn api_response(result: ApiResult) -> (r: LuatResponse)
    ensures
        match result.headers.lookup("Location"@) {
            Some(loc) => r matches LuatResponse::Redirect { status, location } && status == result.status && location@ == loc,
            None => r matches LuatResponse::Json { status, headers, body } && status == result.status
                && headers == result.headers && body == result.body,
        },
{
    proof {
        use_type_invariant(&result.headers);
    }
    let location = match result.headers.get("Location") {
        Some(l) => Some(owned(l.as_str())),
        None => None,
    };
    match location {
        Some(l) => LuatResponse::redirect_with_status(result.status, l.as_str()),
        None => LuatResponse::json_with_headers(result.status, result.body, result.headers),
    }
}

/// A query parameter as the URL of an action shows it: the key alone for
/// an empty value, else `key=value`.
pub open spec fn query_part(k: Seq<char>, v: Seq<char>) -> Seq<char> {
    if v.len() == 0 { k } else { k + "="@ + v }
}

/// The query parameters `ks`/`vs` from index `i`, joined by `&`.
pub open spec fn query_parts(ks: Seq<Seq<char>>, vs: Seq<Seq<char>>, i: int) -> Seq<Seq<char>> {
    Seq::new((ks.len() - i) as nat, |j: int| query_part(ks[i + j], vs[i + j]))
}

/// The URL an action handler sees: the path, and the query parameters in
/// their order when there are any.
pub open spec fn action_url(request: LuatRequest) -> Seq<char> {
    if request.query.keys().len() == 0 {
        request.path@
    } else {
        request.path@ + "?"@ + crate::text::join(query_parts(request.query.keys(), request.query.vals(), 0), "&"@)
    }
}

/// The URL an action handler sees.
pub fn build_action_url(request: &LuatRequest) -> (r: String)
    ensures
        r@ == action_url(*request),
{
    proof {
        use_type_invariant(&request.query);
    }
    let es = request.query.entries();
    if es.len() == 0 {
        return owned(request.path.as_str());
    }
    let ghost ks = request.query.keys();
    let ghost vs = request.query.vals();
    let ghost parts = query_parts(ks, vs, 0);
    let mut out = owned(request.path.as_str());
    out.append("?");
    let ghost head = out@;
    let mut i: usize = 0;
    proof {
        assert(parts.take(0) =~= Seq::<Seq<char>>::empty());
    }
    while i < es.len()
        invariant
            i <= es@.len() == ks.len() == vs.len(),
            entry_keys(es@) == ks,
            entry_values(es@) == vs,
            parts == query_parts(ks, vs, 0),
            out@ == head + crate::text::join(parts.take(i as int), "&"@),
        decreases es@.len() - i,
    {
        let ghost before = out@;
        if i > 0 {
            out.append("&");
        }
        out.append(es[i].0.as_str());
        if crate::text::chars_of(es[i].1.as_str()).len() > 0 {
            out.append("=");
            out.append(es[i].1.as_str());
        }
        proof {
            reveal_strlit("&");
            reveal_strlit("=");
            assert(ks[i as int] == es@[i as int].0@);
            assert(vs[i as int] == es@[i as int].1@);
            let t = parts.take(i + 1);
            assert(t.drop_last() =~= parts.take(i as int));
            assert(t.last() == query_part(ks[i as int], vs[i as int]));
            assert(out@ =~= head + crate::text::join(t, "&"@));
        }
        i = i + 1;
    }
    proof {
        assert(parts.take(i as int) =~= parts);
    }
    out
}


/// A query key that names an action (`?/name`).
pub open spec fn is_action_key(k: Seq<char>) -> bool {
    k.len() > 0 && k[0] == '/'
}

/// The query parameters without the action name.
pub fn action_query(query: &StrMap) -> (r: StrMap)
    ensures
        forall|k: Seq<char>| #[trigger] r.lookup(k) == (if is_action_key(k) { None } else { query.lookup(k) }),
{
    proof {
        use_type_invariant(query);
    }
    let es = query.entries();
    let mut r = StrMap::new();
    let mut i: usize = 0;
    while i < es.len()
        invariant
            i <= es@.len(),
            entry_keys(es@) == query.keys(),
            entry_values(es@) == query.vals(),
            crate::collections::distinct(query.keys()),
            query.keys().len() == query.vals().len(),
            forall|k: Seq<char>| #[trigger] r.lookup(k) == (if !is_action_key(k) && query.keys().take(i as int).contains(k) {
                query.lookup(k)
            } else {
                None
            }),
        decreases es@.len() - i,
    {
        proof {
            use_type_invariant(&r);
        }
        let key = es[i].0.as_str();
        let kv = crate::text::chars_of(key);
        let ghost prev = r;
        let ghost ks = query.keys();
        proof {
            assert(ks[i as int] == key@);
            let idx = crate::collections::index_of(ks, ks[i as int])->0;
            assert(ks[idx] == ks[i as int]);
            if idx != i {
                if idx < i { assert(ks[idx] != ks[i as int]); } else { assert(ks[i as int] != ks[idx]); }
            }
            assert(query.lookup(key@) == Some(es@[i as int].1@));
        }
        if !(kv.len() > 0 && kv[0] == '/') {
            r.insert(key, es[i].1.as_str());
        }
        proof {
            assert forall|k: Seq<char>| #[trigger] r.lookup(k) == (if !is_action_key(k) && ks.take(i + 1).contains(k) {
                query.lookup(k)
            } else {
                None
            }) by {
                if k == key@ {
                    assert(ks.take(i + 1)[i as int] == k);
                } else {
                    if ks.take(i + 1).contains(k) {
                        let t = choose|t: int| 0 <= t < i + 1 && #[trigger] ks.take(i + 1)[t] == k;
                        assert(ks.take(i as int)[t] == k);
                    }
                    if ks.take(i as int).contains(k) {
                        let t = choose|t: int| 0 <= t < i && #[trigger] ks.take(i as int)[t] == k;
                        assert(ks.take(i + 1)[t] == k);
                    }
                }
            }
        }
        i = i + 1;
    }
    proof {
        assert(query.keys().take(i as int) =~= query.keys());
        assert forall|k: Seq<char>| #[trigger] r.lookup(k) == (if is_action_key(k) { None } else { query.lookup(k) }) by {
            if !query.keys().contains(k) {
                assert(crate::collections::index_of(query.keys(), k) is None);
            }
        }
    }
    r
}

/// What an action handler is given for a request: upper-case method, the
/// action URL, route parameters, the query without the action name,
/// headers, cookies, the body read by content type, and the action name.
/// The error is the text of a body that could not be read.
pub fn build_action_context(request: &LuatRequest, params: &StrMap) -> (r: Result<ActionContext, String>)
    ensures
        request.body is None ==> r is Ok,
        request.body matches Some(b) ==> exists|res: Result<serde_json::Value, BodyParseError>|
            #![trigger action_body_outcome(b@, request_content_type(*request), res)]
            action_body_outcome(b@, request_content_type(*request), res) && match res {
                Ok(v) => r matches Ok(ctx) && ctx.body == v,
                Err(e) => r matches Err(m) && m@ == body_error_message(e),
            },
        r matches Ok(ctx) ==> {
            &&& ctx.method@ == unicode_upper(request.method@)
            &&& ctx.url@ == action_url(*request)
            &&& ctx.params.keys() == params.keys() && ctx.params.vals() == params.vals()
            &&& forall|k: Seq<char>| #[trigger] ctx.query.lookup(k) == (if is_action_key(k) { None } else { request.query.lookup(k) })
            &&& ctx.headers.keys() == request.headers.keys() && ctx.headers.vals() == request.headers.vals()
            &&& ctx.cookies.keys() == request.cookies.keys() && ctx.cookies.vals() == request.cookies.vals()
            &&& crate::kv::opt_view(ctx.action_name) == action_key(request.query.keys())
        },
{
    proof {
        use_type_invariant(&request.headers);
    }
    let body = match &request.body {
        Some(b) => {
            let res = parse_action_body(b.as_slice(), request.content_type());
            let ghost gres = res;
            match res {
                Ok(v) => v,
                Err(e) => {
                    let m = e.to_message();
                    proof {
                        assert(action_body_outcome(b@, request_content_type(*request), gres));
                    }
                    return Err(m);
                },
            }
        },
        None => json_null(),
    };
    let ghost gbody = body;
    let query = action_query(&request.query);
    let url = build_action_url(request);
    let action = match request.action_name() {
        Some(a) => Some(owned(a)),
        None => None,
    };
    let ctx = ActionContext::new(request.method.as_str(), url.as_str())
        .with_params(params.clone())
        .with_query(query)
        .with_headers(request.headers.clone())
        .with_cookies(request.cookies.clone())
        .with_body(body)
        .with_action(action);
    proof {
        if request.body is Some {
            let gres = Ok::<serde_json::Value, BodyParseError>(gbody);
            assert(action_body_outcome(request.body->0@, request_content_type(*request), gres));
        }
    }
    Ok(ctx)
}

/// The content type of `request`, empty without one.
pub open spec fn request_content_type(request: LuatRequest) -> Seq<char> {
    match request.content_type_spec() {
        Some(v) => v,
        None => Seq::empty(),
    }
}

/// The name of the action a context runs: its action name, or `default`.
pub open spec fn action_name_of(ctx: ActionContext) -> Seq<char> {
    match ctx.action_name {
        Some(a) => a@,
        None => crate::actions::default_action(),
    }
}

/// The upper-case name of a method-specific action template: `POST-delete`.
pub open spec fn method_template_name(ctx: ActionContext) -> Seq<char> {
    unicode_upper(ctx.method@) + "-"@ + action_name_of(ctx)
}

/// The names of the templates to render after an action, in order: the
/// method-specific one (`POST-delete`), then the action's own (`delete`).
pub fn action_template_candidates(ctx: &ActionContext) -> (r: Vec<String>)
    ensures
        r@.len() == 2,
        r@[0]@ == method_template_name(*ctx),
        r@[1]@ == action_name_of(*ctx),
{
    let action = ctx.effective_action_name();
    let mut first = upper_case(ctx.method.as_str());
    first.append("-");
    first.append(action);
    proof {
        reveal_strlit("-");
    }
    let mut r: Vec<String> = Vec::new();
    r.push(first);
    r.push(owned(action));
    r
}

/// Key `i` of `keys` is the first whose upper case is `target`.
pub open spec fn first_upper_match(keys: Seq<Seq<char>>, target: Seq<char>, i: int) -> bool {
    &&& 0 <= i < keys.len()
    &&& unicode_upper(keys[i]) == target
    &&& forall|j: int| 0 <= j < i ==> #[trigger] unicode_upper(keys[j]) != target
}

/// The action template whose name, upper-cased, is `candidate` upper-cased:
/// of several such names, the first one given.
pub fn action_template_path(route: &Route, candidate: &str) -> (r: Option<String>)
    ensures
        match r {
            Some(p) => exists|i: int| #[trigger] first_upper_match(route.action_templates.keys(), unicode_upper(candidate@), i)
                && p@ == route.action_templates.vals()[i],
            None => forall|i: int| 0 <= i < route.action_templates.keys().len()
                ==> #[trigger] unicode_upper(route.action_templates.keys()[i]) != unicode_upper(candidate@),
        },
{
    proof {
        use_type_invariant(&route.action_templates);
    }
    let target = upper_case(candidate);
    let es = route.action_templates.entries();
    let ghost ks = route.action_templates.keys();
    let ghost vs = route.action_templates.vals();
    let mut i: usize = 0;
    while i < es.len()
        invariant
            i <= es@.len(),
            entry_keys(es@) == ks,
            entry_values(es@) == vs,
            ks == route.action_templates.keys(),
            vs == route.action_templates.vals(),
            ks.len() == vs.len(),
            target@ == unicode_upper(candidate@),
            forall|j: int| 0 <= j < i ==> #[trigger] unicode_upper(ks[j]) != target@,
        decreases es@.len() - i,
    {
        let key_upper = upper_case(es[i].0.as_str());
        proof {
            assert(ks[i as int] == es@[i as int].0@);
        }
        if crate::ast::str_eq(key_upper.as_str(), target.as_str()) {
            let p = owned(es[i].1.as_str());
            proof {
                assert(vs[i as int] == es@[i as int].1@);
                assert(unicode_upper(ks[i as int]) == unicode_upper(candidate@));
                assert(p@ == vs[i as int]);
                assert(first_upper_match(ks, unicode_upper(candidate@), i as int));
            }
            return Some(p);
        }
        i = i + 1;
    }
    None
}

/// The JSON body of an action error: `{"error": message}`.
pub open spec fn error_body(message: Seq<char>) -> serde_json::Value {
    string_object(seq![("error"@, message)])
}

/// The answer to an action that could not run: `status` and
/// `{"error": message}`.
pub fn action_error_response(status: u16, message: &str) -> (r: LuatResponse)
    ensures
        r matches LuatResponse::Json { status: s, headers, body } && s == status && headers.keys().len() == 0
            && body == error_body(message@),
{
    let mut pairs: Vec<(String, String)> = Vec::new();
    pairs.push((owned("error"), owned(message)));
    proof {
        reveal_strlit("error");
        assert(pair_views(pairs@) =~= seq![("error"@, message@)]);
    }
    LuatResponse::json(status, json_string_object(pairs))
}

/// `x-luat-fragment`.
pub open spec fn fragment_header() -> Seq<char> {
    "x-luat-fragment"@
}

/// What an action's answer becomes: its rendered template as HTML, marked
/// as a fragment, when one was rendered; its data as JSON otherwise.
pub fn action_response_to_luat(response: ActionResponse, rendered: Option<String>) -> (r: LuatResponse)
    ensures
        match rendered {
            Some(html) => r matches LuatResponse::Html { status, headers, body } && status == response.status
                && body@ == html@ && headers.lookup(fragment_header()) == Some("1"@)
                && (forall|k: Seq<char>| k != fragment_header() ==> headers.lookup(k) == response.headers.lookup(k)),
            None => r matches LuatResponse::Json { status, headers, body } && status == response.status
                && headers == response.headers && body == response.data,
        },
{
    match rendered {
        Some(html) => {
            proof {
                use_type_invariant(&response.headers);
            }
            let mut headers = response.headers;
            headers.insert("x-luat-fragment", "1");
            proof {
                reveal_strlit("x-luat-fragment");
                reveal_strlit("1");
            }
            LuatResponse::html_with_headers(response.status, html.as_str(), headers)
        },
        None => LuatResponse::json_with_headers(response.status, response.data, response.headers),
    }
}

} // verus!
