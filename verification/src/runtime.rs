//! What server code returns: the result of a page's `load` function and of
//! an API handler.

use vstd::prelude::*;
use crate::body::{json_string_object, string_object};
use crate::collections::{last_value, pair_views, StrMap};
use crate::response::{json_null, ActionResponse};

verus! {

/// What a `load` function returned.
#[derive(Debug, Clone)]
pub struct LoadResult {
    /// The props for the page.
    pub props: serde_json::Value,
    /// Where to redirect, if anywhere.
    pub redirect: Option<String>,
    /// The HTTP status, if set.
    pub status: Option<u16>,
}

impl Default for LoadResult {
    /// Empty props, no redirect, no status.
    fn default() -> (r: Self)
        ensures
            r.props == string_object(Seq::empty()),
            r.redirect is None,
            r.status is None,
    {
        let props = json_string_object(Vec::new());
        proof {
            assert(pair_views(Seq::<(String, String)>::empty()) =~= Seq::<(Seq<char>, Seq<char>)>::empty());
        }
        LoadResult { props, redirect: None, status: None }
    }
}

/// What an API handler returned.
#[derive(Debug, Clone)]
pub struct ApiResult {
    /// The HTTP status.
    pub status: u16,
    /// The JSON body.
    pub body: serde_json::Value,
    /// The headers.
    pub headers: StrMap,
}

/// The message for a method without handler.
pub open spec fn not_allowed_message(method: Seq<char>) -> Seq<char> {
    "Method "@ + method + " not allowed"@
}

impl Default for ApiResult {
    /// Status 200, a null body, no headers.
    fn default() -> (r: Self)
        ensures
            r.status == 200,
            r.headers.keys().len() == 0,
    {
        ApiResult { status: 200, body: json_null(), headers: StrMap::new() }
    }
}

impl ApiResult {
    /// A 405 answer whose body is `{"error": "Method <method> not allowed"}`.
    pub fn method_not_allowed(method: &str) -> (r: Self)
        ensures
            r.status == 405,
            r.body == string_object(seq![("error"@, not_allowed_message(method@))]),
            r.headers.keys().len() == 0,
    {
        let mut msg = String::new();
        msg.append("Method ");
        msg.append(method);
        msg.append(" not allowed");
        let mut pairs: Vec<(String, String)> = Vec::new();
        pairs.push((crate::text::owned("error"), msg));
        proof {
            assert(pair_views(pairs@) =~= seq![("error"@, not_allowed_message(method@))]);
        }
        ApiResult { status: 405, body: json_string_object(pairs), headers: StrMap::new() }
    }
}

/// The JSON object that `serde_json::Map` makes of these entries, inserted
/// in order, a later entry replacing an earlier one with the same key.
pub uninterp spec fn json_object(entries: Seq<(Seq<char>, serde_json::Value)>) -> serde_json::Value;

/// The views of (key, JSON value) entries.
pub open spec fn entry_views(v: Seq<(String, serde_json::Value)>) -> Seq<(Seq<char>, serde_json::Value)> {
    v.map_values(|p: (String, serde_json::Value)| (p.0@, p.1))
}

/// Inserts the entries into a `serde_json::Map`, in order, and makes it a
/// JSON object: the named object.
#[verifier::external_body]
pub(crate) fn object_of(entries: Vec<(String, serde_json::Value)>) -> (r: serde_json::Value)
    ensures
        r == json_object(entry_views(entries@)),
{
    let mut map = serde_json::Map::new();
    for (k, v) in entries {
        map.insert(k, v);
    }
    serde_json::Value::Object(map)
}

/// A table that server code returned, as plain values: the fields that
/// decide the result, and every field with a string or integer key.
#[derive(Debug, Clone)]
pub struct ReturnedTable {
    /// The `status` field, when it is a status code.
    pub status: Option<u16>,
    /// Whether the `__fail` field is set (a table made by `fail`).
    pub fail: bool,
    /// The string pairs of the `headers` table, in the order read.
    pub headers: Vec<(String, String)>,
    /// The `redirect` field, when it is a string.
    pub redirect: Option<String>,
    /// The `body` field as JSON, when it is not nil.
    pub body: Option<serde_json::Value>,
    /// Every field with a string or integer key (the integer written in
    /// decimal), as JSON.
    pub fields: Vec<(String, serde_json::Value)>,
}

/// What server code returned.
#[derive(Debug, Clone)]
pub enum Returned {
    /// A table.
    Table(ReturnedTable),
    /// `nil`, or nothing.
    Nil,
    /// Any other value, as JSON.
    Other(serde_json::Value),
}

/// The fields of `fields` whose key is not in `exclude`, in order.
pub open spec fn without_keys(fields: Seq<(Seq<char>, serde_json::Value)>, exclude: Seq<Seq<char>>) -> Seq<(Seq<char>, serde_json::Value)>
    decreases fields.len(),
{
    if fields.len() == 0 {
        Seq::empty()
    } else {
        let rest = without_keys(fields.drop_last(), exclude);
        if exclude.contains(fields.last().0) { rest } else { rest.push(fields.last()) }
    }
}

/// The fields whose key is not one of `exclude`, in order.
fn fields_without(fields: &Vec<(String, serde_json::Value)>, exclude: &Vec<&str>) -> (r: Vec<(String, serde_json::Value)>)
    ensures
        entry_views(r@) == without_keys(entry_views(fields@), exclude@.map_values(|e: &str| e@)),
{
    let ghost ex = exclude@.map_values(|e: &str| e@);
    let ghost fv = entry_views(fields@);
    let mut r: Vec<(String, serde_json::Value)> = Vec::new();
    let mut i: usize = 0;
    while i < fields.len()
        invariant
            i <= fields@.len(),
            ex == exclude@.map_values(|e: &str| e@),
            fv == entry_views(fields@),
            entry_views(r@) == without_keys(fv.take(i as int), ex),
        decreases fields@.len() - i,
    {
        let key = fields[i].0.as_str();
        let mut excluded = false;
        let mut j: usize = 0;
        while j < exclude.len()
            invariant
                j <= exclude@.len(),
                ex == exclude@.map_values(|e: &str| e@),
                excluded <==> exists|m: int| 0 <= m < j && ex[m] == key@,
            decreases exclude@.len() - j,
        {
            proof {
                assert(ex[j as int] == exclude@[j as int]@);
            }
            if crate::ast::str_eq(exclude[j], key) {
                excluded = true;
            }
            j = j + 1;
        }
        proof {
            assert(fv.take(i + 1).drop_last() =~= fv.take(i as int));
            assert(fv.take(i + 1).last() == (key@, fields@[i as int].1));
            assert(excluded <==> ex.contains(key@));
        }
        if !excluded {
            let ghost before = entry_views(r@);
            r.push((crate::text::owned(key), fields[i].1.clone()));
            proof {
                assert(entry_views(r@) =~= before.push((key@, fields@[i as int].1)));
            }
        }
        i = i + 1;
    }
    proof {
        assert(fv.take(i as int) =~= fv);
    }
    r
}

/// `redirect` and `status`.
pub open spec fn load_controls() -> Seq<Seq<char>> {
    seq!["redirect"@, "status"@]
}

/// What a `load` function's return value gives: of a table, its redirect,
/// its status and its other fields as props; of another value, that value
/// as props; of nil, the empty result.
pub fn load_result_of(ret: Returned) -> (r: LoadResult)
    ensures
        match ret {
            Returned::Table(t) => r.redirect == t.redirect && r.status == t.status
                && r.props == json_object(without_keys(entry_views(t.fields@), load_controls())),
            Returned::Nil => r.redirect is None && r.status is None && r.props == string_object(Seq::empty()),
            Returned::Other(v) => r.redirect is None && r.status is None && r.props == v,
        },
{
    match ret {
        Returned::Table(t) => {
            let exclude: Vec<&str> = vec!["redirect", "status"];
            proof {
                reveal_strlit("redirect");
                reveal_strlit("status");
                assert(exclude@.map_values(|e: &str| e@) =~= load_controls());
            }
            let props = object_of(fields_without(&t.fields, &exclude));
            LoadResult { props, redirect: t.redirect, status: t.status }
        },
        Returned::Nil => LoadResult::default(),
        Returned::Other(v) => LoadResult { props: v, redirect: None, status: None },
    }
}

/// `Location`.
pub open spec fn location_header() -> Seq<char> {
    "Location"@
}

/// The headers of a returned table: its header pairs, the last of a name
/// winning, and `Location` set to its redirect when it has one.
pub open spec fn returned_headers(t: ReturnedTable, k: Seq<char>) -> Option<Seq<char>> {
    match t.redirect {
        Some(loc) => if k == location_header() { Some(loc@) } else { last_value(pair_views(t.headers@), k) },
        None => last_value(pair_views(t.headers@), k),
    }
}

/// The headers of a returned table, given its header pairs and redirect,
/// with `Location` for its redirect.
fn headers_of(headers: Vec<(String, String)>, redirect: &Option<String>) -> (h: StrMap)
    ensures
        h.wf(),
        forall|k: Seq<char>| #[trigger] h.lookup(k) == match *redirect {
            Some(loc) => if k == location_header() { Some(loc@) } else { last_value(pair_views(headers@), k) },
            None => last_value(pair_views(headers@), k),
        },
{
    let mut h = StrMap::from_pairs(headers);
    match redirect {
        Some(loc) => {
            let ghost before = h;
            h.insert("Location", loc.as_str());
            proof {
                reveal_strlit("Location");
                assert forall|k: Seq<char>| k != location_header() implies #[trigger] h.lookup(k) == before.lookup(k) by {}
            }
        },
        None => {},
    }
    h
}

/// The status of a returned table given its own or default status: a
/// redirect turns 200 into 302.
pub open spec fn redirect_status(t: ReturnedTable, status: u16) -> u16 {
    if t.redirect is Some && status == 200 { 302 } else { status }
}

/// What an API handler's return value gives: of a table, its status (200
/// by default, 302 for a redirect), its `body` field (null when absent) and
/// its headers with `Location` for a redirect; 204 for nil; any other value
/// as a 200 body.
pub fn api_result_of(ret: Returned) -> (r: ApiResult)
    ensures
        r.headers.wf(),
        match ret {
            Returned::Table(t) => {
                &&& r.status == redirect_status(t, match t.status { Some(s) => s, None => 200u16 })
                &&& (t.body matches Some(b) ==> r.body == b)
                &&& forall|k: Seq<char>| #[trigger] r.headers.lookup(k) == returned_headers(t, k)
            },
            Returned::Nil => r.status == 204 && r.headers.keys().len() == 0,
            Returned::Other(v) => r.status == 200 && r.body == v && r.headers.keys().len() == 0,
        },
{
    match ret {
        Returned::Table(t) => {
            let status0: u16 = match t.status {
                Some(s) => s,
                None => 200,
            };
            let ghost t0 = t;
            let status: u16 = if t.redirect.is_some() && status0 == 200 { 302 } else { status0 };
            let headers = headers_of(t.headers, &t.redirect);
            proof {
                assert forall|k: Seq<char>| #[trigger] headers.lookup(k) == returned_headers(t0, k) by {}
            }
            let body = match t.body {
                Some(b) => b,
                None => json_null(),
            };
            ApiResult { status, body, headers }
        },
        Returned::Nil => ApiResult { status: 204, body: json_null(), headers: StrMap::new() },
        Returned::Other(v) => ApiResult { status: 200, body: v, headers: StrMap::new() },
    }
}

/// `__fail`, `status`, `headers`, `body` and `redirect`.
pub open spec fn action_controls() -> Seq<Seq<char>> {
    seq!["__fail"@, "status"@, "headers"@, "body"@, "redirect"@]
}

/// What an action handler's return value gives: of a table, its status
/// (400 for a failure without one, else 200; 302 for a redirect), its
/// headers with `Location` for a redirect, and its `body` field or else its
/// other fields as data; 204 for nil; any other value as 200 data.
pub fn action_response_of(ret: Returned) -> (r: ActionResponse)
    ensures
        r.headers.wf(),
        match ret {
            Returned::Table(t) => {
                &&& r.status == redirect_status(t, match t.status {
                    Some(s) => s,
                    None => if t.fail { 400u16 } else { 200u16 },
                })
                &&& r.data == match t.body {
                    Some(b) => b,
                    None => json_object(without_keys(entry_views(t.fields@), action_controls())),
                }
                &&& forall|k: Seq<char>| #[trigger] r.headers.lookup(k) == returned_headers(t, k)
            },
            Returned::Nil => r.status == 204 && r.headers.keys().len() == 0,
            Returned::Other(v) => r.status == 200 && r.data == v && r.headers.keys().len() == 0,
        },
{
    match ret {
        Returned::Table(t) => {
            let status0: u16 = match t.status {
                Some(s) => s,
                None => if t.fail { 400 } else { 200 },
            };
            let ghost t0 = t;
            let status: u16 = if t.redirect.is_some() && status0 == 200 { 302 } else { status0 };
            let headers = headers_of(t.headers, &t.redirect);
            proof {
                assert forall|k: Seq<char>| #[trigger] headers.lookup(k) == returned_headers(t0, k) by {}
            }
            let data = match t.body {
                Some(b) => b,
                None => {
                    let exclude: Vec<&str> = vec!["__fail", "status", "headers", "body", "redirect"];
                    proof {
                        reveal_strlit("__fail");
                        reveal_strlit("status");
                        reveal_strlit("headers");
                        reveal_strlit("body");
                        reveal_strlit("redirect");
                        assert(exclude@.map_values(|e: &str| e@) =~= action_controls());
                    }
                    object_of(fields_without(&t.fields, &exclude))
                },
            };
            ActionResponse { status, headers, data }
        },
        Returned::Nil => ActionResponse::new(204, json_null()),
        Returned::Other(v) => ActionResponse::new(200, v),
    }
}

} // verus!
