//! The request a server adapter hands to the engine.

use vstd::prelude::*;
use crate::collections::{entry_keys, StrMap};
use crate::text::{owned, starts_with, str_eq_ignore_ascii_case, str_starts_with, eq_ignore_ascii_case};
use vstd::string::StrSliceExecFns;
use vstd::utf8::valid_utf8;

verus! {

/// `serde_json::Value`.
#[verifier::external_type_specification]
#[verifier::external_body]
pub struct ExJsonValue(serde_json::Value);

/// `Clone` of `serde_json::Value` (derived): the copy equals the value.
pub assume_specification [<serde_json::Value as core::clone::Clone>::clone](v: &serde_json::Value) -> (r: serde_json::Value)
    ensures
        r == *v,
;

/// The value that `serde_json` reads from the text `s`, when it reads it
/// as one JSON value.
pub uninterp spec fn json_text_value(s: Seq<char>) -> Option<serde_json::Value>;

/// `std::str::from_utf8`: the text whose UTF-8 encoding `b` is, when `b` is
/// valid UTF-8.
#[verifier::external_body]
fn utf8_text(b: &[u8]) -> (r: Option<&str>)
    ensures
        r is Some <==> valid_utf8(b@),
        r matches Some(s) ==> vstd::utf8::encode_utf8(s@) == b@,
{
    std::str::from_utf8(b).ok()
}

/// `serde_json::from_str` into a `serde_json::Value`: its value, or none
/// where it fails (the name `json_text_value`).
#[verifier::external_body]
fn parse_json_value(s: &str) -> (r: Option<serde_json::Value>)
    ensures
        r == json_text_value(s@),
{
    serde_json::from_str(s).ok()
}

/// A request: path, method, headers, body, query parameters and cookies.
#[derive(Debug, Clone)]
pub struct LuatRequest {
    /// The request path, such as `/blog/hello`.
    pub path: String,
    /// The HTTP method, such as `GET`.
    pub method: String,
    /// The headers.
    pub headers: StrMap,
    /// The body, for methods that carry one.
    pub body: Option<Vec<u8>>,
    /// The query parameters.
    pub query: StrMap,
    /// The cookies.
    pub cookies: StrMap,
}

/// The first key of `keys` that starts with `/`, without the `/`.
pub open spec fn action_key(keys: Seq<Seq<char>>) -> Option<Seq<char>>
    decreases keys.len(),
{
    if keys.len() == 0 {
        None
    } else if keys[0].len() > 0 && keys[0][0] == '/' {
        Some(keys[0].drop_first())
    } else {
        action_key(keys.drop_first())
    }
}

impl LuatRequest {
    /// The value of the content type header: `content-type`, else
    /// `Content-Type`.
    pub open spec fn content_type_spec(&self) -> Option<Seq<char>> {
        match self.headers.lookup("content-type"@) {
            Some(v) => Some(v),
            None => self.headers.lookup("Content-Type"@),
        }
    }

    /// A request for `path` with `method`, with no headers, body, query or
    /// cookies.
    pub fn new(path: &str, method: &str) -> (r: Self)
        ensures
            r.path@ == path@,
            r.method@ == method@,
            r.headers.keys().len() == 0 && r.headers.wf(),
            r.body is None,
            r.query.keys().len() == 0 && r.query.wf(),
            r.cookies.keys().len() == 0 && r.cookies.wf(),
    {
        LuatRequest {
            path: owned(path),
            method: owned(method),
            headers: StrMap::new(),
            body: None,
            query: StrMap::new(),
            cookies: StrMap::new(),
        }
    }

    /// The request with `headers` in place of its headers.
    pub fn with_headers(self, headers: StrMap) -> (r: Self)
        ensures
            r == (LuatRequest { headers, ..self }),
    {
        LuatRequest { headers, ..self }
    }

    /// The request with `body` as its body.
    pub fn with_body(self, body: Vec<u8>) -> (r: Self)
        ensures
            r == (LuatRequest { body: Some(body), ..self }),
    {
        LuatRequest { body: Some(body), ..self }
    }

    /// The request with `query` in place of its query parameters.
    pub fn with_query(self, query: StrMap) -> (r: Self)
        ensures
            r == (LuatRequest { query, ..self }),
    {
        LuatRequest { query, ..self }
    }

    /// The request with `cookies` in place of its cookies.
    pub fn with_cookies(self, cookies: StrMap) -> (r: Self)
        ensures
            r == (LuatRequest { cookies, ..self }),
    {
        LuatRequest { cookies, ..self }
    }

    /// The body as text, when there is one and it is valid UTF-8.
    pub fn body_str(&self) -> (r: Option<&str>)
        ensures
            match self.body {
                None => r is None,
                Some(b) => if valid_utf8(b@) {
                    r matches Some(s) && vstd::utf8::encode_utf8(s@) == b@
                } else {
                    r is None
                },
            },
    {
        match &self.body {
            None => None,
            Some(b) => utf8_text(b.as_slice()),
        }
    }

    /// The body read as JSON, when it is text that `serde_json` accepts.
    pub fn body_json(&self) -> (r: Option<serde_json::Value>)
        ensures
            r == match self.body {
                None => None,
                Some(b) => if valid_utf8(b@) { json_text_value(vstd::utf8::decode_utf8(b@)) } else { None },
            },
    {
        match self.body_str() {
            None => None,
            Some(s) => {
                proof {
                    vstd::utf8::encode_utf8_decode_utf8(s@);
                }
                parse_json_value(s)
            },
        }
    }

    /// The `content-type` header, else the `Content-Type` header.
    pub fn content_type(&self) -> (r: Option<&str>)
        requires
            self.headers.wf(),
        ensures
            match self.content_type_spec() {
                None => r is None,
                Some(v) => r matches Some(s) && s@ == v,
            },
    {
        match self.headers.get("content-type") {
            Some(v) => Some(v.as_str()),
            None => match self.headers.get("Content-Type") {
                Some(v) => Some(v.as_str()),
                None => None,
            },
        }
    }

    /// A POST whose content type is a form encoding.
    pub fn is_form_submission(&self) -> (b: bool)
        requires
            self.headers.wf(),
        ensures
            b == (eq_ignore_ascii_case(self.method@, "POST"@) && match self.content_type_spec() {
                Some(ct) => starts_with(ct, "application/x-www-form-urlencoded"@) || starts_with(
                    ct,
                    "multipart/form-data"@,
                ),
                None => false,
            }),
    {
        str_eq_ignore_ascii_case(self.method.as_str(), "POST") && match self.content_type() {
            Some(ct) => str_starts_with(ct, "application/x-www-form-urlencoded") || str_starts_with(
                ct,
                "multipart/form-data",
            ),
            None => false,
        }
    }

    /// A request whose content type is JSON.
    pub fn is_json(&self) -> (b: bool)
        requires
            self.headers.wf(),
        ensures
            b == match self.content_type_spec() {
                Some(ct) => starts_with(ct, "application/json"@),
                None => false,
            },
    {
        match self.content_type() {
            Some(ct) => str_starts_with(ct, "application/json"),
            None => false,
        }
    }

    /// The action named by a query key of the form `/name` (`?/login`
    /// names `login`): the first such key in the order the query holds.
    pub fn action_name(&self) -> (r: Option<&str>)
        ensures
            match action_key(self.query.keys()) {
                None => r is None,
                Some(k) => r matches Some(s) && s@ == k,
            },
    {
        let entries = self.query.entries();
        let ghost keys = self.query.keys();
        let mut i: usize = 0;
        proof {
            assert(keys.skip(0) =~= keys);
        }
        while i < entries.len()
            invariant
                i <= entries@.len(),
                entry_keys(entries@) == keys,
                keys == self.query.keys(),
                action_key(keys) == action_key(keys.skip(i as int)),
            decreases entries@.len() - i,
        {
            let k = entries[i].0.as_str();
            proof {
                assert(keys[i as int] == k@);
                assert(keys.skip(i as int)[0] == k@);
                assert(keys.skip(i as int).drop_first() =~= keys.skip(i + 1));
            }
            let n = k.unicode_len();
            if n > 0 && k.get_char(0) == '/' {
                proof {
                    assert(k@.subrange(1, n as int) =~= k@.drop_first());
                }
                return Some(k.substring_char(1, n));
            }
            i = i + 1;
        }
        None
    }
}

impl Default for LuatRequest {
    fn default() -> (r: Self)
        ensures
            r.path@ == "/"@,
            r.method@ == "GET"@,
            r.headers.keys().len() == 0,
            r.body is None,
            r.query.keys().len() == 0,
            r.cookies.keys().len() == 0,
    {
        LuatRequest::new("/", "GET")
    }
}

} // verus!
