//! What an action handler is given: the request as plain values.

use vstd::prelude::*;
use crate::collections::StrMap;
use crate::response::json_null;
use crate::text::owned;

verus! {

/// `s.to_uppercase()` by Unicode rules.
pub uninterp spec fn unicode_upper(s: Seq<char>) -> Seq<char>;

/// ASCII letters upper-cased, other characters kept.
pub open spec fn ascii_upper(s: Seq<char>) -> Seq<char> {
    s.map_values(|c: char| if 'a' <= c <= 'z' { ((c as u32) - 32) as char } else { c })
}

/// Every character is ASCII.
pub open spec fn all_ascii(s: Seq<char>) -> bool {
    forall|i: int| 0 <= i < s.len() ==> (s[i] as u32) < 128
}

/// `str::to_uppercase`: the result is named `unicode_upper`; for ASCII
/// text it is the ASCII upper case, as the Unicode tables give it.
#[verifier::external_body]
pub(crate) fn upper_case(s: &str) -> (r: String)
    ensures
        r@ == unicode_upper(s@),
        all_ascii(s@) ==> r@ == ascii_upper(s@),
{
    s.to_uppercase()
}

/// The request as an action handler sees it.
#[derive(Debug, Clone)]
pub struct ActionContext {
    /// HTTP method, upper case.
    pub method: String,
    /// The full request URL.
    pub url: String,
    /// Parameters of the dynamic route segments.
    pub params: StrMap,
    /// Query parameters, without the action name.
    pub query: StrMap,
    /// Request headers.
    pub headers: StrMap,
    /// The request body as JSON.
    pub body: serde_json::Value,
    /// The named action, if any.
    pub action_name: Option<String>,
    /// Request cookies.
    pub cookies: StrMap,
}

/// `default`.
pub open spec fn default_action() -> Seq<char> {
    "default"@
}

impl ActionContext {
    /// A context for `method` (upper-cased) and `url`, with nothing else
    /// set and a null body.
    pub fn new(method: &str, url: &str) -> (r: Self)
        ensures
            r.method@ == unicode_upper(method@),
            all_ascii(method@) ==> r.method@ == ascii_upper(method@),
            r.url@ == url@,
            r.params.keys().len() == 0,
            r.query.keys().len() == 0,
            r.headers.keys().len() == 0,
            r.cookies.keys().len() == 0,
            r.action_name is None,
    {
        ActionContext {
            method: upper_case(method),
            url: owned(url),
            params: StrMap::new(),
            query: StrMap::new(),
            headers: StrMap::new(),
            body: json_null(),
            action_name: None,
            cookies: StrMap::new(),
        }
    }

    /// The context with these route parameters.
    pub fn with_params(self, params: StrMap) -> (r: Self)
        ensures
            r == (ActionContext { params, ..self }),
    {
        ActionContext { params, ..self }
    }

    /// The context with these query parameters.
    pub fn with_query(self, query: StrMap) -> (r: Self)
        ensures
            r == (ActionContext { query, ..self }),
    {
        ActionContext { query, ..self }
    }

    /// The context with these headers.
    pub fn with_headers(self, headers: StrMap) -> (r: Self)
        ensures
            r == (ActionContext { headers, ..self }),
    {
        ActionContext { headers, ..self }
    }

    /// The context with this body.
    pub fn with_body(self, body: serde_json::Value) -> (r: Self)
        ensures
            r == (ActionContext { body, ..self }),
    {
        ActionContext { body, ..self }
    }

    /// The context with this action name.
    pub fn with_action(self, action_name: Option<String>) -> (r: Self)
        ensures
            r == (ActionContext { action_name, ..self }),
    {
        ActionContext { action_name, ..self }
    }

    /// The context with these cookies.
    pub fn with_cookies(self, cookies: StrMap) -> (r: Self)
        ensures
            r == (ActionContext { cookies, ..self }),
    {
        ActionContext { cookies, ..self }
    }

    /// The name of the handler to run: the action name, or `default`.
    pub fn effective_action_name(&self) -> (r: &str)
        ensures
            r@ == match self.action_name {
                Some(a) => a@,
                None => default_action(),
            },
    {
        match &self.action_name {
            Some(a) => a.as_str(),
            None => "default",
        }
    }
}

impl Default for ActionContext {
    fn default() -> (r: Self)
        ensures
            r.method@ == "POST"@,
            r.url@ == "/"@,
            r.action_name is None,
            r.params.keys().len() == 0,
            r.query.keys().len() == 0,
            r.headers.keys().len() == 0,
            r.cookies.keys().len() == 0,
    {
        proof {
            reveal_strlit("POST");
            assert(all_ascii("POST"@));
            assert(ascii_upper("POST"@) =~= "POST"@);
        }
        Self::new("POST", "/")
    }
}

} // verus!
