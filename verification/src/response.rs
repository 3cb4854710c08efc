//! Responses: what handling a request answers, and what an action handler
//! answers.

use vstd::prelude::*;
use crate::collections::StrMap;
use crate::text::owned;

verus! {

/// A JSON `null` (`serde_json::Value::Null`); nothing is stated of the
/// opaque value.
#[verifier::external_body]
pub(crate) fn json_null() -> serde_json::Value {
    serde_json::Value::Null
}

/// The response to a request.
#[derive(Debug, Clone)]
pub enum LuatResponse {
    /// A rendered page.
    Html {
        /// HTTP status.
        status: u16,
        /// Headers.
        headers: StrMap,
        /// The HTML.
        body: String,
    },
    /// The answer of an API handler.
    Json {
        /// HTTP status.
        status: u16,
        /// Headers.
        headers: StrMap,
        /// The JSON body.
        body: serde_json::Value,
    },
    /// A redirect.
    Redirect {
        /// HTTP status (301, 302, 303, 307 or 308).
        status: u16,
        /// Where to go.
        location: String,
    },
    /// An error.
    Error {
        /// HTTP status.
        status: u16,
        /// What went wrong.
        message: String,
    },
}

/// The status of a response.
pub open spec fn response_status(r: LuatResponse) -> u16 {
    match r {
        LuatResponse::Html { status, .. } => status,
        LuatResponse::Json { status, .. } => status,
        LuatResponse::Redirect { status, .. } => status,
        LuatResponse::Error { status, .. } => status,
    }
}

impl LuatResponse {
    /// A page with `status` and `body`, without headers.
    pub fn html(status: u16, body: &str) -> (r: Self)
        ensures
            r matches LuatResponse::Html { status: s, headers, body: b } && s == status && b@ == body@ && headers.keys().len() == 0,
    {
        LuatResponse::Html { status, headers: StrMap::new(), body: owned(body) }
    }

    /// A page with `status`, `body` and `headers`.
    pub fn html_with_headers(status: u16, body: &str, headers: StrMap) -> (r: Self)
        ensures
            r matches LuatResponse::Html { status: s, headers: h, body: b } && s == status && b@ == body@ && h == headers,
    {
        LuatResponse::Html { status, headers, body: owned(body) }
    }

    /// A JSON answer with `status` and `body`, without headers.
    pub fn json(status: u16, body: serde_json::Value) -> (r: Self)
        ensures
            r matches LuatResponse::Json { status: s, headers, body: b } && s == status && b == body && headers.keys().len() == 0,
    {
        LuatResponse::Json { status, headers: StrMap::new(), body }
    }

    /// A JSON answer with `status`, `body` and `headers`.
    pub fn json_with_headers(status: u16, body: serde_json::Value, headers: StrMap) -> (r: Self)
        ensures
            r matches LuatResponse::Json { status: s, headers: h, body: b } && s == status && b == body && h == headers,
    {
        LuatResponse::Json { status, headers, body }
    }

    /// A redirect to `location` with status 302.
    pub fn redirect(location: &str) -> (r: Self)
        ensures
            r matches LuatResponse::Redirect { status, location: l } && status == 302 && l@ == location@,
    {
        LuatResponse::Redirect { status: 302, location: owned(location) }
    }

    /// A redirect to `location` with `status`.
    pub fn redirect_with_status(status: u16, location: &str) -> (r: Self)
        ensures
            r matches LuatResponse::Redirect { status: s, location: l } && s == status && l@ == location@,
    {
        LuatResponse::Redirect { status, location: owned(location) }
    }

    /// An error with `status` and `message`.
    pub fn error(status: u16, message: &str) -> (r: Self)
        ensures
            r matches LuatResponse::Error { status: s, message: m } && s == status && m@ == message@,
    {
        LuatResponse::Error { status, message: owned(message) }
    }

    /// A 404 error.
    pub fn not_found(message: &str) -> (r: Self)
        ensures
            r matches LuatResponse::Error { status: s, message: m } && s == 404 && m@ == message@,
    {
        Self::error(404, message)
    }

    /// A 500 error.
    pub fn internal_error(message: &str) -> (r: Self)
        ensures
            r matches LuatResponse::Error { status: s, message: m } && s == 500 && m@ == message@,
    {
        Self::error(500, message)
    }

    /// A 400 error.
    pub fn bad_request(message: &str) -> (r: Self)
        ensures
            r matches LuatResponse::Error { status: s, message: m } && s == 400 && m@ == message@,
    {
        Self::error(400, message)
    }

    /// The status.
    pub fn status(&self) -> (s: u16)
        ensures
            s == response_status(*self),
    {
        match self {
            LuatResponse::Html { status, .. } => *status,
            LuatResponse::Json { status, .. } => *status,
            LuatResponse::Redirect { status, .. } => *status,
            LuatResponse::Error { status, .. } => *status,
        }
    }

    /// Whether the status is 2xx.
    pub fn is_success(&self) -> (b: bool)
        ensures
            b == (200 <= response_status(*self) < 300),
    {
        let s = self.status();
        200 <= s && s < 300
    }

    /// Whether the status is 4xx or 5xx (400 and above).
    pub fn is_error(&self) -> (b: bool)
        ensures
            b == (response_status(*self) >= 400),
    {
        self.status() >= 400
    }

    /// Whether the status is 3xx.
    pub fn is_redirect(&self) -> (b: bool)
        ensures
            b == (300 <= response_status(*self) < 400),
    {
        let s = self.status();
        300 <= s && s < 400
    }

    /// The response with header `key` set to `value`; redirects and errors
    /// carry no headers and are returned as they are.
    pub fn with_header(self, key: &str, value: &str) -> (r: Self)
        ensures
            response_status(r) == response_status(self),
            match (self, r) {
                (LuatResponse::Html { headers: h0, body: b0, .. }, LuatResponse::Html { headers: h1, body: b1, .. }) =>
                    b1 == b0 && h1.lookup(key@) == Some(value@) && forall|k: Seq<char>| k != key@ ==> #[trigger] h1.lookup(k) == h0.lookup(k),
                (LuatResponse::Json { headers: h0, body: b0, .. }, LuatResponse::Json { headers: h1, body: b1, .. }) =>
                    b1 == b0 && h1.lookup(key@) == Some(value@) && forall|k: Seq<char>| k != key@ ==> #[trigger] h1.lookup(k) == h0.lookup(k),
                (LuatResponse::Redirect { .. }, _) => r == self,
                (LuatResponse::Error { .. }, _) => r == self,
                _ => false,
            },
    {
        match self {
            LuatResponse::Html { status, mut headers, body } => {
                proof {
                    use_type_invariant(&headers);
                }
                headers.insert(key, value);
                LuatResponse::Html { status, headers, body }
            },
            LuatResponse::Json { status, mut headers, body } => {
                proof {
                    use_type_invariant(&headers);
                }
                headers.insert(key, value);
                LuatResponse::Json { status, headers, body }
            },
            other => other,
        }
    }
}

impl Default for LuatResponse {
    fn default() -> (r: Self)
        ensures
            r matches LuatResponse::Html { status, headers, body } && status == 200 && body@.len() == 0 && headers.keys().len() == 0,
    {
        LuatResponse::Html { status: 200, headers: StrMap::new(), body: String::new() }
    }
}

/// What an action handler answers: status, headers, and data used as the
/// props of the action's template or sent as JSON.
#[derive(Debug, Clone)]
pub struct ActionResponse {
    /// HTTP status.
    pub status: u16,
    /// Headers, such as `HX-Redirect` or `Set-Cookie`.
    pub headers: StrMap,
    /// The data.
    pub data: serde_json::Value,
}

impl ActionResponse {
    /// A response with `status` and `data`, without headers.
    pub fn new(status: u16, data: serde_json::Value) -> (r: Self)
        ensures
            r.status == status,
            r.data == data,
            r.headers.keys().len() == 0,
            r.headers.wf(),
    {
        ActionResponse { status, headers: StrMap::new(), data }
    }

    /// A 200 response with `data`.
    pub fn ok(data: serde_json::Value) -> (r: Self)
        ensures
            r.status == 200,
            r.data == data,
            r.headers.keys().len() == 0,
    {
        Self::new(200, data)
    }

    /// A failed action with `status` and `data`.
    pub fn fail(status: u16, data: serde_json::Value) -> (r: Self)
        ensures
            r.status == status,
            r.data == data,
            r.headers.keys().len() == 0,
    {
        Self::new(status, data)
    }

    /// A 302 redirect to `url` (`Location` header), with null data.
    pub fn redirect(url: &str) -> (r: Self)
        ensures
            r.status == 302,
            r.headers.lookup("Location"@) == Some(url@),
            forall|k: Seq<char>| k != "Location"@ ==> #[trigger] r.headers.lookup(k) is None,
    {
        let mut headers = StrMap::new();
        proof {
            use_type_invariant(&headers);
            assert(forall|k: Seq<char>| #[trigger] headers.lookup(k) is None);
        }
        headers.insert("Location", url);
        ActionResponse { status: 302, headers, data: json_null() }
    }

    /// A 200 response that makes HTMX go to `url` (`HX-Redirect` header),
    /// with null data.
    pub fn htmx_redirect(url: &str) -> (r: Self)
        ensures
            r.status == 200,
            r.headers.lookup("HX-Redirect"@) == Some(url@),
            forall|k: Seq<char>| k != "HX-Redirect"@ ==> #[trigger] r.headers.lookup(k) is None,
    {
        let mut headers = StrMap::new();
        proof {
            use_type_invariant(&headers);
            assert(forall|k: Seq<char>| #[trigger] headers.lookup(k) is None);
        }
        headers.insert("HX-Redirect", url);
        ActionResponse { status: 200, headers, data: json_null() }
    }

    /// The response with header `key` set to `value`.
    pub fn with_header(self, key: &str, value: &str) -> (r: Self)
        ensures
            r.status == self.status,
            r.data == self.data,
            r.headers.lookup(key@) == Some(value@),
            forall|k: Seq<char>| k != key@ ==> #[trigger] r.headers.lookup(k) == self.headers.lookup(k),
    {
        let ActionResponse { status, mut headers, data } = self;
        proof {
            use_type_invariant(&headers);
        }
        headers.insert(key, value);
        ActionResponse { status, headers, data }
    }

    /// The response with every header of `headers` added, replacing those
    /// of the same name.
    pub fn with_headers(self, headers: StrMap) -> (r: Self)
        ensures
            r.status == self.status,
            r.data == self.data,
            forall|k: Seq<char>| #[trigger] r.headers.lookup(k) == (if headers.lookup(k) is Some {
                headers.lookup(k)
            } else {
                self.headers.lookup(k)
            }),
    {
        let ActionResponse { status, headers: mut own, data } = self;
        own.extend_from(&headers);
        ActionResponse { status, headers: own, data }
    }

    /// The response with status `status`.
    pub fn with_status(self, status: u16) -> (r: Self)
        ensures
            r.status == status,
            r.data == self.data,
            r.headers == self.headers,
    {
        ActionResponse { status, ..self }
    }

    /// Whether the status is 2xx.
    pub fn is_success(&self) -> (b: bool)
        ensures
            b == (200 <= self.status < 300),
    {
        200 <= self.status && self.status < 300
    }

    /// Whether the status is 3xx.
    pub fn is_redirect(&self) -> (b: bool)
        ensures
            b == (300 <= self.status < 400),
    {
        300 <= self.status && self.status < 400
    }

    /// Whether the status is 400 or above.
    pub fn is_error(&self) -> (b: bool)
        ensures
            b == (self.status >= 400),
    {
        self.status >= 400
    }
}

impl Default for ActionResponse {
    fn default() -> (r: Self)
        ensures
            r.status == 200,
            r.headers.keys().len() == 0,
    {
        Self::ok(json_null())
    }
}

} // verus!
