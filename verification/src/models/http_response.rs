//! The HTTP response shape the surrounding services answer with.

use vstd::prelude::*;

verus! {

/// Response headers; the one used carries cookies to set.
#[allow(non_snake_case)]
pub struct ResponseHeaders {
    pub Set_Cookie: Vec<String>,
}

/// One HTTP response: a status code, a body, and optional headers.
#[allow(non_snake_case)]
pub struct Response {
    pub statusCode: u16,
    pub body: String,
    pub multiValueHeaders: Option<ResponseHeaders>,
    pub headers: Option<ResponseHeaders>,
}

impl Response {
    /// The response body, as its own string.
    pub fn body_text(&self) -> (r: String)
        ensures
            r@ == self.body@,
    {
        self.body.clone()
    }
}

} // verus!
