//! Cookie values. A cookie value is the client-facing form of a session
//! identifier; the identifier is recovered from it by a cryptographic
//! hash. Both directions live in the `async_session` crate and are relied
//! on here, not reproduced.
use crate::StoreError;
use vstd::prelude::*;

verus! {

/// The session identifier a cookie value decodes to, if the cookie value
/// is well-formed; the decoding is a function of the cookie value alone.
pub uninterp spec fn cookie_session_id(cookie: Seq<char>) -> Option<Seq<char>>;

/// Relies on `async_session::Session::id_from_cookie_value`: it
/// base64-decodes the cookie value, hashes, and re-encodes, a pure
/// function of its argument; it fails exactly where the cookie value does
/// not base64-decode.
#[verifier::external_body]
pub fn session_id_for_cookie(cookie: &str) -> (r: Result<String, StoreError>)
    ensures
        match r {
            Ok(id) => cookie_session_id(cookie@) == Some(id@),
            Err(e) => cookie_session_id(cookie@) is None && e == StoreError::InvalidCookie,
        },
{
    match async_session::Session::id_from_cookie_value(cookie) {
        Ok(id) => Ok(id),
        Err(_) => Err(StoreError::InvalidCookie),
    }
}

/// Relies on `async_session::Session::new`: a fresh session holds a newly
/// drawn cookie value whose decoded identifier is the session's own. The
/// pair is random; only that relation is assumed of it.
#[verifier::external_body]
pub fn generate_tokens() -> (r: (String, String))
    ensures
        cookie_session_id(r.1@) == Some(r.0@),
{
    let s = async_session::Session::new();
    let id = s.id().to_owned();
    let cookie = match s.into_cookie_value() {
        Some(c) => c,
        None => String::new(),
    };
    (id, cookie)
}

} // verus!
