//! Claims of an access token, as plain values.

use vstd::prelude::*;

verus! {

/// Header fields of an access token.
pub struct AccessTokenHeader {
    pub kid: String,
    pub alg: String,
}

/// Payload claims of an access token.
pub struct AccessTokenPayload {
    pub origin_jti: String,
    pub sub: String,
    pub event_id: String,
    pub token_use: String,
    pub scope: String,
    pub auth_time: u64,
    pub iss: String,
    pub exp: u64,
    pub iat: u64,
    pub jti: String,
    pub client_id: String,
    pub username: String,
}

} // verus!
