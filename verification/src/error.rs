//! The closed failure taxonomy of the auth subsystem, and its mapping to
//! HTTP status codes, stable machine-readable codes, and external messages.
//!
//! Every authentication failure maps to 401 with the uniform external
//! message, so a caller cannot tell which check failed; only a role
//! mismatch (the caller is authenticated but lacks privilege) maps to 403.

use vstd::prelude::*;

verus! {

/// Every way the auth subsystem can reject a request.
#[derive(Clone, Copy, PartialEq, Eq, Structural, Debug)]
pub enum AuthError {
    /// Login credentials did not match any stored identity.
    WrongCredentials,
    /// A protected request carried no authorization header.
    NoAuthHeader,
    /// The authorization header is not in the `Bearer <token>` scheme.
    InvalidAuthHeader,
    /// The presented token does not have the expected structure.
    MalformedToken,
    /// The token's signature does not match the recomputed one.
    BadSignature,
    /// The token's expiry lies in the past.
    Expired,
    /// An embedded or stored role string is not a recognized role.
    InvalidRole,
    /// The token is valid but its role is not the one the endpoint requires.
    InsufficientRole,
}

/// The HTTP status a failure maps to.
pub open spec fn spec_status_of(e: AuthError) -> u16 {
    match e {
        AuthError::InsufficientRole => 403,
        AuthError::InvalidRole => 500,
        _ => 401,
    }
}

impl AuthError {
    /// Maps the failure to its HTTP status code: 401 for every
    /// authentication failure, 403 for a privilege failure, 500 for a role
    /// string this system itself must have corrupted or misconfigured.
    pub fn status(&self) -> (s: u16)
        ensures
            s == spec_status_of(*self),
    {
        match self {
            AuthError::InsufficientRole => 403,
            AuthError::InvalidRole => 500,
            _ => 401,
        }
    }

    /// The distinct internal code of the failure, for logging and telemetry.
    pub fn code(&self) -> (s: String)
        ensures
            s@ == spec_code_chars(*self),
    {
        match self {
            AuthError::WrongCredentials => String::from_str("wrong_credentials"),
            AuthError::NoAuthHeader => String::from_str("no_auth_header"),
            AuthError::InvalidAuthHeader => String::from_str("invalid_auth_header"),
            AuthError::MalformedToken => String::from_str("malformed_token"),
            AuthError::BadSignature => String::from_str("bad_signature"),
            AuthError::Expired => String::from_str("expired"),
            AuthError::InvalidRole => String::from_str("invalid_role"),
            AuthError::InsufficientRole => String::from_str("insufficient_role"),
        }
    }

    /// The external message: uniform for all 401 failures, so the response
    /// does not leak which check failed; explicit for a role mismatch, since
    /// that caller is already authenticated; generic for internal failures.
    pub fn message(&self) -> (s: String)
        ensures
            s@ == spec_message_chars(*self),
    {
        match self {
            AuthError::InsufficientRole => String::from_str("insufficient role"),
            AuthError::InvalidRole => String::from_str("internal error"),
            _ => String::from_str("unauthorized"),
        }
    }
}

/// The distinct internal code of each failure.
pub open spec fn spec_code_chars(e: AuthError) -> Seq<char> {
    match e {
        AuthError::WrongCredentials => "wrong_credentials"@,
        AuthError::NoAuthHeader => "no_auth_header"@,
        AuthError::InvalidAuthHeader => "invalid_auth_header"@,
        AuthError::MalformedToken => "malformed_token"@,
        AuthError::BadSignature => "bad_signature"@,
        AuthError::Expired => "expired"@,
        AuthError::InvalidRole => "invalid_role"@,
        AuthError::InsufficientRole => "insufficient_role"@,
    }
}

/// The external message of each failure.
pub open spec fn spec_message_chars(e: AuthError) -> Seq<char> {
    match e {
        AuthError::InsufficientRole => "insufficient role"@,
        AuthError::InvalidRole => "internal error"@,
        _ => "unauthorized"@,
    }
}

/// The internal codes are pairwise distinct: the code identifies the
/// failure exactly, even though the external 401 message is uniform.
pub proof fn lemma_codes_distinct(e1: AuthError, e2: AuthError)
    requires
        spec_code_chars(e1) == spec_code_chars(e2),
    ensures
        e1 == e2,
{
    reveal_strlit("wrong_credentials");
    reveal_strlit("no_auth_header");
    reveal_strlit("invalid_auth_header");
    reveal_strlit("malformed_token");
    reveal_strlit("bad_signature");
    reveal_strlit("expired");
    reveal_strlit("invalid_role");
    reveal_strlit("insufficient_role");
    assert("wrong_credentials"@.len() == 17);
    assert("no_auth_header"@.len() == 14);
    assert("invalid_auth_header"@.len() == 19);
    assert("malformed_token"@.len() == 15);
    assert("bad_signature"@.len() == 13);
    assert("expired"@.len() == 7);
    assert("invalid_role"@.len() == 12);
    assert("insufficient_role"@.len() == 17);
    assert("wrong_credentials"@[0] == 'w');
    assert("insufficient_role"@[0] == 'i');
}

} // verus!
