//! The admission guard: the interceptor placed in front of a protected
//! endpoint. It extracts the bearer token from the authorization header,
//! verifies it, checks the decoded role against the role the endpoint
//! requires, and either yields the caller's subject or rejects the request.

use vstd::prelude::*;

use crate::codec;
use crate::codec::spec_verify;
use crate::error::AuthError;
use crate::role::Role;

verus! {

/// The bytes of the `Bearer ` scheme prefix.
pub open spec fn bearer_prefix() -> Seq<u8> {
    seq![66u8, 101u8, 97u8, 114u8, 101u8, 114u8, 32u8]
}

/// The header names the bearer scheme.
pub open spec fn is_bearer(h: Seq<u8>) -> bool {
    h.len() >= 7 && h.subrange(0, 7) == bearer_prefix()
}

/// The token a bearer header presents: everything after the scheme prefix.
pub open spec fn bearer_token(h: Seq<u8>) -> Seq<u8> {
    h.skip(7)
}

/// The bytes of an optional header.
pub open spec fn header_view(h: Option<&Vec<u8>>) -> Option<Seq<u8>> {
    match h {
        None => None,
        Some(v) => Some(v@),
    }
}

/// What admission yields for a required role, an optional authorization
/// header, the current time and the signing key. A missing header and a
/// header outside the bearer scheme are rejected with their own kinds; a
/// failure of token verification is passed on unchanged; a verified caller
/// whose role is not exactly the required one is rejected with
/// `InsufficientRole`; otherwise the caller's subject is admitted.
pub open spec fn spec_authorize(
    required: Role,
    header: Option<Seq<u8>>,
    now: u64,
    key: Seq<u8>,
) -> Result<Seq<u8>, AuthError> {
    match header {
        None => Err(AuthError::NoAuthHeader),
        Some(h) => if !is_bearer(h) {
            Err(AuthError::InvalidAuthHeader)
        } else {
            match spec_verify(bearer_token(h), now, key) {
                Err(e) => Err(e),
                Ok(c) => if c.role != required {
                    Err(AuthError::InsufficientRole)
                } else {
                    Ok(c.subject)
                },
            }
        },
    }
}

/// Admits or rejects one request against the role the endpoint requires,
/// exactly as `spec_authorize` reads it. On success the returned subject is
/// the only thing the guard passes downstream.
pub fn authorize(required: Role, header: Option<&Vec<u8>>, now: u64, key: &Vec<u8>) -> (r: Result<
    Vec<u8>,
    AuthError,
>)
    ensures
        match r {
            Ok(subject) => spec_authorize(required, header_view(header), now, key@) == Ok::<
                Seq<u8>,
                AuthError,
            >(subject@),
            Err(e) => spec_authorize(required, header_view(header), now, key@) == Err::<
                Seq<u8>,
                AuthError,
            >(e),
        },
{
    let h = match header {
        None => {
            return Err(AuthError::NoAuthHeader);
        },
        Some(h) => h,
    };
    if h.len() < 7 || h[0] != 66 || h[1] != 101 || h[2] != 97 || h[3] != 114 || h[4] != 101 || h[5]
        != 114 || h[6] != 32 {
        proof {
            if h@.len() >= 7 {
                assert(h@.subrange(0, 7)[0] == h@[0]);
                assert(h@.subrange(0, 7)[1] == h@[1]);
                assert(h@.subrange(0, 7)[2] == h@[2]);
                assert(h@.subrange(0, 7)[3] == h@[3]);
                assert(h@.subrange(0, 7)[4] == h@[4]);
                assert(h@.subrange(0, 7)[5] == h@[5]);
                assert(h@.subrange(0, 7)[6] == h@[6]);
            }
        }
        return Err(AuthError::InvalidAuthHeader);
    }
    proof {
        assert(h@.subrange(0, 7) =~= bearer_prefix());
    }
    let token = codec::subrange_vec(h, 7, h.len());
    proof {
        assert(token@ =~= bearer_token(h@));
    }
    match codec::verify(&token, now, key) {
        Err(e) => Err(e),
        Ok(c) => if c.role != required {
            Err(AuthError::InsufficientRole)
        } else {
            Ok(c.subject)
        },
    }
}

/// Role gating: a verified token whose role is not exactly the role the
/// guard requires is always rejected with `InsufficientRole` — a user token
/// against an admin guard, an admin token against a user guard; neither
/// role implies the other.
pub proof fn lemma_role_gating(required: Role, h: Seq<u8>, now: u64, key: Seq<u8>)
    requires
        is_bearer(h),
        spec_verify(bearer_token(h), now, key) is Ok,
        spec_verify(bearer_token(h), now, key).unwrap().role != required,
    ensures
        spec_authorize(required, Some(h), now, key) == Err::<Seq<u8>, AuthError>(
            AuthError::InsufficientRole,
        ),
{
}

/// A verified token whose role is exactly the required one is always
/// admitted, and what the guard forwards is the token's own subject.
pub proof fn lemma_role_admits(required: Role, h: Seq<u8>, now: u64, key: Seq<u8>)
    requires
        is_bearer(h),
        spec_verify(bearer_token(h), now, key) is Ok,
        spec_verify(bearer_token(h), now, key).unwrap().role == required,
    ensures
        spec_authorize(required, Some(h), now, key) == Ok::<Seq<u8>, AuthError>(
            spec_verify(bearer_token(h), now, key).unwrap().subject,
        ),
{
}

} // verus!
