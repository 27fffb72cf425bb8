//! The role model: an enumerated set of permission levels with a canonical
//! string form. Decoding an unrecognized string is a hard failure; there is
//! no silent fallback to a default role.

use vstd::prelude::*;

use crate::error::AuthError;

verus! {

/// A permission level. Admission to a protected endpoint requires an exact
/// match with the role the endpoint declares; there is no hierarchy.
#[derive(Clone, Copy, PartialEq, Eq, Structural, Debug)]
pub enum Role {
    User,
    Admin,
}

/// The canonical string form of a role.
pub open spec fn spec_role_chars(r: Role) -> Seq<char> {
    match r {
        Role::User => "User"@,
        Role::Admin => "Admin"@,
    }
}

/// What parsing a role string yields: the unique role whose canonical form
/// the string is, if any.
pub open spec fn spec_parse_role(s: Seq<char>) -> Option<Role> {
    if s == "User"@ {
        Some(Role::User)
    } else if s == "Admin"@ {
        Some(Role::Admin)
    } else {
        None
    }
}

impl Role {
    /// Encodes the role as its canonical string.
    pub fn encode(&self) -> (s: String)
        ensures
            s@ == spec_role_chars(*self),
    {
        match self {
            Role::User => String::from_str("User"),
            Role::Admin => String::from_str("Admin"),
        }
    }

    /// Parses a role string; exactly the two canonical forms are accepted.
    pub fn parse(s: &str) -> (r: Result<Role, AuthError>)
        ensures
            match r {
                Ok(role) => spec_parse_role(s@) == Some(role),
                Err(e) => spec_parse_role(s@) is None && e == AuthError::InvalidRole,
            },
    {
        let owned = s.to_owned();
        if owned == String::from_str("User") {
            Ok(Role::User)
        } else if owned == String::from_str("Admin") {
            Ok(Role::Admin)
        } else {
            Err(AuthError::InvalidRole)
        }
    }
}

/// Encoding and parsing are mutual inverses: the canonical forms are
/// distinct, each parses to its own role, and anything that parses is a
/// canonical form.
pub proof fn lemma_role_round_trip(r: Role, s: Seq<char>)
    ensures
        spec_parse_role(spec_role_chars(r)) == Some(r),
        spec_parse_role(s) == Some(r) ==> s == spec_role_chars(r),
{
    reveal_strlit("User");
    reveal_strlit("Admin");
    assert("User"@.len() == 4);
    assert("Admin"@.len() == 5);
}

} // verus!
