//! The credential store interface and the login flow: the one path that
//! produces a token. A stored identity is looked up by email and secret;
//! the lookup deliberately does not say whether the email or the secret
//! failed, so login cannot be used to enumerate accounts.

use vstd::prelude::*;
use vstd::string::StrSliceExecFns;
use vstd::utf8::encode_utf8;

use crate::codec;
use crate::codec::{ascii_chars_of, ascii_seq, spec_issue};
use crate::error::AuthError;
use crate::role::{spec_parse_role, Role};

verus! {

/// A stored identity. The role is kept in its string form, as the store
/// holds it; it is parsed into a `Role` once, at issuance, and never again
/// past the codec boundary.
pub struct User {
    pub uid: String,
    pub email: String,
    pub pw: String,
    pub role: String,
}

/// The body of a login request.
pub struct LoginRequest {
    pub email: String,
    pub pw: String,
}

/// The body of a successful login response: the bearer token.
#[derive(Debug)]
pub struct LoginResponse {
    pub token: String,
}

/// A stored identity matches a credential pair when both the email and the
/// secret agree.
pub open spec fn credentials_match(u: User, email: Seq<char>, pw: Seq<char>) -> bool {
    u.email@ == email && u.pw@ == pw
}

/// The index of the first stored identity that matches the credential
/// pair, if any does.
pub open spec fn spec_find_user(users: Seq<User>, email: Seq<char>, pw: Seq<char>) -> Option<int>
    decreases users.len(),
{
    if users.len() == 0 {
        None
    } else if credentials_match(users[0], email, pw) {
        Some(0)
    } else {
        match spec_find_user(users.drop_first(), email, pw) {
            None => None,
            Some(i) => Some(i + 1),
        }
    }
}

/// Looking for a match may start after any matchless prefix: the result is
/// the suffix's result, shifted back into place.
proof fn lemma_find_from(users: Seq<User>, email: Seq<char>, pw: Seq<char>, k: int)
    requires
        0 <= k <= users.len(),
        forall|j: int| 0 <= j < k ==> !credentials_match(#[trigger] users[j], email, pw),
    ensures
        spec_find_user(users, email, pw) == match spec_find_user(users.skip(k), email, pw) {
            None => None::<int>,
            Some(i) => Some(i + k),
        },
    decreases k,
{
    if k == 0 {
        assert(users.skip(0) =~= users);
    } else {
        lemma_find_from(users, email, pw, k - 1);
        let s1 = users.skip(k - 1);
        assert(s1[0] == users[k - 1]);
        assert(s1.drop_first() =~= users.skip(k));
    }
}

/// The demo credential store: two identities, a user and an admin. A real
/// deployment injects its own store; the auth subsystem only ever reads it.
pub fn init_users() -> (users: Vec<User>)
    ensures
        users@.len() == 2,
        users@[0].uid@ == "1"@,
        users@[0].email@ == "user@userland.com"@,
        users@[0].pw@ == "1234"@,
        users@[0].role@ == "User"@,
        users@[1].uid@ == "2"@,
        users@[1].email@ == "admin@adminaty.com"@,
        users@[1].pw@ == "4321"@,
        users@[1].role@ == "Admin"@,
{
    let mut users: Vec<User> = Vec::new();
    users.push(
        User {
            uid: String::from_str("1"),
            email: String::from_str("user@userland.com"),
            pw: String::from_str("1234"),
            role: String::from_str("User"),
        },
    );
    users.push(
        User {
            uid: String::from_str("2"),
            email: String::from_str("admin@adminaty.com"),
            pw: String::from_str("4321"),
            role: String::from_str("Admin"),
        },
    );
    users
}

/// Relies on std's `String::from_utf8`: bytes below 128 are valid UTF-8
/// and decode to one character per byte, with the same code point, so the
/// conversion cannot fail on them.
#[verifier::external_body]
fn string_of_ascii(v: Vec<u8>) -> (r: String)
    requires
        ascii_seq(v@),
    ensures
        r@ == ascii_chars_of(v@),
{
    String::from_utf8(v).expect("ASCII bytes are valid UTF-8")
}

/// Logs a credential pair in: the first matching stored identity gets a
/// token for its uid and role, valid from `now` for `ttl`. Any failure to
/// match — unknown email or wrong secret alike — is the one
/// indistinguishable `WrongCredentials`; a stored role string that names no
/// role is `InvalidRole`. No other outcome exists, and this is the only
/// path that produces a token.
pub fn login(users: &Vec<User>, req: &LoginRequest, now: u64, ttl: u64, key: &Vec<u8>) -> (r:
    Result<LoginResponse, AuthError>)
    requires
        now + ttl <= u64::MAX,
    ensures
        match spec_find_user(users@, req.email@, req.pw@) {
            None => (r matches Err(e) && e == AuthError::WrongCredentials),
            Some(i) => match spec_parse_role(users@[i].role@) {
                None => (r matches Err(e) && e == AuthError::InvalidRole),
                Some(role) => (r matches Ok(resp) && resp.token@ == ascii_chars_of(
                    spec_issue(encode_utf8(users@[i].uid@), role, (now + ttl) as u64, key@),
                )),
            },
        },
{
    let mut i: usize = 0;
    while i < users.len()
        invariant
            i <= users@.len(),
            now + ttl <= u64::MAX,
            forall|j: int| 0 <= j < i ==> !credentials_match(#[trigger] users@[j], req.email@, req.pw@),
        decreases users@.len() - i,
    {
        let u = &users[i];
        if u.email == req.email && u.pw == req.pw {
            proof {
                lemma_find_from(users@, req.email@, req.pw@, i as int);
                assert(users@.skip(i as int)[0] == users@[i as int]);
            }
            let role = match Role::parse(u.role.as_str()) {
                Err(e) => {
                    return Err(e);
                },
                Ok(role) => role,
            };
            let uid_bytes = u.uid.as_str().as_bytes_vec();
            let token_bytes = codec::issue(&uid_bytes, role, now, ttl, key);
            proof {
                codec::lemma_issue_ascii(
                    encode_utf8(users@[i as int].uid@),
                    role,
                    (now + ttl) as u64,
                    key@,
                );
            }
            let token = string_of_ascii(token_bytes);
            return Ok(LoginResponse { token });
        }
        i = i + 1;
    }
    proof {
        lemma_find_from(users@, req.email@, req.pw@, users@.len() as int);
        assert(users@.skip(users@.len() as int) =~= Seq::<User>::empty());
    }
    Err(AuthError::WrongCredentials)
}

} // verus!
