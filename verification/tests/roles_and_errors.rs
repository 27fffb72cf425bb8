use bearer_auth::error::AuthError;
use bearer_auth::role::Role;

#[test]
fn role_encoding_round_trips() {
    assert_eq!(Role::parse(Role::User.encode().as_str()).unwrap(), Role::User);
    assert_eq!(Role::parse(Role::Admin.encode().as_str()).unwrap(), Role::Admin);
    assert_eq!(Role::User.encode(), "User");
    assert_eq!(Role::Admin.encode(), "Admin");
}

#[test]
fn role_parsing_is_exact() {
    for s in ["user", "ADMIN", "", "Root", "User ", " Admin", "Users"] {
        assert_eq!(Role::parse(s).unwrap_err(), AuthError::InvalidRole);
    }
}

#[test]
fn every_failure_has_its_status() {
    assert_eq!(AuthError::WrongCredentials.status(), 401);
    assert_eq!(AuthError::NoAuthHeader.status(), 401);
    assert_eq!(AuthError::InvalidAuthHeader.status(), 401);
    assert_eq!(AuthError::MalformedToken.status(), 401);
    assert_eq!(AuthError::BadSignature.status(), 401);
    assert_eq!(AuthError::Expired.status(), 401);
    assert_eq!(AuthError::InsufficientRole.status(), 403);
    assert_eq!(AuthError::InvalidRole.status(), 500);
}

#[test]
fn unauthorized_message_is_uniform_and_codes_are_distinct() {
    let all = [
        AuthError::WrongCredentials,
        AuthError::NoAuthHeader,
        AuthError::InvalidAuthHeader,
        AuthError::MalformedToken,
        AuthError::BadSignature,
        AuthError::Expired,
        AuthError::InvalidRole,
        AuthError::InsufficientRole,
    ];
    for e in all {
        if e.status() == 401 {
            assert_eq!(e.message(), "unauthorized");
        }
    }
    assert_eq!(AuthError::InsufficientRole.message(), "insufficient role");
    assert_eq!(AuthError::InvalidRole.message(), "internal error");
    for a in all {
        for b in all {
            if a != b {
                assert_ne!(a.code(), b.code());
            }
        }
    }
    assert_eq!(AuthError::Expired.code(), "expired");
}
