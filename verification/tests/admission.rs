use bearer_auth::codec::issue;
use bearer_auth::error::AuthError;
use bearer_auth::guard::authorize;
use bearer_auth::role::Role;

fn key() -> Vec<u8> {
    b"guard key".to_vec()
}

fn bearer(token: &[u8]) -> Vec<u8> {
    let mut h = b"Bearer ".to_vec();
    h.extend_from_slice(token);
    h
}

#[test]
fn missing_header_is_rejected_with_401() {
    let err = authorize(Role::User, None, 1000, &key()).unwrap_err();
    assert_eq!(err, AuthError::NoAuthHeader);
    assert_eq!(err.status(), 401);
}

#[test]
fn non_bearer_scheme_is_rejected() {
    let key = key();
    for header in [&b"Basic dXNlcjox"[..], b"bearer x", b"Bearer", b""] {
        let header = header.to_vec();
        let err = authorize(Role::User, Some(&header), 1000, &key).unwrap_err();
        assert_eq!(err, AuthError::InvalidAuthHeader);
        assert_eq!(err.status(), 401);
    }
}

#[test]
fn role_gating_is_exact_in_both_directions() {
    let key = key();
    let user_token = issue(&b"1".to_vec(), Role::User, 1000, 60, &key);
    let admin_token = issue(&b"2".to_vec(), Role::Admin, 1000, 60, &key);

    let user_header = bearer(&user_token);
    let admin_header = bearer(&admin_token);

    // the right role is admitted and the subject is forwarded
    assert_eq!(authorize(Role::User, Some(&user_header), 1010, &key).unwrap(), b"1".to_vec());
    assert_eq!(authorize(Role::Admin, Some(&admin_header), 1010, &key).unwrap(), b"2".to_vec());

    // a user token never satisfies an admin guard
    let err = authorize(Role::Admin, Some(&user_header), 1010, &key).unwrap_err();
    assert_eq!(err, AuthError::InsufficientRole);
    assert_eq!(err.status(), 403);

    // and an admin token does not implicitly satisfy a user guard
    let err = authorize(Role::User, Some(&admin_header), 1010, &key).unwrap_err();
    assert_eq!(err, AuthError::InsufficientRole);
    assert_eq!(err.status(), 403);
}

#[test]
fn guard_passes_codec_failures_through() {
    let key = key();
    let token = issue(&b"1".to_vec(), Role::User, 1000, 60, &key);
    let header = bearer(&token);

    assert_eq!(
        authorize(Role::User, Some(&header), 1061, &key).unwrap_err(),
        AuthError::Expired
    );

    let other_key = b"other key".to_vec();
    assert_eq!(
        authorize(Role::User, Some(&header), 1010, &other_key).unwrap_err(),
        AuthError::BadSignature
    );

    let garbage = bearer(b"not-a-token");
    assert_eq!(
        authorize(Role::User, Some(&garbage), 1010, &key).unwrap_err(),
        AuthError::MalformedToken
    );
}
