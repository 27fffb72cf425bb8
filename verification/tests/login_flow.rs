use bearer_auth::account::{init_users, login, LoginRequest};
use bearer_auth::error::AuthError;
use bearer_auth::guard::authorize;
use bearer_auth::role::Role;

fn key() -> Vec<u8> {
    b"service signing key".to_vec()
}

fn request(email: &str, pw: &str) -> LoginRequest {
    LoginRequest { email: email.to_string(), pw: pw.to_string() }
}

#[test]
fn wrong_secret_and_unknown_email_are_indistinguishable() {
    let users = init_users();
    let key = key();
    let wrong_secret = login(&users, &request("user@userland.com", "9999"), 1000, 60, &key)
        .unwrap_err();
    let unknown_email = login(&users, &request("nobody@nowhere.com", "1234"), 1000, 60, &key)
        .unwrap_err();
    let unknown_any = login(&users, &request("nobody@nowhere.com", "whatever"), 1000, 60, &key)
        .unwrap_err();
    assert_eq!(wrong_secret, AuthError::WrongCredentials);
    assert_eq!(unknown_email, AuthError::WrongCredentials);
    assert_eq!(unknown_any, AuthError::WrongCredentials);
    assert_eq!(wrong_secret, unknown_email);
    assert_eq!(wrong_secret.status(), 401);
}

#[test]
fn end_to_end_user_scenario() {
    let users = init_users();
    let key = key();
    let now: u64 = 50_000;

    let resp = login(&users, &request("user@userland.com", "1234"), now, 3600, &key)
        .expect("login with the stored credentials succeeds");
    let header = format!("Bearer {}", resp.token).into_bytes();

    // the user endpoint admits the token and sees the caller's uid
    let subject = authorize(Role::User, Some(&header), now + 10, &key).unwrap();
    let uid = String::from_utf8(subject).unwrap();
    assert_eq!(uid, "1");
    assert_eq!(format!("Hello User {}", uid), "Hello User 1");

    // the same token against the admin endpoint is a 403
    let err = authorize(Role::Admin, Some(&header), now + 10, &key).unwrap_err();
    assert_eq!(err, AuthError::InsufficientRole);
    assert_eq!(err.status(), 403);
}

#[test]
fn end_to_end_admin_scenario() {
    let users = init_users();
    let key = key();
    let now: u64 = 50_000;

    let resp = login(&users, &request("admin@adminaty.com", "4321"), now, 3600, &key)
        .expect("login with the stored admin credentials succeeds");
    let header = format!("Bearer {}", resp.token).into_bytes();

    let subject = authorize(Role::Admin, Some(&header), now + 10, &key).unwrap();
    assert_eq!(subject, b"2".to_vec());

    let err = authorize(Role::User, Some(&header), now + 10, &key).unwrap_err();
    assert_eq!(err, AuthError::InsufficientRole);
}

#[test]
fn protected_route_without_header_is_401() {
    let key = key();
    let err = authorize(Role::User, None, 1000, &key).unwrap_err();
    assert_eq!(err.status(), 401);
    assert_eq!(err.message(), "unauthorized");
}

#[test]
fn login_token_respects_ttl() {
    let users = init_users();
    let key = key();
    let resp = login(&users, &request("user@userland.com", "1234"), 1000, 60, &key).unwrap();
    let header = format!("Bearer {}", resp.token).into_bytes();
    assert!(authorize(Role::User, Some(&header), 1060, &key).is_ok());
    assert_eq!(
        authorize(Role::User, Some(&header), 1061, &key).unwrap_err(),
        AuthError::Expired
    );
}

#[test]
fn stored_role_outside_the_model_is_invalid_role() {
    let mut users = init_users();
    users[0].role = "Root".to_string();
    let key = key();
    let err = login(&users, &request("user@userland.com", "1234"), 1000, 60, &key).unwrap_err();
    assert_eq!(err, AuthError::InvalidRole);
    assert_eq!(err.status(), 500);
}
