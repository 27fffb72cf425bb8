use bearer_auth::codec::{issue, verify};
use bearer_auth::error::AuthError;
use bearer_auth::role::Role;

use hmac::{KeyInit, Mac};

fn key() -> Vec<u8> {
    b"test signing key".to_vec()
}

fn hex_of_bytes(bytes: &[u8]) -> String {
    let mut s = String::new();
    for b in bytes {
        let hi = b / 16;
        let lo = b % 16;
        for d in [hi, lo] {
            let c = if d < 10 { (b'0' + d) as char } else { (b'a' + d - 10) as char };
            s.push(c);
        }
    }
    s
}

#[test]
fn round_trip_within_window() {
    let key = key();
    let subject = b"1".to_vec();
    let token = issue(&subject, Role::User, 1000, 60, &key);
    for at in [1000u64, 1001, 1030, 1059] {
        let claims = verify(&token, at, &key).expect("token should verify inside its window");
        assert_eq!(claims.subject, subject);
        assert_eq!(claims.role, Role::User);
        assert_eq!(claims.exp, 1060);
    }
}

#[test]
fn round_trip_admin_and_odd_subjects() {
    let key = key();
    for subject in [b"".to_vec(), b"a.b".to_vec(), "uid-\u{00e9}42".as_bytes().to_vec()] {
        let token = issue(&subject, Role::Admin, 5, 10, &key);
        let claims = verify(&token, 7, &key).expect("token should verify");
        assert_eq!(claims.subject, subject);
        assert_eq!(claims.role, Role::Admin);
        assert_eq!(claims.exp, 15);
    }
}

#[test]
fn expiry_boundary_both_ways() {
    let key = key();
    let token = issue(&b"1".to_vec(), Role::User, 1000, 60, &key);
    // still valid exactly at the expiry instant, expired strictly after it
    assert!(verify(&token, 1059, &key).is_ok());
    assert!(verify(&token, 1060, &key).is_ok());
    assert_eq!(verify(&token, 1061, &key).unwrap_err(), AuthError::Expired);
    assert_eq!(verify(&token, u64::MAX, &key).unwrap_err(), AuthError::Expired);
}

#[test]
fn zero_ttl_token_is_valid_only_at_issuance() {
    let key = key();
    let token = issue(&b"1".to_vec(), Role::User, 1000, 0, &key);
    assert!(verify(&token, 1000, &key).is_ok());
    assert_eq!(verify(&token, 1001, &key).unwrap_err(), AuthError::Expired);
}

#[test]
fn wrong_key_fails_signature() {
    let token = issue(&b"1".to_vec(), Role::User, 1000, 60, &key());
    let other = b"another key".to_vec();
    assert_eq!(verify(&token, 1000, &other).unwrap_err(), AuthError::BadSignature);
}

#[test]
fn tampering_any_single_bit_fails() {
    let key = key();
    let token = issue(&b"7".to_vec(), Role::User, 1000, 60, &key);
    let original = verify(&token, 1000, &key).expect("valid token");
    for i in 0..token.len() {
        for bit in 0..8 {
            let mut flipped = token.clone();
            flipped[i] ^= 1u8 << bit;
            match verify(&flipped, 1000, &key) {
                Err(AuthError::MalformedToken) | Err(AuthError::BadSignature) => {}
                Err(other) => panic!("unexpected error kind {:?} at byte {} bit {}", other, i, bit),
                Ok(claims) => panic!(
                    "flipped token verified at byte {} bit {}: {:?} vs {:?}",
                    i, bit, claims, original
                ),
            }
        }
    }
}

#[test]
fn structurally_malformed_tokens() {
    let key = key();
    let cases: Vec<Vec<u8>> = vec![
        b"".to_vec(),
        b"abc".to_vec(),
        b"31.User".to_vec(),
        b"31.User.1060".to_vec(),
        b"31.User.1060.aa.bb".to_vec(),
        b"zz.User.1060.aabb".to_vec(),
        b"3.User.1060.aabb".to_vec(),
        b"3A.User.1060.aabb".to_vec(),
        b"31.User.01.aabb".to_vec(),
        b"31.User.1e3.aabb".to_vec(),
        b"31.User..aabb".to_vec(),
        b"31.User.99999999999999999999.aabb".to_vec(),
        b"31.User.1060.aGb".to_vec(),
    ];
    for token in cases {
        assert_eq!(
            verify(&token, 0, &key).unwrap_err(),
            AuthError::MalformedToken,
            "case {:?}",
            String::from_utf8_lossy(&token)
        );
    }
}

#[test]
fn signed_unknown_role_is_invalid_role() {
    let key = key();
    // assemble a token whose payload carries a role this system never
    // issues, signed with the real key, to reach the role check itself
    let payload = b"31.Root.1060".to_vec();
    let mut mac = <hmac::Hmac<sha2::Sha256> as KeyInit>::new_from_slice(&key).unwrap();
    mac.update(&payload);
    let tag = mac.finalize().into_bytes();
    let mut token = payload.clone();
    token.push(b'.');
    token.extend_from_slice(hex_of_bytes(&tag).as_bytes());
    assert_eq!(verify(&token, 1000, &key).unwrap_err(), AuthError::InvalidRole);
    // the same token past its expiry fails on expiry first
    assert_eq!(verify(&token, 2000, &key).unwrap_err(), AuthError::Expired);
}

#[test]
fn issued_token_shape_is_canonical() {
    let key = key();
    let token = issue(&b"1".to_vec(), Role::User, 1000, 60, &key);
    let text = String::from_utf8(token.clone()).expect("tokens are ASCII");
    let fields: Vec<&str> = text.split('.').collect();
    assert_eq!(fields.len(), 4);
    assert_eq!(fields[0], "31");
    assert_eq!(fields[1], "User");
    assert_eq!(fields[2], "1060");
    assert_eq!(fields[3].len(), 64);
    // the tag is exactly the HMAC-SHA256 of everything before the last dot
    let payload = b"31.User.1060".to_vec();
    let mut mac = <hmac::Hmac<sha2::Sha256> as KeyInit>::new_from_slice(&key).unwrap();
    mac.update(&payload);
    let tag = mac.finalize().into_bytes();
    assert_eq!(fields[3], hex_of_bytes(&tag));
}
