use auth_core::account::{login_attempt, public_view, register_request, CredentialRecord};
use auth_core::claims::{claims_to_json, parse_claims_bytes, Claims};
use auth_core::codec::{base64url_decode, base64url_encode};
use auth_core::errors::{AuthError, Rejection};
use auth_core::hasher::{hash_password, hashed_password_verifies, verify_password};
use auth_core::token::{
    authenticate, authenticate_at, bearer_header, generate_token, issue_at,
    issue_then_authenticate, AuthConfig,
};

fn test_config() -> AuthConfig {
    AuthConfig::new(Some("a-very-secret-signing-key".to_string())).unwrap()
}

fn other_config() -> AuthConfig {
    AuthConfig::new(Some("a-different-signing-key".to_string())).unwrap()
}

#[test]
fn hash_then_verify_succeeds() {
    let h = hash_password("secret123").unwrap();
    assert_eq!(verify_password("secret123", &h).unwrap(), true);
    assert_eq!(hashed_password_verifies("another pw").unwrap(), true);
}

#[test]
fn wrong_password_fails_verification() {
    let h = hash_password("secret123").unwrap();
    assert_eq!(verify_password("secret124", &h).unwrap(), false);
    assert_eq!(verify_password("", &h).unwrap(), false);
}

#[test]
fn same_password_hashes_differently_yet_both_verify() {
    let h1 = hash_password("secret123").unwrap();
    let h2 = hash_password("secret123").unwrap();
    assert_ne!(h1, h2);
    assert_eq!(verify_password("secret123", &h1).unwrap(), true);
    assert_eq!(verify_password("secret123", &h2).unwrap(), true);
}

#[test]
fn malformed_stored_hash_is_an_error_not_a_match() {
    assert_eq!(
        verify_password("secret123", "not-a-bcrypt-hash"),
        Err(AuthError::Hashing)
    );
}

#[test]
fn missing_secret_is_a_configuration_error() {
    assert!(matches!(
        AuthConfig::new(None),
        Err(AuthError::Configuration)
    ));
}

#[test]
fn issued_token_authenticates_with_matching_claims() {
    let cfg = test_config();
    let tok = issue_at(&cfg, 7, "alice@x.com", "alice", 1_000).unwrap();
    let header = format!("Bearer {}", tok);
    let claims = authenticate_at(Some(&header), &cfg, 2_000).unwrap();
    assert_eq!(claims.sub, 7);
    assert_eq!(claims.exp, 4_600);
    assert_eq!(claims.email, "alice@x.com");
    assert_eq!(claims.username, "alice");
}

#[test]
fn expired_token_is_rejected_as_expired() {
    let cfg = test_config();
    let tok = issue_at(&cfg, 7, "alice@x.com", "alice", 1_000).unwrap();
    let header = format!("Bearer {}", tok);
    // expiry is 4_600; at exactly the expiry instant the token is dead
    assert_eq!(
        authenticate_at(Some(&header), &cfg, 4_600),
        Err(AuthError::Unauthorized(Rejection::ExpiredToken))
    );
    assert_eq!(
        authenticate_at(Some(&header), &cfg, 1_000_000),
        Err(AuthError::Unauthorized(Rejection::ExpiredToken))
    );
    // one second before expiry it still works
    assert!(authenticate_at(Some(&header), &cfg, 4_599).is_ok());
}

#[test]
fn token_signed_with_other_secret_is_invalid() {
    let cfg = test_config();
    let other = other_config();
    let tok = issue_at(&other, 7, "alice@x.com", "alice", 1_000).unwrap();
    let header = format!("Bearer {}", tok);
    assert_eq!(
        authenticate_at(Some(&header), &cfg, 2_000),
        Err(AuthError::Unauthorized(Rejection::InvalidToken))
    );
}

#[test]
fn guard_rejects_missing_and_malformed_headers() {
    let cfg = test_config();
    assert_eq!(
        authenticate_at(None, &cfg, 0),
        Err(AuthError::Unauthorized(Rejection::MissingCredentials))
    );
    assert_eq!(
        authenticate_at(Some("Basic abc"), &cfg, 0),
        Err(AuthError::Unauthorized(Rejection::MissingCredentials))
    );
    assert_eq!(
        authenticate_at(Some("Bearer no-dots-here"), &cfg, 0),
        Err(AuthError::Unauthorized(Rejection::MalformedToken))
    );
    assert_eq!(
        authenticate_at(Some("Bearer a.b.c"), &cfg, 0),
        Err(AuthError::Unauthorized(Rejection::MalformedToken))
    );
}

#[test]
fn login_rejections_are_identical_for_unknown_email_and_wrong_password() {
    let cfg = test_config();
    let record = CredentialRecord {
        id: 1,
        username: "alice".to_string(),
        email: "alice@x.com".to_string(),
        password_hash: hash_password("right-password").unwrap(),
        created_at: 0,
    };
    let absent = login_attempt(None, "whatever", &cfg);
    let wrong = login_attempt(Some(record), "wrong-password", &cfg);
    assert_eq!(absent.unwrap_err(), wrong.unwrap_err());
    assert_eq!(
        login_attempt(None, "whatever", &cfg).unwrap_err(),
        AuthError::Unauthorized(Rejection::InvalidCredentials)
    );
}

#[test]
fn end_to_end_register_login_authenticate() {
    let cfg = test_config();
    let new_cred = register_request("alice", "alice@x.com", "secret123").unwrap();
    assert_eq!(new_cred.username, "alice");
    assert_eq!(new_cred.email, "alice@x.com");
    // only the hash is handed out for storage, never the plaintext
    assert_ne!(new_cred.password_hash, "secret123");

    let record = CredentialRecord {
        id: 42,
        username: new_cred.username.clone(),
        email: new_cred.email.clone(),
        password_hash: new_cred.password_hash.clone(),
        created_at: 123,
    };
    let view = public_view(&record);
    assert_eq!(view.id, 42);
    assert_eq!(view.username, "alice");
    assert_eq!(view.email, "alice@x.com");
    assert_eq!(view.created_at, 123);

    let success = login_attempt(Some(record), "secret123", &cfg).unwrap();
    assert_eq!(success.user_id, 42);
    assert_eq!(success.user_email, "alice@x.com");
    assert_eq!(success.user_username, "alice");

    let header = format!("Bearer {}", success.token);
    let claims = authenticate(Some(&header), &cfg).unwrap();
    assert_eq!(claims.sub, 42);
    assert_eq!(claims.email, "alice@x.com");
    assert_eq!(claims.username, "alice");

    let corrupted = format!("{}x", header);
    assert_eq!(
        authenticate(Some(&corrupted), &cfg).unwrap_err(),
        AuthError::Unauthorized(Rejection::InvalidToken)
    );
    assert_eq!(
        authenticate(None, &cfg).unwrap_err(),
        AuthError::Unauthorized(Rejection::MissingCredentials)
    );
}

#[test]
fn generate_token_uses_the_clock_and_authenticates_now() {
    let cfg = test_config();
    let tok = generate_token(&cfg, 9, "b@y.org".to_string(), "bob".to_string()).unwrap();
    let header = format!("Bearer {}", tok);
    let claims = authenticate(Some(&header), &cfg).unwrap();
    assert_eq!(claims.sub, 9);
    assert_eq!(claims.username, "bob");
}

#[test]
fn unauthorized_client_message_is_uniform() {
    let reasons = [
        Rejection::MissingCredentials,
        Rejection::MalformedToken,
        Rejection::InvalidToken,
        Rejection::ExpiredToken,
        Rejection::InvalidCredentials,
    ];
    for r in reasons {
        let e = AuthError::Unauthorized(r);
        assert_eq!(e.client_message(), "Invalid email or password");
        assert_eq!(e.status_code(), 401);
    }
    assert_eq!(AuthError::Conflict.status_code(), 409);
    assert_eq!(AuthError::Hashing.status_code(), 500);
}

#[test]
fn base64url_known_vectors_and_round_trip() {
    assert_eq!(base64url_encode(b"Man"), b"TWFu".to_vec());
    assert_eq!(base64url_encode(b"Ma"), b"TWE".to_vec());
    assert_eq!(base64url_encode(b"M"), b"TQ".to_vec());
    assert_eq!(base64url_encode(b""), Vec::<u8>::new());
    assert_eq!(base64url_encode(&[255]), b"_w".to_vec());
    assert_eq!(base64url_encode(&[251, 239]), b"--8".to_vec());
    for input in [
        b"".to_vec(),
        b"a".to_vec(),
        b"ab".to_vec(),
        b"abc".to_vec(),
        b"hello world, hello world".to_vec(),
        vec![0, 1, 2, 253, 254, 255],
    ] {
        let enc = base64url_encode(&input);
        assert_eq!(base64url_decode(&enc), Some(input));
    }
    assert_eq!(base64url_decode(b"a"), None);
    assert_eq!(base64url_decode(b"a*"), None);
    // non-canonical trailing bits are refused
    assert_eq!(base64url_decode(b"TR"), None);
}

#[test]
fn claims_json_exact_bytes_and_round_trip() {
    let c = Claims {
        sub: 1,
        exp: 2,
        email: "a".to_string(),
        username: "b".to_string(),
    };
    let bytes = claims_to_json(&c);
    assert_eq!(
        bytes,
        br#"{"sub":"1","exp":2,"email":"a","username":"b"}"#.to_vec()
    );
    let back = parse_claims_bytes(&bytes).unwrap();
    assert_eq!(back.sub, 1);
    assert_eq!(back.exp, 2);
    assert_eq!(back.email, "a");
    assert_eq!(back.username, "b");
}

#[test]
fn claims_json_escapes_and_round_trips_quotes_and_backslashes() {
    let c = Claims {
        sub: 2147483647,
        exp: 9223372036854775807,
        email: "a\"b\\c".to_string(),
        username: "x y~z".to_string(),
    };
    let bytes = claims_to_json(&c);
    let back = parse_claims_bytes(&bytes).unwrap();
    assert_eq!(back.sub, 2147483647);
    assert_eq!(back.exp, 9223372036854775807);
    assert_eq!(back.email, "a\"b\\c");
    assert_eq!(back.username, "x y~z");
}

#[test]
fn claims_parser_rejects_non_canonical_input() {
    assert!(parse_claims_bytes(b"").is_none());
    assert!(parse_claims_bytes(b"{}").is_none());
    assert!(parse_claims_bytes(br#"{"sub":"x","exp":2,"email":"a","username":"b"}"#).is_none());
    assert!(parse_claims_bytes(br#"{"sub":"1","exp":-2,"email":"a","username":"b"}"#).is_none());
    assert!(parse_claims_bytes(br#"{"exp":2,"sub":"1","email":"a","username":"b"}"#).is_none());
    assert!(
        parse_claims_bytes(br#"{"sub":"1","exp":2,"email":"a","username":"b"} "#).is_none()
    );
    // sub beyond the identity range is refused
    assert!(
        parse_claims_bytes(br#"{"sub":"2147483648","exp":2,"email":"a","username":"b"}"#)
            .is_none()
    );
}

#[test]
fn bearer_header_prefixes_the_scheme() {
    assert_eq!(bearer_header("abc.def.ghi"), "Bearer abc.def.ghi");
}

#[test]
fn issue_then_authenticate_round_trips_in_one_call() {
    let cfg = test_config();
    let claims = issue_then_authenticate(&cfg, 5, "e@x.com", "eve", 10_000, 13_599).unwrap();
    assert_eq!(claims.sub, 5);
    assert_eq!(claims.exp, 13_600);
    assert_eq!(claims.email, "e@x.com");
    assert_eq!(claims.username, "eve");
}

#[test]
fn login_with_corrupt_stored_hash_is_a_primitive_failure() {
    let cfg = test_config();
    let record = CredentialRecord {
        id: 3,
        username: "carol".to_string(),
        email: "carol@x.com".to_string(),
        password_hash: "not-a-bcrypt-hash".to_string(),
        created_at: 0,
    };
    assert_eq!(
        login_attempt(Some(record), "anything", &cfg).unwrap_err(),
        AuthError::Hashing
    );
}

#[test]
fn login_with_well_formed_matching_hash_succeeds() {
    let cfg = test_config();
    let record = CredentialRecord {
        id: 4,
        username: "dave".to_string(),
        email: "dave@x.com".to_string(),
        password_hash: hash_password("pw-of-dave").unwrap(),
        created_at: 0,
    };
    assert!(login_attempt(Some(record), "pw-of-dave", &cfg).is_ok());
}

#[test]
fn unicode_claims_round_trip_through_json() {
    let c = Claims {
        sub: 8,
        exp: 99,
        email: "h\u{e9}llo@ex\u{e4}mple.com".to_string(),
        username: "\u{65e5}\u{672c}\u{8a9e}\u{30e6}\u{30fc}\u{30b6}".to_string(),
    };
    let bytes = claims_to_json(&c);
    let back = parse_claims_bytes(&bytes).unwrap();
    assert_eq!(back.sub, 8);
    assert_eq!(back.exp, 99);
    assert_eq!(back.email, "h\u{e9}llo@ex\u{e4}mple.com");
    assert_eq!(back.username, "\u{65e5}\u{672c}\u{8a9e}\u{30e6}\u{30fc}\u{30b6}");
}

#[test]
fn unicode_identity_survives_issue_and_guard() {
    let cfg = test_config();
    let tok = issue_at(&cfg, 11, "h\u{e9}llo@ex\u{e4}mple.com", "\u{65e5}\u{672c}\u{8a9e}", 500)
        .unwrap();
    let header = format!("Bearer {}", tok);
    let claims = authenticate_at(Some(&header), &cfg, 600).unwrap();
    assert_eq!(claims.sub, 11);
    assert_eq!(claims.exp, 4_100);
    assert_eq!(claims.email, "h\u{e9}llo@ex\u{e4}mple.com");
    assert_eq!(claims.username, "\u{65e5}\u{672c}\u{8a9e}");
}

#[test]
fn claims_parser_rejects_raw_control_bytes_and_bad_utf8() {
    // a raw tab inside the email string
    assert!(parse_claims_bytes(
        b"{\"sub\":\"1\",\"exp\":2,\"email\":\"a\tb\",\"username\":\"c\"}"
    )
    .is_none());
    // a lone continuation byte is not valid UTF-8
    let mut bad = Vec::new();
    bad.extend_from_slice(b"{\"sub\":\"1\",\"exp\":2,\"email\":\"a");
    bad.push(0x80);
    bad.extend_from_slice(b"\",\"username\":\"c\"}");
    assert!(parse_claims_bytes(&bad).is_none());
}
