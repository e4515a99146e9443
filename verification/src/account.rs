//! Registration and login orchestration around the hasher and the
//! issuer. The persistence layer is an outside collaborator: it hands
//! in the record found by email, and takes back the new credential to
//! store; this module owns the decisions between those calls.

use vstd::prelude::*;
use crate::codec::{chars_of, json_safe};
use crate::errors::{AuthError, Rejection};
use crate::hasher::{bcrypt_hash_wf, bcrypt_matches, hash_password, verify_password};
use crate::token::{AuthConfig, MAX_ISSUE_TS, generate_token, issued_claims, token_of};

verus! {

/// A stored credential record, as the persistence layer returns it:
/// identity, unique names, the password hash, and the creation time in
/// seconds since the epoch.
#[derive(Debug, Clone)]
pub struct CredentialRecord {
    pub id: i32,
    pub username: String,
    pub email: String,
    pub password_hash: String,
    pub created_at: i64,
}

impl CredentialRecord {
    /// What the persistence layer guarantees of a stored record: a
    /// non-negative identity, and display fields free of the raw
    /// control characters a JSON string cannot carry.
    pub open spec fn wf(self) -> bool {
        &&& 0 <= self.id
        &&& json_safe(self.email@)
        &&& json_safe(self.username@)
    }
}

/// What a caller may see of a user: everything but the password hash.
/// That the hash never leaves is guaranteed by this type's shape.
#[derive(Debug, Clone)]
pub struct UserResponse {
    pub id: i32,
    pub username: String,
    pub email: String,
    pub created_at: i64,
}

/// A credential ready for the persistence layer to insert.
#[derive(Debug, Clone)]
pub struct NewCredential {
    pub username: String,
    pub email: String,
    pub password_hash: String,
}

/// A successful login: the fresh token and the identity it names.
#[derive(Debug, Clone)]
pub struct LoginSuccess {
    pub token: String,
    pub user_id: i32,
    pub user_email: String,
    pub user_username: String,
}

/// Registration: hash the plaintext, and hand back the record to be
/// stored. The plaintext exists only for this call; only its hash
/// leaves. Uniqueness of the names is the persistence layer's check;
/// a violation there surfaces as `Conflict` to the caller.
pub fn register_request(username: &str, email: &str, password: &str) -> (r: Result<
    NewCredential,
    AuthError,
>)
    ensures
        r matches Ok(n) ==> n.username@ == username@ && n.email@ == email@ && bcrypt_matches(
            password@,
            n.password_hash@,
        ) && bcrypt_hash_wf(n.password_hash@),
        r matches Err(e) ==> e == AuthError::Hashing,
{
    let hashed = match hash_password(password) {
        Ok(h) => h,
        Err(e) => {
            return Err(e);
        },
    };
    Ok(NewCredential { username: username.to_owned(), email: email.to_owned(), password_hash: hashed })
}

/// The login decision once the persistence layer has answered: an
/// unknown email and a non-matching password take one and the same
/// exit; only a verified match logs in.
pub open spec fn login_decision(user: Option<CredentialRecord>, password: Seq<char>) -> Result<
    CredentialRecord,
    AuthError,
> {
    match user {
        None => Err(AuthError::Unauthorized(Rejection::InvalidCredentials)),
        Some(u) => {
            if bcrypt_matches(password, u.password_hash@) {
                Ok(u)
            } else {
                Err(AuthError::Unauthorized(Rejection::InvalidCredentials))
            }
        },
    }
}

/// Login with an unknown email and login with a wrong password yield
/// the identical error value, so the outcome reveals neither whether
/// the email exists nor which part was wrong.
pub proof fn lemma_uniform_rejection(u: CredentialRecord, password: Seq<char>)
    requires
        !bcrypt_matches(password, u.password_hash@),
    ensures
        login_decision(None, password) == login_decision(Some(u), password),
        login_decision(None, password) == Err::<CredentialRecord, AuthError>(
            AuthError::Unauthorized(Rejection::InvalidCredentials),
        ),
{
}

/// Login, given what the persistence layer found for the email: verify
/// the password against the stored hash, and only on a match issue a
/// token. Every rejection that is not a primitive failure is exactly
/// the uniform `login_decision` outcome.
pub fn login_attempt(user: Option<CredentialRecord>, password: &str, cfg: &AuthConfig) -> (r:
    Result<LoginSuccess, AuthError>)
    requires
        user matches Some(u) ==> u.wf(),
    ensures
        user is None ==> r == Err::<LoginSuccess, AuthError>(
            AuthError::Unauthorized(Rejection::InvalidCredentials),
        ),
        r matches Ok(s) ==> (match login_decision(user, password@) {
            Ok(u) => s.user_id == u.id && s.user_email@ == u.email@ && s.user_username@
                == u.username@ && exists|now: int|
                0 <= now <= MAX_ISSUE_TS && s.token@ == chars_of(
                    #[trigger] token_of(
                        issued_claims(u.id as int, u.email@, u.username@, now),
                        cfg.secret_bytes(),
                    ),
                ),
            Err(_) => false,
        }),
        r matches Err(e) ==> e == AuthError::Hashing || login_decision(user, password@)
            == Err::<CredentialRecord, AuthError>(e),
        user matches Some(u) && bcrypt_hash_wf(u.password_hash@) && bcrypt_matches(
            password@,
            u.password_hash@,
        ) ==> r is Ok,
        r == Err::<LoginSuccess, AuthError>(AuthError::Hashing) ==> (user matches Some(u)
            && !bcrypt_hash_wf(u.password_hash@)),
        (user matches Some(u) && !bcrypt_hash_wf(u.password_hash@)) ==> r == Err::<
            LoginSuccess,
            AuthError,
        >(AuthError::Hashing),
{
    let u = match user {
        Some(u) => u,
        None => {
            return Err(AuthError::Unauthorized(Rejection::InvalidCredentials));
        },
    };
    let ghost u0 = u;
    let ok = match verify_password(password, u.password_hash.as_str()) {
        Ok(b) => b,
        Err(e) => {
            return Err(e);
        },
    };
    if !ok {
        return Err(AuthError::Unauthorized(Rejection::InvalidCredentials));
    }
    let token = match generate_token(cfg, u.id, u.email.clone(), u.username.clone()) {
        Ok(t) => t,
        Err(e) => {
            return Err(AuthError::Hashing);
        },
    };
    proof {
        assert(login_decision(user, password@) == Ok::<CredentialRecord, AuthError>(u0));
        assert(exists|now: int|
            0 <= now <= MAX_ISSUE_TS && token@ == chars_of(
                #[trigger] token_of(
                    issued_claims(u0.id as int, u0.email@, u0.username@, now),
                    cfg.secret_bytes(),
                ),
            ));
    }
    Ok(LoginSuccess { token, user_id: u.id, user_email: u.email, user_username: u.username })
}

/// The public view of a stored record: the same identity and names,
/// and never the password hash.
pub fn public_view(u: &CredentialRecord) -> (r: UserResponse)
    ensures
        r.id == u.id,
        r.username@ == u.username@,
        r.email@ == u.email@,
        r.created_at == u.created_at,
{
    UserResponse {
        id: u.id,
        username: u.username.clone(),
        email: u.email.clone(),
        created_at: u.created_at,
    }
}

} // verus!
