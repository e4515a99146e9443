//! The credential hasher: a deliberately slow, salted, adaptive one-way
//! function over plaintext passwords, with constant-time verification.
//!
//! The primitive is bcrypt at its default cost. Whether a plaintext
//! matches a stored hash is a pure function of the two, named
//! `bcrypt_matches`; the salt only makes the stored form of equal
//! passwords differ.

use vstd::prelude::*;
use crate::errors::AuthError;

verus! {

/// Whether bcrypt verification accepts `password` against the stored
/// hash `hash`. Deterministic in its arguments; no short statement of
/// its value exists, so it stays a name.
pub uninterp spec fn bcrypt_matches(password: Seq<char>, hash: Seq<char>) -> bool;

/// Whether `hash` is a stored form that bcrypt parses at all: the
/// 60-byte format with a known version prefix, an in-range cost, and
/// base64 salt and digest parts. A deterministic function of the hash
/// text alone, and exactly the domain on which verification reaches a
/// verdict instead of an error.
pub uninterp spec fn bcrypt_hash_wf(hash: Seq<char>) -> bool;

/// The error type of the bcrypt primitive.
#[verifier::external_type_specification]
#[verifier::external_body]
pub struct ExBcryptError(bcrypt::BcryptError);

/// Relies on `bcrypt::hash` with the crate's default cost: on success
/// the stored form is the 60-byte format with its own salt and an
/// in-range cost, so verification parses it, and `bcrypt::verify`
/// accepts the same password against it. Fails only when the
/// primitive's randomness source does.
#[verifier::external_body]
fn bcrypt_hash(password: &str) -> (r: Result<String, bcrypt::BcryptError>)
    ensures
        r matches Ok(h) ==> bcrypt_matches(password@, h@) && bcrypt_hash_wf(h@) && h@.len()
            == 60,
{
    bcrypt::hash(password, bcrypt::DEFAULT_COST)
}

/// Relies on `bcrypt::verify`: recomputes the hash with the salt and
/// cost embedded in `hash` and compares in constant time. Deterministic
/// in `(password, hash)`; it errs exactly when `hash` is not a
/// parseable bcrypt hash, and that too depends on the hash text alone.
#[verifier::external_body]
fn bcrypt_check(password: &str, hash: &str) -> (r: Result<bool, bcrypt::BcryptError>)
    ensures
        r is Ok <==> bcrypt_hash_wf(hash@),
        r matches Ok(b) ==> b == bcrypt_matches(password@, hash@),
{
    bcrypt::verify(password, hash)
}

/// Hash a plaintext password for storage. Each call salts anew, so two
/// hashes of one password differ, yet each is a well-formed stored
/// hash that verifies against the password.
pub fn hash_password(password: &str) -> (r: Result<String, AuthError>)
    ensures
        r matches Ok(h) ==> bcrypt_matches(password@, h@) && bcrypt_hash_wf(h@) && h@.len()
            == 60,
        r matches Err(e) ==> e == AuthError::Hashing,
{
    match bcrypt_hash(password) {
        Ok(h) => Ok(h),
        Err(_) => Err(AuthError::Hashing),
    }
}

/// Check a plaintext password against a stored hash. A well-formed
/// stored hash always reaches a verdict, and `Ok(false)` covers every
/// mismatch; `Err` comes exactly on a stored value that is not a
/// bcrypt hash at all, so a caller can tell the primitive's failure
/// from a wrong password and still answer with its uniform rejection.
pub fn verify_password(password: &str, stored_hash: &str) -> (r: Result<bool, AuthError>)
    ensures
        r is Ok <==> bcrypt_hash_wf(stored_hash@),
        r matches Ok(b) ==> b == bcrypt_matches(password@, stored_hash@),
        r matches Err(e) ==> e == AuthError::Hashing,
{
    match bcrypt_check(password, stored_hash) {
        Ok(b) => Ok(b),
        Err(_) => Err(AuthError::Hashing),
    }
}

/// A freshly hashed password always verifies: whenever hashing
/// succeeds, verification of the same plaintext against the new hash
/// reaches a verdict and that verdict is true; the one failure left is
/// the hashing primitive's own randomness source.
pub fn hashed_password_verifies(password: &str) -> (r: Result<bool, AuthError>)
    ensures
        r matches Ok(b) ==> b,
        r matches Err(e) ==> e == AuthError::Hashing,
{
    match hash_password(password) {
        Ok(h) => verify_password(password, h.as_str()),
        Err(e) => Err(e),
    }
}

} // verus!
