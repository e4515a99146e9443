//! The closed error taxonomy of the authentication core.

use vstd::prelude::*;

verus! {

/// The sub-reason of an `Unauthorized` outcome. It is kept for internal
/// classification (logging, tests); the client-visible message stays
/// generic for every reason, so a caller learns nothing about why a
/// request was refused.
#[derive(Clone, Copy, Debug, PartialEq, Eq, Structural)]
pub enum Rejection {
    /// No authorization header, or one without the `Bearer` scheme.
    MissingCredentials,
    /// The presented token is not a well-formed signed token.
    MalformedToken,
    /// The signature does not verify against the shared secret.
    InvalidToken,
    /// The token's expiry has passed.
    ExpiredToken,
    /// Unknown email, or a password that does not match the stored hash.
    InvalidCredentials,
}

/// Every failure the authentication core can report.
#[derive(Clone, Copy, Debug, PartialEq, Eq, Structural)]
pub enum AuthError {
    /// The hashing or signing primitive itself failed.
    Hashing,
    /// The signing secret was absent when the configuration was built.
    Configuration,
    /// A username or email is already taken, as reported by the
    /// persistence layer.
    Conflict,
    /// The request or login attempt was refused.
    Unauthorized(Rejection),
}

impl AuthError {
    /// The message a client is shown. Every `Unauthorized` sub-reason maps
    /// to one generic text, so the response does not reveal whether an
    /// email exists, a password was wrong, or how token validation failed.
    pub fn client_message(&self) -> (r: &'static str)
        ensures
            forall|a: Rejection, b: Rejection|
                AuthError::Unauthorized(a).spec_client_message()
                    == AuthError::Unauthorized(b).spec_client_message(),
            r == self.spec_client_message(),
    {
        match self {
            AuthError::Hashing => "Internal server error",
            AuthError::Configuration => "Server configuration error",
            AuthError::Conflict => "Username or email already taken",
            AuthError::Unauthorized(_) => "Invalid email or password",
        }
    }

    /// What `client_message` returns.
    pub open spec fn spec_client_message(&self) -> &'static str {
        match self {
            AuthError::Hashing => "Internal server error",
            AuthError::Configuration => "Server configuration error",
            AuthError::Conflict => "Username or email already taken",
            AuthError::Unauthorized(_) => "Invalid email or password",
        }
    }

    /// The HTTP status class each failure is surfaced as.
    pub fn status_code(&self) -> (r: u16)
        ensures
            r == match self {
                AuthError::Hashing => 500u16,
                AuthError::Configuration => 500u16,
                AuthError::Conflict => 409u16,
                AuthError::Unauthorized(_) => 401u16,
            },
    {
        match self {
            AuthError::Hashing => 500,
            AuthError::Configuration => 500,
            AuthError::Conflict => 409,
            AuthError::Unauthorized(_) => 401,
        }
    }
}

} // verus!
