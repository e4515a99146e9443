//! The token issuer and the request guard.
//!
//! A token is `base64url(header) . base64url(claims JSON) . signature`,
//! signed with HMAC-SHA256 under the process-wide secret. The guard
//! takes a raw authorization header and yields the verified claims, or
//! one distinct rejection per failing step: missing credentials, a
//! malformed token, a bad signature, or a passed expiry.

use vstd::prelude::*;
use crate::codec::{
    b64_decode, b64_encode, base64url_decode, base64url_encode, chars_of, json_safe,
    lemma_b64_encode_bytes, lemma_b64_round_trip, printable, string_from_ascii,
};
use crate::claims::{
    Claims, ClaimsModel, json_of, lemma_parse_of_json, match_lit, parse_claims, parse_claims_bytes,
};
use crate::errors::{AuthError, Rejection};
use vstd::string::StrSliceExecFns;
use vstd::string::StringSliceAdditionalSpecFns;

verus! {

/// Tokens are valid for one hour from issuance.
pub const TOKEN_VALIDITY_SECS: i64 = 3600;

/// The largest issuance timestamp the issuer accepts; far beyond any
/// clock this code will meet, and small enough that the expiry sum can
/// never overflow.
pub const MAX_ISSUE_TS: i64 = 8000000000000;

/// The HMAC-SHA256 signature of a signing input under a secret, in the
/// base64url text form the token carries. A function of the message
/// and the secret alone.
pub uninterp spec fn sig_of(message: Seq<u8>, secret: Seq<u8>) -> Seq<u8>;

/// The error type of the token-signing primitive.
#[verifier::external_type_specification]
#[verifier::external_body]
pub struct ExJwtError(jsonwebtoken::errors::Error);

/// Relies on `jsonwebtoken::crypto::sign` with `Algorithm::HS256` and a
/// key from `EncodingKey::from_secret`: the HMAC signer accepts a
/// secret of any length and never fails, and the returned text is the
/// base64url (URL-safe alphabet, no padding) form of the MAC, so every
/// byte of it is printable ASCII and none is `.`. The MAC is a function
/// of the message and secret alone. Signing goes through the crate's
/// process-wide provider; with this build's features that is the
/// RustCrypto one, and nothing in this library installs another.
#[verifier::external_body]
fn hmac_sign(message: &[u8], secret: &[u8]) -> (r: Result<Vec<u8>, jsonwebtoken::errors::Error>)
    ensures
        r is Ok,
        r matches Ok(v) ==> v@ == sig_of(message@, secret@) && forall|i: int|
            0 <= i < v@.len() ==> 32 <= #[trigger] v@[i] < 127 && v@[i] != 46,
{
    jsonwebtoken::crypto::sign(
        message,
        &jsonwebtoken::EncodingKey::from_secret(secret),
        jsonwebtoken::Algorithm::HS256,
    ).map(|s| s.into_bytes())
}

/// Relies on `std::time::SystemTime::now` and its distance from
/// `UNIX_EPOCH`: the clock's whole-second offset from the epoch,
/// negative for a clock set before it. Both arms of the comparison are
/// handled, so no clock value makes this panic. The value depends on
/// the environment, so nothing is stated of it; callers clamp.
#[verifier::external_body]
fn now_ts() -> i64 {
    match std::time::SystemTime::now().duration_since(std::time::UNIX_EPOCH) {
        Ok(d) => d.as_secs() as i64,
        Err(e) => (e.duration().as_secs() as i64).wrapping_neg(),
    }
}

/// The process-wide signing secret, built once at startup and shared
/// read-only by the issuer and the guard.
pub struct AuthConfig {
    secret: Vec<u8>,
}

impl AuthConfig {
    /// The bytes of the signing secret.
    pub closed spec fn secret_bytes(&self) -> Seq<u8> {
        self.secret@
    }

    /// Build the configuration from the secret as loaded at startup.
    /// An absent secret is the one configuration failure, and it is
    /// reported here, before any request runs.
    pub fn new(secret: Option<String>) -> (r: Result<AuthConfig, AuthError>)
        ensures
            secret is None ==> r == Err::<AuthConfig, AuthError>(AuthError::Configuration),
            secret matches Some(sv) ==> r matches Ok(c) && c.secret_bytes()
                == vstd::utf8::encode_utf8(sv@),
    {
        match secret {
            None => Err(AuthError::Configuration),
            Some(sv) => Ok(AuthConfig { secret: sv.as_str().as_bytes_vec() }),
        }
    }
}

/// The bytes of the fixed token header `{"typ":"JWT","alg":"HS256"}`.
pub open spec fn header_json() -> Seq<u8> {
    seq![
        123u8, 34, 116, 121, 112, 34, 58, 34, 74, 87, 84, 34, 44, 34, 97, 108, 103, 34, 58, 34,
        72, 83, 50, 53, 54, 34, 125,
    ]
}

/// `Bearer ` — the scheme prefix of an authorization header.
pub open spec fn bearer_lit() -> Seq<u8> {
    seq![66u8, 101, 97, 114, 101, 114, 32]
}

/// The signing input of a token: encoded header, a dot, encoded claims.
pub open spec fn token_msg(m: ClaimsModel) -> Seq<u8> {
    b64_encode(header_json()) + seq![46u8] + b64_encode(json_of(m))
}

/// A complete signed token for claims `m` under `secret`.
pub open spec fn token_of(m: ClaimsModel, secret: Seq<u8>) -> Seq<u8> {
    token_msg(m) + seq![46u8] + sig_of(token_msg(m), secret)
}

/// The claims the issuer builds at time `now`: expiry is exactly one
/// hour later.
pub open spec fn issued_claims(sub: int, email: Seq<char>, username: Seq<char>, now: int)
    -> ClaimsModel {
    ClaimsModel { sub, exp: now + TOKEN_VALIDITY_SECS, email, username }
}

/// The first position at or after `i` holding `.`, or the end.
pub open spec fn find_dot(s: Seq<u8>, i: int) -> int
    recommends
        0 <= i <= s.len(),
    decreases s.len() - i,
{
    if i < s.len() {
        if s[i] == 46 {
            i
        } else {
            find_dot(s, i + 1)
        }
    } else {
        i
    }
}

/// The bytes of an optional header value.
pub open spec fn opt_str_bytes(h: Option<&str>) -> Option<Seq<u8>> {
    match h {
        Some(s) => Some(s.spec_bytes()),
        None => None,
    }
}

/// What the guard decides, step by step: scheme, framing, header,
/// payload, signature, expiry. Each failing step has its own outcome.
pub open spec fn auth_spec(header: Option<Seq<u8>>, secret: Seq<u8>, now: int)
    -> Result<ClaimsModel, AuthError> {
    match header {
        None => Err(AuthError::Unauthorized(Rejection::MissingCredentials)),
        Some(h) => {
            if !match_lit(h, 0, bearer_lit()) {
                Err(AuthError::Unauthorized(Rejection::MissingCredentials))
            } else {
                let tok = h.skip(7);
                let i1 = find_dot(tok, 0);
                if i1 == tok.len() {
                    Err(AuthError::Unauthorized(Rejection::MalformedToken))
                } else {
                    let i2 = find_dot(tok, i1 + 1);
                    if i2 == tok.len() {
                        Err(AuthError::Unauthorized(Rejection::MalformedToken))
                    } else {
                        if tok.subrange(0, i1) != b64_encode(header_json()) {
                            Err(AuthError::Unauthorized(Rejection::MalformedToken))
                        } else {
                            match b64_decode(tok.subrange(i1 + 1, i2)) {
                                None => Err(AuthError::Unauthorized(Rejection::MalformedToken)),
                                Some(pb) => match parse_claims(pb) {
                                    None => Err(
                                        AuthError::Unauthorized(Rejection::MalformedToken),
                                    ),
                                    Some(m) => {
                                        if tok.skip(i2 + 1) != sig_of(
                                            tok.subrange(0, i2),
                                            secret,
                                        ) {
                                            Err(AuthError::Unauthorized(Rejection::InvalidToken))
                                        } else if m.exp <= now {
                                            Err(AuthError::Unauthorized(Rejection::ExpiredToken))
                                        } else {
                                            Ok(m)
                                        }
                                    },
                                },
                            }
                        }
                    }
                }
            }
        },
    }
}

/// The fixed token header as bytes.
fn header_vec() -> (r: Vec<u8>)
    ensures
        r@ == header_json(),
{
    let r: Vec<u8> = vec![
        123, 34, 116, 121, 112, 34, 58, 34, 74, 87, 84, 34, 44, 34, 97, 108, 103, 34, 58, 34, 72,
        83, 50, 53, 54, 34, 125,
    ];
    proof {
        assert(r@ =~= header_json());
    }
    r
}

/// The first position at or after `start` holding `.`, or the end.
#[verifier::loop_isolation(false)]
fn find_dot_exec(s: &[u8], start: usize) -> (r: usize)
    requires
        start <= s.len(),
    ensures
        r as int == find_dot(s@, start as int),
        start <= r <= s.len(),
    decreases s.len() - start,
{
    let mut i: usize = start;
    while i < s.len() && s[i] != 46
        invariant
            start <= i <= s.len(),
            find_dot(s@, start as int) == find_dot(s@, i as int),
        decreases s.len() - i,
    {
        i = i + 1;
    }
    i
}

/// Plain byte-sequence equality.
#[verifier::loop_isolation(false)]
fn bytes_eq(a: &[u8], b: &[u8]) -> (r: bool)
    ensures
        r == (a@ == b@),
{
    if a.len() != b.len() {
        return false;
    }
    let mut i: usize = 0;
    while i < a.len()
        invariant
            i <= a.len(),
            a.len() == b.len(),
            forall|k: int| 0 <= k < i ==> a@[k] == b@[k],
        decreases a.len() - i,
    {
        if a[i] != b[i] {
            return false;
        }
        i = i + 1;
    }
    proof {
        assert(a@ =~= b@);
    }
    true
}

/// Byte-sequence equality that reads both inputs whole before it
/// answers, in the style of a MAC comparison: the accumulator, not an
/// early exit, carries the verdict.
#[verifier::loop_isolation(false)]
fn ct_bytes_eq(a: &[u8], b: &[u8]) -> (r: bool)
    ensures
        r == (a@ == b@),
{
    if a.len() != b.len() {
        return false;
    }
    let mut acc: u8 = 0;
    let mut i: usize = 0;
    while i < a.len()
        invariant
            i <= a.len(),
            a.len() == b.len(),
            (acc == 0) <==> (forall|k: int| 0 <= k < i ==> a@[k] == b@[k]),
        decreases a.len() - i,
    {
        let x = a[i];
        let y = b[i];
        let d = x ^ y;
        proof {
            assert((d == 0) == (x == y)) by (bit_vector)
                requires
                    d == x ^ y,
            ;
            assert(((acc | d) == 0) == (acc == 0 && d == 0)) by (bit_vector);
        }
        acc = acc | d;
        i = i + 1;
    }
    if acc == 0 {
        proof {
            assert(a@ =~= b@);
        }
        true
    } else {
        proof {
            assert(!(forall|k: int| 0 <= k < a@.len() ==> a@[k] == b@[k]));
            assert(a@ != b@);
        }
        false
    }
}

/// Build and sign a token for the given identity as of time `now`.
/// The expiry is `now` plus exactly the one-hour validity window.
///
/// The display fields may hold any characters a JSON string carries
/// raw — all of Unicode above the control range. Only characters below
/// the space, which JSON must escape numerically and this canonical
/// form does not, are left out by precondition; the caller refuses
/// them up front.
#[verifier::rlimit(100)]
pub fn issue_at(cfg: &AuthConfig, sub: i32, email: &str, username: &str, now: i64) -> (r: Result<
    String,
    AuthError,
>)
    requires
        0 <= sub,
        json_safe(email@),
        json_safe(username@),
        0 <= now <= MAX_ISSUE_TS,
    ensures
        r is Ok,
        r matches Ok(t) ==> t@ == chars_of(
            token_of(
                issued_claims(sub as int, email@, username@, now as int),
                cfg.secret_bytes(),
            ),
        ) && printable(t@),
{
    let ghost m = issued_claims(sub as int, email@, username@, now as int);
    let c = Claims {
        sub,
        exp: now + TOKEN_VALIDITY_SECS,
        email: email.to_owned(),
        username: username.to_owned(),
    };
    proof {
        assert(c@ == m);
        assert(c@.wf());
    }
    let payload = crate::claims::claims_to_json(&c);
    let hj = header_vec();
    let mut msg = base64url_encode(hj.as_slice());
    msg.push(46);
    let mut pe = base64url_encode(payload.as_slice());
    proof {
        lemma_b64_encode_bytes(header_json());
        lemma_b64_encode_bytes(json_of(m));
    }
    msg.append(&mut pe);
    proof {
        assert(msg@ =~= token_msg(m));
    }
    let sv = match hmac_sign(msg.as_slice(), cfg.secret.as_slice()) {
        Ok(v) => v,
        Err(_) => {
            return Err(AuthError::Hashing);
        },
    };
    let ghost msgv = msg@;
    let mut tok = msg;
    tok.push(46);
    let mut sv2 = sv;
    let ghost sigv = sv2@;
    tok.append(&mut sv2);
    proof {
        assert(tok@ =~= token_of(m, cfg.secret_bytes()));
        assert forall|i: int| 0 <= i < tok@.len() implies 32 <= #[trigger] tok@[i] <= 126 by {
            assert(tok@ == msgv + seq![46u8] + sigv);
            if i < msgv.len() {
                assert(tok@[i] == msgv[i]);
                assert(msgv == token_msg(m));
                if i < b64_encode(header_json()).len() {
                    assert(msgv[i] == b64_encode(header_json())[i]);
                } else if i == b64_encode(header_json()).len() {
                    assert(msgv[i] == 46);
                } else {
                    assert(msgv[i] == b64_encode(json_of(m))[
                        i - b64_encode(header_json()).len() - 1
                    ]);
                }
            } else if i == msgv.len() {
                assert(tok@[i] == 46);
            } else {
                assert(tok@[i] == sigv[i - msgv.len() - 1]);
            }
        }
    }
    let ghost tokv = tok@;
    let t = string_from_ascii(tok);
    proof {
        assert forall|i: int| 0 <= i < t@.len() implies crate::codec::printable_char(
            #[trigger] t@[i],
        ) by {
            crate::claims::lemma_u8_char_round(tokv[i]);
        }
    }
    Ok(t)
}

/// Issue a token for the clock's current time. A clock before the
/// epoch or past the largest accepted timestamp is clamped to the
/// nearest accepted instant, so any clock value issues a token.
pub fn generate_token(cfg: &AuthConfig, u_id: i32, u_email: String, u_username: String) -> (r:
    Result<String, AuthError>)
    requires
        0 <= u_id,
        json_safe(u_email@),
        json_safe(u_username@),
    ensures
        r is Ok,
        r matches Ok(t) ==> exists|now: int|
            0 <= now <= MAX_ISSUE_TS && t@ == chars_of(
                #[trigger] token_of(
                    issued_claims(u_id as int, u_email@, u_username@, now),
                    cfg.secret_bytes(),
                ),
            ),
{
    let mut now = now_ts();
    if now < 0 {
        now = 0;
    }
    if now > MAX_ISSUE_TS {
        now = MAX_ISSUE_TS;
    }
    let r = issue_at(cfg, u_id, u_email.as_str(), u_username.as_str(), now);
    proof {
        if let Ok(t) = &r {
            assert(0 <= now as int <= MAX_ISSUE_TS && t@ == chars_of(
                token_of(
                    issued_claims(u_id as int, u_email@, u_username@, now as int),
                    cfg.secret_bytes(),
                ),
            ));
        }
    }
    r
}

/// The guard: validate a presented authorization header as of time
/// `now` and yield the token's claims, or the step's rejection.
#[verifier::rlimit(100)]
pub fn authenticate_at(header: Option<&str>, cfg: &AuthConfig, now: i64) -> (r: Result<
    Claims,
    AuthError,
>)
    ensures
        r matches Ok(c) ==> auth_spec(opt_str_bytes(header), cfg.secret_bytes(), now as int)
            == Ok::<ClaimsModel, AuthError>(c@) && c@.wf(),
        r matches Err(e) ==> auth_spec(opt_str_bytes(header), cfg.secret_bytes(), now as int)
            == Err::<ClaimsModel, AuthError>(e),
{
    let h = match header {
        Some(h) => h,
        None => {
            return Err(AuthError::Unauthorized(Rejection::MissingCredentials));
        },
    };
    let hb = h.as_bytes();
    let bl: Vec<u8> = vec![66, 101, 97, 114, 101, 114, 32];
    proof {
        assert(bl@ =~= bearer_lit());
    }
    if !crate::claims::match_lit_exec(hb, 0, bl.as_slice()) {
        return Err(AuthError::Unauthorized(Rejection::MissingCredentials));
    }
    let tok = vstd::slice::slice_subrange(hb, 7, hb.len());
    let i1 = find_dot_exec(tok, 0);
    if i1 == tok.len() {
        return Err(AuthError::Unauthorized(Rejection::MalformedToken));
    }
    let i2 = find_dot_exec(tok, i1 + 1);
    if i2 == tok.len() {
        return Err(AuthError::Unauthorized(Rejection::MalformedToken));
    }
    let head = vstd::slice::slice_subrange(tok, 0, i1);
    let hj = header_vec();
    let eh = base64url_encode(hj.as_slice());
    if !bytes_eq(head, eh.as_slice()) {
        return Err(AuthError::Unauthorized(Rejection::MalformedToken));
    }
    let payload = vstd::slice::slice_subrange(tok, i1 + 1, i2);
    let pb = match base64url_decode(payload) {
        Some(v) => v,
        None => {
            return Err(AuthError::Unauthorized(Rejection::MalformedToken));
        },
    };
    let claims = match parse_claims_bytes(pb.as_slice()) {
        Some(c) => c,
        None => {
            return Err(AuthError::Unauthorized(Rejection::MalformedToken));
        },
    };
    let msg = vstd::slice::slice_subrange(tok, 0, i2);
    let sv = match hmac_sign(msg, cfg.secret.as_slice()) {
        Ok(v) => v,
        Err(_) => {
            return Err(AuthError::Hashing);
        },
    };
    let sig = vstd::slice::slice_subrange(tok, i2 + 1, tok.len());
    if !ct_bytes_eq(sig, sv.as_slice()) {
        return Err(AuthError::Unauthorized(Rejection::InvalidToken));
    }
    if claims.exp <= now {
        return Err(AuthError::Unauthorized(Rejection::ExpiredToken));
    }
    Ok(claims)
}

/// The guard against the clock's current time.
pub fn authenticate(header: Option<&str>, cfg: &AuthConfig) -> (r: Result<Claims, AuthError>)
    ensures
        r matches Ok(c) ==> exists|now: int|
            #[trigger] auth_spec(opt_str_bytes(header), cfg.secret_bytes(), now)
                == Ok::<ClaimsModel, AuthError>(c@),
        r matches Err(e) ==> exists|now: int|
            #[trigger] auth_spec(opt_str_bytes(header), cfg.secret_bytes(), now)
                == Err::<ClaimsModel, AuthError>(e),
{
    let now = now_ts();
    authenticate_at(header, cfg, now)
}


/// Scanning a dot-free region ended by a dot or the end stops at its
/// end.
proof fn lemma_find_dot_run(s: Seq<u8>, i: int, j: int)
    requires
        0 <= i <= j <= s.len(),
        forall|k: int| i <= k < j ==> #[trigger] s[k] != 46,
        j == s.len() || s[j] == 46,
    ensures
        find_dot(s, i) == j,
    decreases j - i,
{
    if i < j {
        lemma_find_dot_run(s, i + 1, j);
    }
}

/// How the guard reads a header framed exactly as the issuer frames
/// one, whatever signature text stands after the second dot: the
/// framing parses back to the claims, and only the signature and the
/// expiry decide the outcome.
#[verifier::rlimit(100)]
pub proof fn lemma_auth_of_framed(m: ClaimsModel, secret: Seq<u8>, sigv: Seq<u8>, now: int)
    requires
        m.wf(),
    ensures
        auth_spec(Some(bearer_lit() + (token_msg(m) + seq![46u8] + sigv)), secret, now) == (
        if sigv != sig_of(token_msg(m), secret) {
            Err::<ClaimsModel, AuthError>(AuthError::Unauthorized(Rejection::InvalidToken))
        } else if m.exp <= now {
            Err::<ClaimsModel, AuthError>(AuthError::Unauthorized(Rejection::ExpiredToken))
        } else {
            Ok::<ClaimsModel, AuthError>(m)
        }),
{
    let eh = b64_encode(header_json());
    let ep = b64_encode(json_of(m));
    let tokv = token_msg(m) + seq![46u8] + sigv;
    let h = bearer_lit() + tokv;
    let n1 = eh.len() as int;
    let n2 = n1 + 1 + ep.len() as int;
    lemma_b64_encode_bytes(header_json());
    lemma_b64_encode_bytes(json_of(m));

    assert forall|k: int| 0 <= k < 7 implies #[trigger] h[k] == bearer_lit()[k] by {
        assert(h[k] == bearer_lit()[k]);
    }
    assert(h.subrange(0, 7) =~= bearer_lit());
    assert(match_lit(h, 0, bearer_lit()));
    let tok = h.skip(7);
    assert(tok =~= tokv);

    assert forall|k: int| 0 <= k < n1 implies #[trigger] tokv[k] == eh[k] by {
        assert(tokv[k] == token_msg(m)[k]);
        assert(token_msg(m)[k] == (eh + seq![46u8])[k]);
        assert((eh + seq![46u8])[k] == eh[k]);
    }
    assert(tokv[n1] == 46) by {
        assert(tokv[n1] == token_msg(m)[n1]);
        assert(token_msg(m)[n1] == (eh + seq![46u8])[n1]);
    }
    assert forall|k: int| n1 + 1 <= k < n2 implies #[trigger] tokv[k] == ep[k - n1 - 1] by {
        assert(tokv[k] == token_msg(m)[k]);
        assert(token_msg(m)[k] == ep[k - n1 - 1]);
    }
    assert(tokv[n2] == 46);
    assert forall|k: int| n2 + 1 <= k < tokv.len() implies #[trigger] tokv[k] == sigv[k - n2
        - 1] by {
        assert(tokv[k] == sigv[k - n2 - 1]);
    }

    assert forall|k: int| 0 <= k < n1 implies #[trigger] tokv[k] != 46 by {
        assert(tokv[k] == eh[k]);
    }
    lemma_find_dot_run(tokv, 0, n1);
    assert(find_dot(tokv, 0) == n1);
    assert forall|k: int| n1 + 1 <= k < n2 implies #[trigger] tokv[k] != 46 by {
        assert(tokv[k] == ep[k - n1 - 1]);
    }
    lemma_find_dot_run(tokv, n1 + 1, n2);
    assert(find_dot(tokv, n1 + 1) == n2);

    assert(tokv.subrange(0, n1) =~= eh);
    assert(tokv.subrange(n1 + 1, n2) =~= ep);
    lemma_b64_round_trip(json_of(m));
    assert(b64_decode(tokv.subrange(n1 + 1, n2)) == Some(json_of(m)));
    lemma_parse_of_json(m);
    assert(parse_claims(json_of(m)) == Some(m));
    assert(tokv.subrange(0, n2) =~= token_msg(m));
    assert(tokv.skip(n2 + 1) =~= sigv);
    assert(auth_spec(Some(h), secret, now) == auth_spec(Some(bearer_lit() + tokv), secret, now));
}

/// A token the issuer just built authenticates under the same secret
/// while its hour runs: the guard returns exactly the issued claims.
pub proof fn lemma_issued_token_authenticates(m: ClaimsModel, secret: Seq<u8>, now: int)
    requires
        m.wf(),
        now < m.exp,
    ensures
        auth_spec(Some(bearer_lit() + token_of(m, secret)), secret, now)
            == Ok::<ClaimsModel, AuthError>(m),
{
    lemma_auth_of_framed(m, secret, sig_of(token_msg(m), secret), now);
}

/// A token whose expiry lies at or before `now` is rejected as
/// expired, even though its signature verifies.
pub proof fn lemma_expired_token_rejected(m: ClaimsModel, secret: Seq<u8>, now: int)
    requires
        m.wf(),
        m.exp <= now,
    ensures
        auth_spec(Some(bearer_lit() + token_of(m, secret)), secret, now)
            == Err::<ClaimsModel, AuthError>(AuthError::Unauthorized(Rejection::ExpiredToken)),
{
    lemma_auth_of_framed(m, secret, sig_of(token_msg(m), secret), now);
}

/// A token signed under another secret is rejected as invalid whenever
/// the two secrets' MACs differ on its signing input — for an HMAC,
/// every case but a vanishing-probability collision.
pub proof fn lemma_foreign_signature_rejected(
    m: ClaimsModel,
    secret: Seq<u8>,
    other: Seq<u8>,
    now: int,
)
    requires
        m.wf(),
        sig_of(token_msg(m), other) != sig_of(token_msg(m), secret),
    ensures
        auth_spec(Some(bearer_lit() + token_of(m, other)), secret, now)
            == Err::<ClaimsModel, AuthError>(AuthError::Unauthorized(Rejection::InvalidToken)),
{
    lemma_auth_of_framed(m, secret, sig_of(token_msg(m), other), now);
}

/// Appending any byte to a well-formed token lengthens its signature
/// segment past the MAC, so the guard rejects the corrupted header as
/// invalid, never yielding claims.
pub proof fn lemma_corrupted_token_rejected(m: ClaimsModel, secret: Seq<u8>, extra: u8, now: int)
    requires
        m.wf(),
    ensures
        auth_spec(Some(bearer_lit() + token_of(m, secret) + seq![extra]), secret, now)
            == Err::<ClaimsModel, AuthError>(AuthError::Unauthorized(Rejection::InvalidToken)),
{
    let sig = sig_of(token_msg(m), secret);
    let sigx = sig + seq![extra];
    assert(sigx.len() == sig.len() + 1);
    lemma_auth_of_framed(m, secret, sigx, now);
    assert(bearer_lit() + token_of(m, secret) + seq![extra] =~= bearer_lit() + (token_msg(m)
        + seq![46u8] + sigx));
}


/// The code of the character a byte stands for is the byte itself, so
/// a printable character names a printable byte and back.
pub proof fn lemma_byte_char_range(b: u8)
    ensures
        crate::codec::printable_char(b as char) <==> 32 <= b <= 126,
{
    if 32 <= b <= 126 {
        crate::claims::lemma_u8_char_round(b);
    }
    if crate::codec::printable_char(b as char) {
        assert(32 <= (b as char) as u32 <= 126);
        assert((b as char) as u32 == b);
    }
}

/// The authorization header that carries a token: the `Bearer` scheme,
/// a space, then the token itself.
pub fn bearer_header(token: &str) -> (r: String)
    ensures
        r@ == chars_of(bearer_lit()) + token@,
{
    let mut h = <String as vstd::string::StringExecFns>::from_str("Bearer ");
    proof {
        reveal_strlit("Bearer ");
        assert(h@ =~= chars_of(bearer_lit()));
    }
    <String as vstd::string::StringExecFns>::append(&mut h, token);
    h
}

/// The bytes of a header whose characters all stand for printable
/// ASCII bytes are exactly those bytes: this carries the guard's view
/// of a header string back to the byte level the token laws speak of.
pub proof fn lemma_bearer_header_bytes(bs: Seq<u8>)
    requires
        forall|i: int| 0 <= i < bs.len() ==> 32 <= #[trigger] bs[i] <= 126,
    ensures
        vstd::utf8::encode_utf8(chars_of(bearer_lit()) + chars_of(bs)) == bearer_lit() + bs,
{
    let h = chars_of(bearer_lit()) + chars_of(bs);
    assert forall|i: int| 0 <= i < h.len() implies '\0' <= #[trigger] h[i] <= '\u{7f}' by {
        if i < 7 {
            assert(h[i] == chars_of(bearer_lit())[i]);
            crate::claims::lemma_u8_char_round(bearer_lit()[i]);
        } else {
            assert(h[i] == chars_of(bs)[i - 7]);
            crate::claims::lemma_u8_char_round(bs[i - 7]);
        }
    }
    assert(vstd::utf8::is_ascii_chars(h));
    vstd::utf8::is_ascii_chars_encode_utf8(h);
    assert forall|i: int| 0 <= i < h.len() implies #[trigger] vstd::utf8::encode_utf8(h)[i] == (
    bearer_lit() + bs)[i] by {
        assert(vstd::utf8::encode_utf8(h)[i] == h[i] as u8);
        if i < 7 {
            assert(h[i] == chars_of(bearer_lit())[i]);
            crate::claims::lemma_u8_char_round(bearer_lit()[i]);
            assert(h[i] as u8 == bearer_lit()[i]);
        } else {
            assert(h[i] == chars_of(bs)[i - 7]);
            crate::claims::lemma_u8_char_round(bs[i - 7]);
            assert(h[i] as u8 == bs[i - 7]);
        }
    }
    assert(vstd::utf8::encode_utf8(h) =~= bearer_lit() + bs);
}

/// The whole pipeline, executable and verified end to end: issue a
/// token at `now`, present it in a `Bearer` header at any instant
/// before its expiry, and the guard accepts it with exactly the
/// issued identity.
pub fn issue_then_authenticate(
    cfg: &AuthConfig,
    sub: i32,
    email: &str,
    username: &str,
    now: i64,
    later: i64,
) -> (r: Result<Claims, AuthError>)
    requires
        0 <= sub,
        json_safe(email@),
        json_safe(username@),
        0 <= now <= MAX_ISSUE_TS,
        later < now + TOKEN_VALIDITY_SECS,
    ensures
        r matches Ok(c) ==> c@ == issued_claims(sub as int, email@, username@, now as int),
        r is Ok,
{
    let ghost m = issued_claims(sub as int, email@, username@, now as int);
    let t = match issue_at(cfg, sub, email, username, now) {
        Ok(t) => t,
        Err(e) => {
            return Err(e);
        },
    };
    let h = bearer_header(t.as_str());
    let hs = h.as_str();
    let r = authenticate_at(Some(hs), cfg, later);
    proof {
        let bs = token_of(m, cfg.secret_bytes());
        assert forall|i: int| 0 <= i < bs.len() implies 32 <= #[trigger] bs[i] <= 126 by {
            assert(t@[i] == (bs[i] as char));
            assert(crate::codec::printable_char(t@[i]));
            lemma_byte_char_range(bs[i]);
        }
        lemma_bearer_header_bytes(bs);
        assert(hs@ =~= chars_of(bearer_lit()) + chars_of(bs));
        assert(hs.spec_bytes() == bearer_lit() + bs);
        lemma_issued_token_authenticates(m, cfg.secret_bytes(), later as int);
        assert(auth_spec(Some(hs.spec_bytes()), cfg.secret_bytes(), later as int)
            == Ok::<ClaimsModel, AuthError>(m));
    }
    r
}

} // verus!
