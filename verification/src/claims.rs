//! Identity claims and their canonical JSON form: the token payload.
//!
//! The payload is the object
//! `{"sub":"<digits>","exp":<digits>,"email":"...","username":"..."}`
//! with `"` and `\` escaped inside strings. The serializer and the
//! parser are both verified against one spec, and parsing inverts
//! serialization exactly.

use vstd::prelude::*;
use vstd::arithmetic::div_mod::lemma_fundamental_div_mod;
use vstd::utf8::{
    decode_utf8, encode_scalar, encode_utf8, encode_utf8_decode_utf8, encode_utf8_valid_utf8,
    has_width_1_encoding, has_width_2_encoding, has_width_3_encoding, is_leading_byte_width_1,
    length_of_first_scalar, pop_first_scalar, valid_first_scalar, valid_utf8,
    decode_first_scalar,
};
use crate::codec::{json_safe, json_safe_char, string_from_utf8};

verus! {

/// The mathematical content of a set of claims.
#[verifier::ext_equal]
pub struct ClaimsModel {
    /// The authenticated identity.
    pub sub: int,
    /// Absolute expiry, seconds since the epoch.
    pub exp: int,
    pub email: Seq<char>,
    pub username: Seq<char>,
}

impl ClaimsModel {
    /// Claims the issuer produces and the guard returns: identity and
    /// expiry in machine range, and display fields a JSON string can
    /// carry raw. Only the characters below the space — which JSON
    /// cannot hold unescaped, and which this canonical form does not
    /// escape numerically — are outside the codec's grammar.
    pub open spec fn wf(self) -> bool {
        &&& 0 <= self.sub <= i32::MAX
        &&& 0 <= self.exp <= i64::MAX
        &&& json_safe(self.email)
        &&& json_safe(self.username)
    }
}

/// The decoded, verified payload of a token: identity, expiry and
/// display fields. Immutable once constructed.
#[derive(Debug, Clone, PartialEq, Eq)]
pub struct Claims {
    pub sub: i32,
    pub exp: i64,
    pub email: String,
    pub username: String,
}

impl View for Claims {
    type V = ClaimsModel;

    open spec fn view(&self) -> ClaimsModel {
        ClaimsModel {
            sub: self.sub as int,
            exp: self.exp as int,
            email: self.email@,
            username: self.username@,
        }
    }
}

/// The decimal digits of a non-negative integer, most significant first.
pub open spec fn dec_of(n: int) -> Seq<u8>
    recommends
        0 <= n,
    decreases n,
{
    if n < 10 {
        seq![(48 + n) as u8]
    } else {
        dec_of(n / 10).push((48 + n % 10) as u8)
    }
}

/// The value of a run of decimal digit bytes.
pub open spec fn dec_val(s: Seq<u8>) -> int
    decreases s.len(),
{
    if s.len() == 0 {
        0
    } else {
        dec_val(s.take(s.len() - 1)) * 10 + (s[s.len() - 1] - 48)
    }
}

/// How one byte appears inside a JSON string: `"` and `\` get a
/// backslash before them, everything else stands as itself.
pub open spec fn esc_byte(b: u8) -> Seq<u8> {
    if b == 34 || b == 92 {
        seq![92u8, b]
    } else {
        seq![b]
    }
}

/// A byte sequence escaped for the inside of a JSON string.
pub open spec fn esc(bs: Seq<u8>) -> Seq<u8>
    decreases bs.len(),
{
    if bs.len() == 0 {
        Seq::<u8>::empty()
    } else {
        esc_byte(bs[0]) + esc(bs.skip(1))
    }
}

/// `{"sub":"`
pub open spec fn lit_obj_sub() -> Seq<u8> {
    seq![123u8, 34, 115, 117, 98, 34, 58, 34]
}

/// `","exp":`
pub open spec fn lit_q_exp() -> Seq<u8> {
    seq![34u8, 44, 34, 101, 120, 112, 34, 58]
}

/// `,"email":"`
pub open spec fn lit_email() -> Seq<u8> {
    seq![44u8, 34, 101, 109, 97, 105, 108, 34, 58, 34]
}

/// `","username":"`
pub open spec fn lit_q_username() -> Seq<u8> {
    seq![34u8, 44, 34, 117, 115, 101, 114, 110, 97, 109, 101, 34, 58, 34]
}

/// `"}`
pub open spec fn lit_close() -> Seq<u8> {
    seq![34u8, 125]
}

/// The canonical JSON bytes of a set of claims.
pub open spec fn json_of(m: ClaimsModel) -> Seq<u8> {
    lit_obj_sub() + dec_of(m.sub) + lit_q_exp() + dec_of(m.exp) + lit_email() + esc(
        encode_utf8(m.email),
    ) + lit_q_username() + esc(encode_utf8(m.username)) + lit_close()
}

/// A decimal digit byte.
pub open spec fn is_digit(b: u8) -> bool {
    48 <= b <= 57
}

/// The literal `lit` stands at position `i` of `s`.
pub open spec fn match_lit(s: Seq<u8>, i: int, lit: Seq<u8>) -> bool {
    0 <= i && i + lit.len() <= s.len() && s.subrange(i, i + lit.len()) == lit
}

/// The first position at or after `i` holding a non-digit, or the end.
pub open spec fn scan_digits(s: Seq<u8>, i: int) -> int
    recommends
        0 <= i <= s.len(),
    decreases s.len() - i,
{
    if i < s.len() && is_digit(s[i]) {
        scan_digits(s, i + 1)
    } else {
        i
    }
}

/// Read a JSON string body starting at `i` (just inside the opening
/// quote): the unescaped content and the position after the closing
/// quote, or `None` when the input is not a JSON string free of raw
/// control bytes, with only `\"` and `\\` escapes.
pub open spec fn scan_str(s: Seq<u8>, i: int) -> Option<(Seq<u8>, int)>
    recommends
        0 <= i,
    decreases s.len() - i,
{
    if i < 0 || i >= s.len() {
        None
    } else if s[i] == 34 {
        Some((Seq::<u8>::empty(), i + 1))
    } else if s[i] == 92 {
        if i + 1 < s.len() && (s[i + 1] == 34 || s[i + 1] == 92) {
            match scan_str(s, i + 2) {
                Some((t, j)) => Some((seq![s[i + 1]] + t, j)),
                None => None,
            }
        } else {
            None
        }
    } else if 32 <= s[i] {
        match scan_str(s, i + 1) {
            Some((t, j)) => Some((seq![s[i]] + t, j)),
            None => None,
        }
    } else {
        None
    }
}

/// `,"username":"` as the parser meets it, after the email's closing
/// quote has been consumed.
pub open spec fn plit_username() -> Seq<u8> {
    seq![44u8, 34, 117, 115, 101, 114, 110, 97, 109, 101, 34, 58, 34]
}

/// Parse the canonical claims object; `None` on anything else.
pub open spec fn parse_claims(s: Seq<u8>) -> Option<ClaimsModel> {
    if !match_lit(s, 0, lit_obj_sub()) {
        None
    } else {
        let d1 = scan_digits(s, 8);
        if d1 == 8 || d1 - 8 > 10 {
            None
        } else {
            let sub = dec_val(s.subrange(8, d1));
            if sub > i32::MAX {
                None
            } else if !match_lit(s, d1, lit_q_exp()) {
                None
            } else {
                let i2 = d1 + 8;
                let d2 = scan_digits(s, i2);
                if d2 == i2 || d2 - i2 > 19 {
                    None
                } else {
                    let exp = dec_val(s.subrange(i2, d2));
                    if exp > i64::MAX {
                        None
                    } else if !match_lit(s, d2, lit_email()) {
                        None
                    } else {
                        match scan_str(s, d2 + 10) {
                            None => None,
                            Some((em, j)) => {
                                if !match_lit(s, j, plit_username()) {
                                    None
                                } else {
                                    match scan_str(s, j + 13) {
                                        None => None,
                                        Some((un, k)) => {
                                            if k + 1 == s.len() && s[k] == 125 {
                                                if valid_utf8(em) && valid_utf8(un) {
                                                    Some(
                                                        ClaimsModel {
                                                            sub,
                                                            exp,
                                                            email: decode_utf8(em),
                                                            username: decode_utf8(un),
                                                        },
                                                    )
                                                } else {
                                                    None
                                                }
                                            } else {
                                                None
                                            }
                                        },
                                    }
                                }
                            },
                        }
                    }
                }
            }
        }
    }
}

/// Ten to the `k`.
pub open spec fn pow10(k: nat) -> int
    decreases k,
{
    if k == 0 {
        1
    } else {
        10 * pow10((k - 1) as nat)
    }
}

/// The digits of a non-negative integer are digit bytes, and there is
/// at least one.
pub proof fn lemma_dec_of_digits(n: int)
    requires
        0 <= n,
    ensures
        dec_of(n).len() >= 1,
        forall|i: int| 0 <= i < dec_of(n).len() ==> is_digit(#[trigger] dec_of(n)[i]),
    decreases n,
{
    if n >= 10 {
        lemma_dec_of_digits(n / 10);
        assert(forall|i: int|
            0 <= i < dec_of(n).len() - 1 ==> dec_of(n)[i] == dec_of(n / 10)[i]);
        assert(is_digit(dec_of(n)[dec_of(n).len() - 1]));
    }
}

/// An integer below `10^k` has at most `k` digits.
pub proof fn lemma_dec_of_len(n: int, k: nat)
    requires
        0 <= n < pow10(k),
        1 <= k,
    ensures
        dec_of(n).len() <= k,
    decreases k,
{
    if n >= 10 {
        let p = pow10((k - 1) as nat);
        assert(pow10(k) == 10 * p);
        assert(n / 10 < p) by (nonlinear_arith)
            requires
                0 <= n,
                n < 10 * p,
        ;
        assert(1 <= p);
        lemma_dec_of_len(n / 10, (k - 1) as nat);
    }
}

/// Reading the digits of `n` back gives `n`.
pub proof fn lemma_dec_val_of(n: int)
    requires
        0 <= n,
    ensures
        dec_val(dec_of(n)) == n,
    decreases n,
{
    if n < 10 {
        let s = dec_of(n);
        assert(s == seq![(48 + n) as u8]);
        assert(s.take(0) =~= Seq::<u8>::empty());
        assert(dec_val(Seq::<u8>::empty()) == 0);
        assert(dec_val(s) == dec_val(s.take(0)) * 10 + (s[0] - 48));
    } else {
        lemma_dec_val_of(n / 10);
        let s = dec_of(n);
        let pre = dec_of(n / 10);
        assert(s == pre.push((48 + n % 10) as u8));
        assert(s.take(s.len() - 1) =~= pre);
        assert(s[s.len() - 1] == (48 + n % 10) as u8);
        assert(dec_val(s) == dec_val(s.take(s.len() - 1)) * 10 + (s[s.len() - 1] - 48));
        lemma_fundamental_div_mod(n, 10);
    }
}

/// Scanning a region known to be digits, ended by a non-digit or the
/// end of input, stops exactly at its end.
pub proof fn lemma_scan_digits_run(s: Seq<u8>, i: int, j: int)
    requires
        0 <= i <= j <= s.len(),
        forall|k: int| i <= k < j ==> is_digit(#[trigger] s[k]),
        j == s.len() || !is_digit(s[j]),
    ensures
        scan_digits(s, i) == j,
    decreases j - i,
{
    if i < j {
        lemma_scan_digits_run(s, i + 1, j);
    }
}

/// What a successful string scan guarantees: the cursor advanced, and
/// the content holds no byte below the space.
pub proof fn lemma_scan_str_props(s: Seq<u8>, i: int)
    requires
        0 <= i,
    ensures
        match scan_str(s, i) {
            Some((t, j)) => i < j <= s.len() && forall|k: int|
                0 <= k < t.len() ==> 32 <= #[trigger] t[k],
            None => true,
        },
    decreases s.len() - i,
{
    if i < s.len() {
        if s[i] == 34 {
        } else if s[i] == 92 {
            if i + 1 < s.len() && (s[i + 1] == 34 || s[i + 1] == 92) {
                lemma_scan_str_props(s, i + 2);
            }
        } else if 32 <= s[i] {
            lemma_scan_str_props(s, i + 1);
        }
    }
}

/// Scanning an escaped control-free content followed by a closing
/// quote yields that content and stops after the quote.
pub proof fn lemma_scan_str_of_esc(s: Seq<u8>, i: int, content: Seq<u8>)
    requires
        0 <= i,
        i + esc(content).len() + 1 <= s.len(),
        s.subrange(i, i + esc(content).len()) == esc(content),
        s[i + esc(content).len()] == 34,
        forall|k: int| 0 <= k < content.len() ==> 32 <= #[trigger] content[k],
    ensures
        scan_str(s, i) == Some((content, i + esc(content).len() + 1)),
    decreases content.len(),
{
    let e = esc(content);
    if content.len() == 0 {
        assert(e =~= Seq::<u8>::empty());
        assert(s[i] == 34);
        assert(scan_str(s, i) == Some((Seq::<u8>::empty(), i + 1)));
        assert(Seq::<u8>::empty() =~= content);
    } else {
        let h = content[0];
        let tail = content.skip(1);
        assert(e == esc_byte(h) + esc(tail));
        assert(forall|k: int| 0 <= k < tail.len() ==> 32 <= #[trigger] tail[k]);
        assert forall|k: int| 0 <= k < e.len() implies s[i + k] == e[k] by {
            assert(s.subrange(i, i + e.len())[k] == e[k]);
        }
        if h == 34 || h == 92 {
            assert(e[0] == 92 && e[1] == h);
            assert(s[i] == 92 && s[i + 1] == h);
            assert(i + 1 < s.len());
            assert forall|k: int| 0 <= k < esc(tail).len() implies s[i + 2 + k] == esc(tail)[k] by {
                assert(s[i + 2 + k] == e[2 + k]);
                assert(e[2 + k] == esc(tail)[k]);
            }
            assert(s.subrange(i + 2, i + 2 + esc(tail).len()) =~= esc(tail));
            assert(s[i + 2 + esc(tail).len()] == 34);
            lemma_scan_str_of_esc(s, i + 2, tail);
            assert(scan_str(s, i + 2) == Some((tail, i + 2 + esc(tail).len() + 1)));
            assert(scan_str(s, i) == Some(
                (seq![s[i + 1]] + tail, i + 2 + esc(tail).len() + 1),
            ));
            assert(seq![h] + tail =~= content);
            assert(i + 2 + esc(tail).len() + 1 == i + e.len() + 1);
        } else {
            assert(e[0] == h);
            assert(s[i] == h);
            assert(32 <= h && h != 34 && h != 92);
            assert forall|k: int| 0 <= k < esc(tail).len() implies s[i + 1 + k] == esc(tail)[k] by {
                assert(s[i + 1 + k] == e[1 + k]);
                assert(e[1 + k] == esc(tail)[k]);
            }
            assert(s.subrange(i + 1, i + 1 + esc(tail).len()) =~= esc(tail));
            assert(s[i + 1 + esc(tail).len()] == 34);
            lemma_scan_str_of_esc(s, i + 1, tail);
            assert(scan_str(s, i + 1) == Some((tail, i + 1 + esc(tail).len() + 1)));
            assert(scan_str(s, i) == Some(
                (seq![s[i]] + tail, i + 1 + esc(tail).len() + 1),
            ));
            assert(seq![h] + tail =~= content);
            assert(i + 1 + esc(tail).len() + 1 == i + e.len() + 1);
        }
    }
}

/// Parsing inverts serialization: the canonical JSON of well-formed
/// claims parses back to exactly those claims.
/// Every byte of the UTF-8 form of a JSON-safe character is at or
/// above the space byte: a one-byte character keeps its code, and
/// every byte of a longer encoding has its high bit set.
pub proof fn lemma_scalar_bytes_no_control(c: char)
    requires
        json_safe_char(c),
    ensures
        forall|i: int|
            0 <= i < encode_scalar(c as u32).len() ==> 32 <= #[trigger] encode_scalar(c as u32)[i],
{
    let u = c as u32;
    assert(32 <= u);
    let e = encode_scalar(u);
    if has_width_1_encoding(u) {
        let b0 = (u & 0x7F) as u8;
        assert(e == seq![b0]);
        assert(32 <= b0) by (bit_vector)
            requires
                b0 == (u & 0x7F) as u8,
                32 <= u < 0x80,
        ;
    } else if has_width_2_encoding(u) {
        let b0 = (0xC0 | ((u >> 6) & 0x1F) as u8) as u8;
        let b1 = (0x80 | (u & 0x3F) as u8) as u8;
        assert(e == seq![b0, b1]);
        assert(32 <= b0 && 32 <= b1) by (bit_vector)
            requires
                b0 == (0xC0 | ((u >> 6) & 0x1F) as u8) as u8,
                b1 == (0x80 | (u & 0x3F) as u8) as u8,
        ;
    } else if has_width_3_encoding(u) {
        let b0 = (0xE0 | ((u >> 12) & 0x0F) as u8) as u8;
        let b1 = (0x80 | ((u >> 6) & 0x3F) as u8) as u8;
        let b2 = (0x80 | (u & 0x3F) as u8) as u8;
        assert(e == seq![b0, b1, b2]);
        assert(32 <= b0 && 32 <= b1 && 32 <= b2) by (bit_vector)
            requires
                b0 == (0xE0 | ((u >> 12) & 0x0F) as u8) as u8,
                b1 == (0x80 | ((u >> 6) & 0x3F) as u8) as u8,
                b2 == (0x80 | (u & 0x3F) as u8) as u8,
        ;
    } else {
        let b0 = (0xF0 | ((u >> 18) & 0x7) as u8) as u8;
        let b1 = (0x80 | ((u >> 12) & 0x3F) as u8) as u8;
        let b2 = (0x80 | ((u >> 6) & 0x3F) as u8) as u8;
        let b3 = (0x80 | (u & 0x3F) as u8) as u8;
        assert(e == seq![b0, b1, b2, b3]);
        assert(32 <= b0 && 32 <= b1 && 32 <= b2 && 32 <= b3) by (bit_vector)
            requires
                b0 == (0xF0 | ((u >> 18) & 0x7) as u8) as u8,
                b1 == (0x80 | ((u >> 12) & 0x3F) as u8) as u8,
                b2 == (0x80 | ((u >> 6) & 0x3F) as u8) as u8,
                b3 == (0x80 | (u & 0x3F) as u8) as u8,
        ;
    }
}

/// A JSON-safe character sequence encodes to bytes that are all at or
/// above the space byte.
pub proof fn lemma_json_safe_encode(cs: Seq<char>)
    requires
        json_safe(cs),
    ensures
        forall|i: int|
            0 <= i < encode_utf8(cs).len() ==> 32 <= #[trigger] encode_utf8(cs)[i],
    decreases cs.len(),
{
    if cs.len() > 0 {
        lemma_scalar_bytes_no_control(cs[0]);
        assert(json_safe(cs.drop_first())) by {
            assert(forall|i: int|
                0 <= i < cs.drop_first().len() ==> #[trigger] cs.drop_first()[i] == cs[i + 1]);
        }
        lemma_json_safe_encode(cs.drop_first());
        let e0 = encode_scalar(cs[0] as u32);
        assert(encode_utf8(cs) == e0 + encode_utf8(cs.drop_first()));
        assert forall|i: int| 0 <= i < encode_utf8(cs).len() implies 32 <= #[trigger] encode_utf8(
            cs,
        )[i] by {
            if i < e0.len() {
                assert(encode_utf8(cs)[i] == e0[i]);
            } else {
                assert(encode_utf8(cs)[i] == encode_utf8(cs.drop_first())[i - e0.len()]);
            }
        }
    }
}

/// Valid UTF-8 whose bytes all sit at or above the space byte decodes
/// to JSON-safe characters: no control character hides in it.
pub proof fn lemma_no_control_decode(bs: Seq<u8>)
    requires
        valid_utf8(bs),
        forall|i: int| 0 <= i < bs.len() ==> 32 <= #[trigger] bs[i],
    ensures
        json_safe(decode_utf8(bs)),
    decreases bs.len(),
{
    if bs.len() > 0 {
        let cs = decode_utf8(bs);
        let u = decode_first_scalar(bs);
        assert(valid_first_scalar(bs));
        let b0 = bs[0];
        if is_leading_byte_width_1(b0) {
            assert(u == (b0 & 0x7F) as u32);
            assert(32 <= u < 0xD800) by (bit_vector)
                requires
                    u == (b0 & 0x7F) as u32,
                    32 <= b0,
                    b0 <= 0x7f,
            ;
        } else if vstd::utf8::is_leading_byte_width_2(b0) {
            let b1 = bs[1];
            assert(u == ((b0 & 0x1F) as u32) << 6 | (b1 & 0x3f) as u32);
            assert(u < 0xD800) by (bit_vector)
                requires
                    u == ((b0 & 0x1F) as u32) << 6 | (b1 & 0x3f) as u32,
            ;
            assert(0x80 <= u);
        } else if vstd::utf8::is_leading_byte_width_3(b0) {
            let b1 = bs[1];
            let b2 = bs[2];
            assert(u == ((b0 & 0x0F) as u32) << 12 | ((b1 & 0x3f) as u32) << 6 | (b2
                & 0x3f) as u32);
            assert(u <= 0xFFFF) by (bit_vector)
                requires
                    u == ((b0 & 0x0F) as u32) << 12 | ((b1 & 0x3f) as u32) << 6 | (b2
                        & 0x3f) as u32,
            ;
            assert(0x800 <= u);
        } else {
            assert(0x10000 <= u <= 0x10ffff);
        }
        assert(vstd::utf8::is_scalar(u));
        assert((u as char) as u32 == u);
        assert(' ' <= (u as char));
        let n = length_of_first_scalar(bs);
        let rest = pop_first_scalar(bs);
        assert(rest =~= bs.skip(n));
        assert(forall|i: int| 0 <= i < rest.len() ==> 32 <= #[trigger] rest[i]) by {
            assert(forall|i: int| 0 <= i < rest.len() ==> rest[i] == bs[i + n]);
        }
        lemma_no_control_decode(rest);
        assert(cs.drop_first() =~= decode_utf8(rest));
        assert forall|i: int| 0 <= i < cs.len() implies json_safe_char(#[trigger] cs[i]) by {
            if i > 0 {
                assert(cs[i] == cs.drop_first()[i - 1]);
            }
        }
    }
}

#[verifier::rlimit(100)]
pub proof fn lemma_parse_of_json(m: ClaimsModel)
    requires
        m.wf(),
    ensures
        parse_claims(json_of(m)) == Some(m),
{
    let s = json_of(m);
    let sd = dec_of(m.sub);
    let ed = dec_of(m.exp);
    let eb = encode_utf8(m.email);
    let ub = encode_utf8(m.username);
    let ee = esc(eb);
    let eu = esc(ub);
    let p1 = lit_obj_sub();
    let p2 = p1 + sd;
    let p3 = p2 + lit_q_exp();
    let p4 = p3 + ed;
    let p5 = p4 + lit_email();
    let p6 = p5 + ee;
    let p7 = p6 + lit_q_username();
    let p8 = p7 + eu;
    assert(s == p8 + lit_close());
    let a1 = 8 + sd.len() as int;
    let a2 = a1 + 8;
    let a3 = a2 + ed.len() as int;
    let a4 = a3 + 10;
    let a5 = a4 + ee.len() as int;
    let a6 = a5 + 14;
    let a7 = a6 + eu.len() as int;
    assert(s.len() == a7 + 2);

    lemma_dec_of_digits(m.sub);
    lemma_dec_of_digits(m.exp);

    // where each piece of the serialized object stands in `s`
    assert forall|k: int| 0 <= k < 8 implies #[trigger] s[k] == lit_obj_sub()[k] by {
        assert(s[k] == p8[k]);
        assert(p8[k] == p7[k]);
        assert(p7[k] == p6[k]);
        assert(p6[k] == p5[k]);
        assert(p5[k] == p4[k]);
        assert(p4[k] == p3[k]);
        assert(p3[k] == p2[k]);
        assert(p2[k] == p1[k]);
    }
    assert forall|k: int| 8 <= k < a1 implies #[trigger] s[k] == sd[k - 8] by {
        assert(s[k] == p8[k]);
        assert(p8[k] == p7[k]);
        assert(p7[k] == p6[k]);
        assert(p6[k] == p5[k]);
        assert(p5[k] == p4[k]);
        assert(p4[k] == p3[k]);
        assert(p3[k] == p2[k]);
        assert(p2[k] == sd[k - 8]);
    }
    assert forall|k: int| a1 <= k < a2 implies #[trigger] s[k] == lit_q_exp()[k - a1] by {
        assert(s[k] == p8[k]);
        assert(p8[k] == p7[k]);
        assert(p7[k] == p6[k]);
        assert(p6[k] == p5[k]);
        assert(p5[k] == p4[k]);
        assert(p4[k] == p3[k]);
        assert(p3[k] == lit_q_exp()[k - a1]);
    }
    assert forall|k: int| a2 <= k < a3 implies #[trigger] s[k] == ed[k - a2] by {
        assert(s[k] == p8[k]);
        assert(p8[k] == p7[k]);
        assert(p7[k] == p6[k]);
        assert(p6[k] == p5[k]);
        assert(p5[k] == p4[k]);
        assert(p4[k] == ed[k - a2]);
    }
    assert forall|k: int| a3 <= k < a4 implies #[trigger] s[k] == lit_email()[k - a3] by {
        assert(s[k] == p8[k]);
        assert(p8[k] == p7[k]);
        assert(p7[k] == p6[k]);
        assert(p6[k] == p5[k]);
        assert(p5[k] == lit_email()[k - a3]);
    }
    assert forall|k: int| a4 <= k < a5 implies #[trigger] s[k] == ee[k - a4] by {
        assert(s[k] == p8[k]);
        assert(p8[k] == p7[k]);
        assert(p7[k] == p6[k]);
        assert(p6[k] == ee[k - a4]);
    }
    assert forall|k: int| a5 <= k < a6 implies #[trigger] s[k] == lit_q_username()[k - a5] by {
        assert(s[k] == p8[k]);
        assert(p8[k] == p7[k]);
        assert(p7[k] == lit_q_username()[k - a5]);
    }
    assert forall|k: int| a6 <= k < a7 implies #[trigger] s[k] == eu[k - a6] by {
        assert(s[k] == p8[k]);
        assert(p8[k] == eu[k - a6]);
    }
    assert forall|k: int| a7 <= k < a7 + 2 implies #[trigger] s[k] == lit_close()[k - a7] by {
        assert(s[k] == (p8 + lit_close())[k]);
        assert((p8 + lit_close())[k] == lit_close()[k - a7]);
    }
    assert(s[a7] == 34 && s[a7 + 1] == 125);

    // the sub digits
    assert(s.subrange(0, 8) =~= lit_obj_sub());
    assert(match_lit(s, 0, lit_obj_sub()));
    assert(s[a1] == 34);
    lemma_scan_digits_run(s, 8, a1);
    assert(scan_digits(s, 8) == a1);
    reveal_with_fuel(pow10, 11);
    assert(pow10(10) == 10000000000);
    lemma_dec_of_len(m.sub, 10);
    assert(a1 - 8 <= 10);
    assert(s.subrange(8, a1) =~= sd);
    lemma_dec_val_of(m.sub);
    assert(dec_val(s.subrange(8, a1)) == m.sub);

    // the exp digits
    assert(s.subrange(a1, a2) =~= lit_q_exp());
    assert(match_lit(s, a1, lit_q_exp()));
    assert(s[a3] == 44);
    lemma_scan_digits_run(s, a2, a3);
    reveal_with_fuel(pow10, 20);
    assert(pow10(19) == 10000000000000000000);
    lemma_dec_of_len(m.exp, 19);
    assert(a3 - a2 <= 19);
    assert(s.subrange(a2, a3) =~= ed);
    lemma_dec_val_of(m.exp);
    assert(dec_val(s.subrange(a2, a3)) == m.exp);

    // the email string
    assert(s.subrange(a3, a4) =~= lit_email());
    assert(match_lit(s, a3, lit_email()));
    assert(s.subrange(a4, a4 + ee.len()) =~= ee);
    assert(s[a5] == 34);
    lemma_json_safe_encode(m.email);
    lemma_scan_str_of_esc(s, a4, eb);
    assert(scan_str(s, a4) == Some((eb, a5 + 1)));

    // the username string
    assert forall|k: int| 0 <= k < 13 implies #[trigger] s[a5 + 1 + k] == plit_username()[k] by {
        assert(s[a5 + 1 + k] == lit_q_username()[1 + k]);
    }
    assert(s.subrange(a5 + 1, a5 + 1 + 13) =~= plit_username());
    assert(match_lit(s, a5 + 1, plit_username()));
    assert(s.subrange(a6, a6 + eu.len()) =~= eu);
    assert(s[a7] == 34);
    lemma_json_safe_encode(m.username);
    lemma_scan_str_of_esc(s, a6, ub);
    assert(scan_str(s, a6) == Some((ub, a7 + 1)));

    // the closing brace, and the reassembled model
    assert(s[a7 + 1] == 125);
    encode_utf8_valid_utf8(m.email);
    encode_utf8_valid_utf8(m.username);
    encode_utf8_decode_utf8(m.email);
    encode_utf8_decode_utf8(m.username);
    assert(decode_utf8(eb) == m.email);
    assert(decode_utf8(ub) == m.username);
    assert(parse_claims(s) == Some(m));
}


/// A printable ASCII byte survives the round trip through `char`.
pub proof fn lemma_u8_char_round(b: u8)
    requires
        32 <= b <= 126,
    ensures
        crate::codec::printable_char(b as char),
        (b as char) as u8 == b,
{
}

/// Append the decimal digits of `n`.
fn push_u64_dec(out: &mut Vec<u8>, n: u64)
    ensures
        final(out)@ == old(out)@ + dec_of(n as int),
    decreases n,
{
    if n < 10 {
        out.push(48 + n as u8);
        proof {
            assert(out@ =~= old(out)@ + dec_of(n as int));
        }
    } else {
        push_u64_dec(out, n / 10);
        out.push(48 + (n % 10) as u8);
        proof {
            assert(out@ =~= old(out)@ + dec_of(n as int));
        }
    }
}

/// Append `s` with JSON string escaping.
#[verifier::loop_isolation(false)]
fn append_escaped(out: &mut Vec<u8>, s: &[u8])
    ensures
        final(out)@ == old(out)@ + esc(s@),
{
    let ghost base: Seq<u8> = out@;
    let mut i: usize = 0;
    proof {
        assert(s@.skip(0) =~= s@);
    }
    while i < s.len()
        invariant
            i <= s.len(),
            base + esc(s@) == out@ + esc(s@.skip(i as int)),
        decreases s.len() - i,
    {
        let ghost prev = out@;
        let b = s[i];
        if b == 34 || b == 92 {
            out.push(92);
            out.push(b);
        } else {
            out.push(b);
        }
        proof {
            let rem = s@.skip(i as int);
            assert(rem[0] == b);
            assert(rem.skip(1) =~= s@.skip(i + 1));
            assert(esc(rem) == esc_byte(b) + esc(s@.skip(i + 1)));
            assert(out@ =~= prev + esc_byte(b));
            assert(out@ + esc(s@.skip(i + 1)) =~= prev + esc(rem));
        }
        i = i + 1;
    }
    proof {
        assert(s@.skip(i as int) =~= Seq::<u8>::empty());
        assert(esc(Seq::<u8>::empty()) == Seq::<u8>::empty());
        assert(out@ =~= base + esc(s@));
    }
}

/// Serialize claims to their canonical JSON bytes.
#[verifier::rlimit(100)]
pub fn claims_to_json(c: &Claims) -> (r: Vec<u8>)
    requires
        c@.wf(),
    ensures
        r@ == json_of(c@),
{
    let mut out: Vec<u8> = Vec::new();
    out.push(123);
    out.push(34);
    out.push(115);
    out.push(117);
    out.push(98);
    out.push(34);
    out.push(58);
    out.push(34);
    proof {
        assert(out@ =~= lit_obj_sub());
    }
    let ghost g1 = lit_obj_sub();
    push_u64_dec(&mut out, c.sub as u64);
    let ghost g2 = g1 + dec_of(c@.sub);
    proof {
        assert(out@ == g2);
    }
    out.push(34);
    out.push(44);
    out.push(34);
    out.push(101);
    out.push(120);
    out.push(112);
    out.push(34);
    out.push(58);
    let ghost g3 = g2 + lit_q_exp();
    proof {
        assert(out@ =~= g2 + lit_q_exp());
    }
    push_u64_dec(&mut out, c.exp as u64);
    let ghost g4 = g3 + dec_of(c@.exp);
    proof {
        assert(out@ == g4);
    }
    out.push(44);
    out.push(34);
    out.push(101);
    out.push(109);
    out.push(97);
    out.push(105);
    out.push(108);
    out.push(34);
    out.push(58);
    out.push(34);
    let ghost g5 = g4 + lit_email();
    proof {
        assert(out@ =~= g4 + lit_email());
    }
    let estr = c.email.as_str();
    let ebs = estr.as_bytes();
    proof {
        assert(ebs@ == encode_utf8(c@.email));
    }
    append_escaped(&mut out, ebs);
    let ghost g6 = g5 + esc(encode_utf8(c@.email));
    proof {
        assert(out@ == g6);
    }
    out.push(34);
    out.push(44);
    out.push(34);
    out.push(117);
    out.push(115);
    out.push(101);
    out.push(114);
    out.push(110);
    out.push(97);
    out.push(109);
    out.push(101);
    out.push(34);
    out.push(58);
    out.push(34);
    let ghost g7 = g6 + lit_q_username();
    proof {
        assert(out@ =~= g6 + lit_q_username());
    }
    let ustr = c.username.as_str();
    let ubs = ustr.as_bytes();
    proof {
        assert(ubs@ == encode_utf8(c@.username));
    }
    append_escaped(&mut out, ubs);
    let ghost g8 = g7 + esc(encode_utf8(c@.username));
    proof {
        assert(out@ == g8);
    }
    out.push(34);
    out.push(125);
    proof {
        assert(out@ =~= g8 + lit_close());
        assert(out@ == json_of(c@));
    }
    out
}

/// Whether `lit` stands at position `i` of `s`.
#[verifier::loop_isolation(false)]
pub(crate) fn match_lit_exec(s: &[u8], i: usize, lit: &[u8]) -> (b: bool)
    requires
        i <= s.len(),
    ensures
        b == match_lit(s@, i as int, lit@),
{
    if s.len() - i < lit.len() {
        return false;
    }
    let mut j: usize = 0;
    while j < lit.len()
        invariant
            j <= lit.len(),
            forall|k: int| 0 <= k < j ==> s@[i + k] == lit@[k],
        decreases lit.len() - j,
    {
        if s[i + j] != lit[j] {
            proof {
                assert(s@.subrange(i as int, i + lit@.len())[j as int] != lit@[j as int]);
            }
            return false;
        }
        j = j + 1;
    }
    proof {
        assert(s@.subrange(i as int, i + lit@.len()) =~= lit@);
    }
    true
}

/// The end of the digit run beginning at `i`.
#[verifier::loop_isolation(false)]
fn scan_digits_exec(s: &[u8], i: usize) -> (j: usize)
    requires
        i <= s.len(),
    ensures
        j as int == scan_digits(s@, i as int),
        i <= j <= s.len(),
        forall|k: int| i <= k < j ==> is_digit(#[trigger] s@[k]),
    decreases s.len() - i,
{
    let mut j: usize = i;
    while j < s.len() && 48 <= s[j] && s[j] <= 57
        invariant
            i <= j <= s.len(),
            scan_digits(s@, i as int) == scan_digits(s@, j as int),
            forall|k: int| i <= k < j ==> is_digit(#[trigger] s@[k]),
        decreases s.len() - j,
    {
        j = j + 1;
    }
    j
}

/// `pow10` is positive.
pub proof fn lemma_pow10_pos(k: nat)
    ensures
        pow10(k) >= 1,
    decreases k,
{
    if k > 0 {
        lemma_pow10_pos((k - 1) as nat);
    }
}

/// `pow10` grows with its argument.
pub proof fn lemma_pow10_mono(a: nat, b: nat)
    requires
        a <= b,
    ensures
        pow10(a) <= pow10(b),
    decreases b,
{
    if a < b {
        lemma_pow10_mono(a, (b - 1) as nat);
        lemma_pow10_pos((b - 1) as nat);
    }
}

/// The value of a short run of digit bytes.
#[verifier::loop_isolation(false)]
fn dec_value_u64(s: &[u8], a: usize, b: usize) -> (v: u64)
    requires
        a <= b <= s.len(),
        b - a <= 19,
        forall|k: int| a <= k < b ==> is_digit(#[trigger] s@[k]),
    ensures
        v as int == dec_val(s@.subrange(a as int, b as int)),
        (v as int) < pow10((b - a) as nat),
{
    let mut v: u64 = 0;
    let mut i: usize = a;
    proof {
        assert(s@.subrange(a as int, a as int) =~= Seq::<u8>::empty());
    }
    while i < b
        invariant
            a <= i <= b,
            v as int == dec_val(s@.subrange(a as int, i as int)),
            (v as int) < pow10((i - a) as nat),
        decreases b - i,
    {
        proof {
            lemma_pow10_mono((i - a) as nat, 18);
            reveal_with_fuel(pow10, 20);
            assert(pow10(18) == 1000000000000000000);
            assert(v < 1000000000000000000);
        }
        let d = s[i] - 48;
        proof {
            assert(is_digit(s@[i as int]));
            let pre = s@.subrange(a as int, i as int);
            let cur = s@.subrange(a as int, i + 1);
            assert(cur.take(cur.len() - 1) =~= pre);
            assert(cur[cur.len() - 1] == s@[i as int]);
            assert(dec_val(cur) == dec_val(pre) * 10 + d);
            assert(((v * 10 + d) as int) < 10 * pow10((i - a) as nat)) by (nonlinear_arith)
                requires
                    (v as int) < pow10((i - a) as nat),
                    d <= 9,
                    v >= 0,
                    d >= 0,
            ;
            assert(pow10((i + 1 - a) as nat) == 10 * pow10((i - a) as nat));
        }
        v = v * 10 + d as u64;
        i = i + 1;
    }
    v
}

/// Read a JSON string body; the content and the position after the
/// closing quote.
#[verifier::loop_isolation(false)]
fn scan_str_exec(s: &[u8], start: usize) -> (r: Option<(Vec<u8>, usize)>)
    requires
        start <= s.len(),
    ensures
        match r {
            Some(t) => scan_str(s@, start as int) == Some((t.0@, t.1 as int)) && t.1 <= s.len(),
            None => scan_str(s@, start as int) is None,
        },
{
    let mut out: Vec<u8> = Vec::new();
    let mut i: usize = start;
    while i < s.len()
        invariant
            start <= i <= s.len(),
            (match scan_str(s@, i as int) {
                Some(t) => scan_str(s@, start as int) == Some((out@ + t.0, t.1)),
                None => scan_str(s@, start as int) is None,
            }),
        decreases s.len() - i,
    {
        let c = s[i];
        if c == 34 {
            proof {
                assert(scan_str(s@, i as int) == Some((Seq::<u8>::empty(), i + 1)));
                assert(out@ + Seq::<u8>::empty() =~= out@);
            }
            return Some((out, i + 1));
        } else if c == 92 {
            if i + 1 < s.len() && (s[i + 1] == 34 || s[i + 1] == 92) {
                let ghost prev = out@;
                out.push(s[i + 1]);
                proof {
                    if let Some((t, j)) = scan_str(s@, i + 2) {
                        assert(scan_str(s@, i as int) == Some((seq![s@[i + 1]] + t, j)));
                        assert(prev + (seq![s@[i + 1]] + t) =~= out@ + t);
                    }
                }
                i = i + 2;
            } else {
                proof {
                    assert(scan_str(s@, i as int) is None);
                }
                return None;
            }
        } else if 32 <= c {
            let ghost prev = out@;
            out.push(c);
            proof {
                if let Some((t, j)) = scan_str(s@, i + 1) {
                    assert(scan_str(s@, i as int) == Some((seq![s@[i as int]] + t, j)));
                    assert(prev + (seq![s@[i as int]] + t) =~= out@ + t);
                }
            }
            i = i + 1;
        } else {
            proof {
                assert(scan_str(s@, i as int) is None);
            }
            return None;
        }
    }
    proof {
        assert(scan_str(s@, i as int) is None);
    }
    None
}


/// Parse canonical claims JSON bytes; `None` on anything else.
#[verifier::rlimit(100)]
pub fn parse_claims_bytes(s: &[u8]) -> (r: Option<Claims>)
    ensures
        match r {
            Some(c) => parse_claims(s@) == Some(c@) && c@.wf(),
            None => parse_claims(s@) is None,
        },
{
    let l1: Vec<u8> = vec![123, 34, 115, 117, 98, 34, 58, 34];
    proof {
        assert(l1@ =~= lit_obj_sub());
    }
    if !match_lit_exec(s, 0, l1.as_slice()) {
        return None;
    }
    let d1 = scan_digits_exec(s, 8);
    if d1 == 8 || d1 - 8 > 10 {
        return None;
    }
    let sub_v = dec_value_u64(s, 8, d1);
    if sub_v > 2147483647 {
        return None;
    }
    let l2: Vec<u8> = vec![34, 44, 34, 101, 120, 112, 34, 58];
    proof {
        assert(l2@ =~= lit_q_exp());
    }
    if !match_lit_exec(s, d1, l2.as_slice()) {
        return None;
    }
    let i2 = d1 + 8;
    let d2 = scan_digits_exec(s, i2);
    if d2 == i2 || d2 - i2 > 19 {
        return None;
    }
    let exp_v = dec_value_u64(s, i2, d2);
    if exp_v > 9223372036854775807 {
        return None;
    }
    let l3: Vec<u8> = vec![44, 34, 101, 109, 97, 105, 108, 34, 58, 34];
    proof {
        assert(l3@ =~= lit_email());
    }
    if !match_lit_exec(s, d2, l3.as_slice()) {
        return None;
    }
    let em = scan_str_exec(s, d2 + 10);
    let (em_v, j1) = match em {
        Some(t) => t,
        None => {
            return None;
        },
    };
    let l4: Vec<u8> = vec![44, 34, 117, 115, 101, 114, 110, 97, 109, 101, 34, 58, 34];
    proof {
        assert(l4@ =~= plit_username());
    }
    if !match_lit_exec(s, j1, l4.as_slice()) {
        return None;
    }
    let un = scan_str_exec(s, j1 + 13);
    let (un_v, k) = match un {
        Some(t) => t,
        None => {
            return None;
        },
    };
    if !(s.len() - k == 1 && s[k] == 125) {
        return None;
    }
    proof {
        lemma_scan_str_props(s@, d2 + 10);
        lemma_scan_str_props(s@, j1 + 13);
    }
    let ghost em_b = em_v@;
    let ghost un_b = un_v@;
    let email = match string_from_utf8(em_v) {
        Some(t) => t,
        None => {
            return None;
        },
    };
    let username = match string_from_utf8(un_v) {
        Some(t) => t,
        None => {
            return None;
        },
    };
    let c = Claims { sub: sub_v as i32, exp: exp_v as i64, email, username };
    proof {
        lemma_no_control_decode(em_b);
        lemma_no_control_decode(un_b);
        assert(c@.wf());
        assert(parse_claims(s@) == Some(c@));
    }
    Some(c)
}

} // verus!
