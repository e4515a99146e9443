//! Base64url (no padding) over byte sequences, and the bridge between
//! ASCII bytes and strings. Tokens are framed from these pieces.

use vstd::prelude::*;

verus! {

/// The base64url alphabet byte standing for a six-bit value.
pub open spec fn b64_char_of(v: u8) -> u8 {
    if v < 26 {
        (65 + v) as u8  // 'A'..='Z'
    } else if v < 52 {
        (71 + v) as u8  // 'a'..='z'
    } else if v < 62 {
        (v - 4) as u8  // '0'..='9'
    } else if v == 62 {
        45  // '-'
    } else {
        95  // '_'
    }
}

/// The six-bit value of a base64url alphabet byte, or 255 when the byte
/// is not in the alphabet.
pub open spec fn b64_val_of(c: u8) -> u8 {
    if 65 <= c < 91 {
        (c - 65) as u8
    } else if 97 <= c < 123 {
        (c - 71) as u8
    } else if 48 <= c < 58 {
        (c + 4) as u8
    } else if c == 45 {
        62
    } else if c == 95 {
        63
    } else {
        255
    }
}

/// Base64url without padding: three input bytes become four alphabet
/// bytes; a tail of one or two bytes becomes two or three.
pub open spec fn b64_encode(bs: Seq<u8>) -> Seq<u8>
    decreases bs.len(),
{
    if bs.len() >= 3 {
        seq![
            b64_char_of(bs[0] >> 2),
            b64_char_of((bs[0] & 3) << 4 | bs[1] >> 4),
            b64_char_of((bs[1] & 15) << 2 | bs[2] >> 6),
            b64_char_of(bs[2] & 63),
        ] + b64_encode(bs.skip(3))
    } else if bs.len() == 2 {
        seq![
            b64_char_of(bs[0] >> 2),
            b64_char_of((bs[0] & 3) << 4 | bs[1] >> 4),
            b64_char_of((bs[1] & 15) << 2),
        ]
    } else if bs.len() == 1 {
        seq![b64_char_of(bs[0] >> 2), b64_char_of((bs[0] & 3) << 4)]
    } else {
        Seq::<u8>::empty()
    }
}

/// Strict base64url decoding: only canonical encodings (trailing bits
/// zero, no padding) are accepted; anything else is `None`.
pub open spec fn b64_decode(s: Seq<u8>) -> Option<Seq<u8>>
    decreases s.len(),
{
    if s.len() == 0 {
        Some(Seq::<u8>::empty())
    } else if s.len() == 1 {
        None
    } else if s.len() == 2 {
        let v0 = b64_val_of(s[0]);
        let v1 = b64_val_of(s[1]);
        if v0 < 64 && v1 < 64 && v1 & 15 == 0 {
            Some(seq![v0 << 2 | v1 >> 4])
        } else {
            None
        }
    } else if s.len() == 3 {
        let v0 = b64_val_of(s[0]);
        let v1 = b64_val_of(s[1]);
        let v2 = b64_val_of(s[2]);
        if v0 < 64 && v1 < 64 && v2 < 64 && v2 & 3 == 0 {
            Some(seq![v0 << 2 | v1 >> 4, (v1 & 15) << 4 | v2 >> 2])
        } else {
            None
        }
    } else {
        let v0 = b64_val_of(s[0]);
        let v1 = b64_val_of(s[1]);
        let v2 = b64_val_of(s[2]);
        let v3 = b64_val_of(s[3]);
        if v0 < 64 && v1 < 64 && v2 < 64 && v3 < 64 {
            match b64_decode(s.skip(4)) {
                Some(rest) => Some(
                    seq![v0 << 2 | v1 >> 4, (v1 & 15) << 4 | v2 >> 2, (v2 & 3) << 6 | v3] + rest,
                ),
                None => None,
            }
        } else {
            None
        }
    }
}

/// Every alphabet byte is printable ASCII and is not `.`, the byte that
/// separates token segments.
pub proof fn lemma_b64_char_range(v: u8)
    ensures
        32 <= b64_char_of(v) < 127,
        b64_char_of(v) != 46,
{
}

/// The alphabet is decoded exactly by `b64_val_of`.
pub proof fn lemma_b64_char_val(v: u8)
    requires
        v < 64,
    ensures
        b64_val_of(b64_char_of(v)) == v,
{
}

/// Every byte of an encoding is a printable non-`.` byte.
pub proof fn lemma_b64_encode_bytes(bs: Seq<u8>)
    ensures
        forall|i: int|
            0 <= i < b64_encode(bs).len() ==> 32 <= #[trigger] b64_encode(bs)[i] < 127
                && b64_encode(bs)[i] != 46,
    decreases bs.len(),
{
    if bs.len() >= 3 {
        lemma_b64_encode_bytes(bs.skip(3));
        assert forall|i: int| 0 <= i < b64_encode(bs).len() implies 32 <= #[trigger] b64_encode(
            bs,
        )[i] < 127 && b64_encode(bs)[i] != 46 by {
            if i < 4 {
                lemma_b64_char_range(b64_encode(bs)[i]);
                assert(32 <= b64_encode(bs)[i] < 127 && b64_encode(bs)[i] != 46) by {
                    lemma_b64_char_range(bs[0] >> 2);
                    lemma_b64_char_range((bs[0] & 3) << 4 | bs[1] >> 4);
                    lemma_b64_char_range((bs[1] & 15) << 2 | bs[2] >> 6);
                    lemma_b64_char_range(bs[2] & 63);
                }
            } else {
                assert(b64_encode(bs)[i] == b64_encode(bs.skip(3))[i - 4]);
            }
        }
    } else if bs.len() == 2 {
        lemma_b64_char_range(bs[0] >> 2);
        lemma_b64_char_range((bs[0] & 3) << 4 | bs[1] >> 4);
        lemma_b64_char_range((bs[1] & 15) << 2);
    } else if bs.len() == 1 {
        lemma_b64_char_range(bs[0] >> 2);
        lemma_b64_char_range((bs[0] & 3) << 4);
    }
}

/// Decoding inverts encoding: the codec loses nothing.
pub proof fn lemma_b64_round_trip(bs: Seq<u8>)
    ensures
        b64_decode(b64_encode(bs)) == Some(bs),
    decreases bs.len(),
{
    if bs.len() >= 3 {
        let b0 = bs[0];
        let b1 = bs[1];
        let b2 = bs[2];
        let c0 = b0 >> 2;
        let c1 = (b0 & 3) << 4 | b1 >> 4;
        let c2 = (b1 & 15) << 2 | b2 >> 6;
        let c3 = b2 & 63;
        assert(c0 < 64 && c1 < 64 && c2 < 64 && c3 < 64) by (bit_vector)
            requires
                c0 == b0 >> 2,
                c1 == (b0 & 3) << 4 | b1 >> 4,
                c2 == (b1 & 15) << 2 | b2 >> 6,
                c3 == b2 & 63,
        ;
        lemma_b64_char_val(c0);
        lemma_b64_char_val(c1);
        lemma_b64_char_val(c2);
        lemma_b64_char_val(c3);
        lemma_b64_round_trip(bs.skip(3));
        let e = b64_encode(bs);
        let head = seq![
            b64_char_of(c0),
            b64_char_of(c1),
            b64_char_of(c2),
            b64_char_of(c3),
        ];
        assert(e == head + b64_encode(bs.skip(3)));
        assert(e.len() >= 4);
        assert(e[0] == b64_char_of(c0) && e[1] == b64_char_of(c1) && e[2] == b64_char_of(c2) && e[3]
            == b64_char_of(c3));
        assert(e.skip(4) =~= b64_encode(bs.skip(3)));
        assert(c0 << 2 | c1 >> 4 == b0 && (c1 & 15) << 4 | c2 >> 2 == b1 && (c2 & 3) << 6 | c3
            == b2) by (bit_vector)
            requires
                c0 == b0 >> 2,
                c1 == (b0 & 3) << 4 | b1 >> 4,
                c2 == (b1 & 15) << 2 | b2 >> 6,
                c3 == b2 & 63,
        ;
        assert(seq![b0, b1, b2] + bs.skip(3) =~= bs);
    } else if bs.len() == 2 {
        let b0 = bs[0];
        let b1 = bs[1];
        let c0 = b0 >> 2;
        let c1 = (b0 & 3) << 4 | b1 >> 4;
        let c2 = (b1 & 15) << 2;
        assert(c0 < 64 && c1 < 64 && c2 < 64 && c2 & 3 == 0) by (bit_vector)
            requires
                c0 == b0 >> 2,
                c1 == (b0 & 3) << 4 | b1 >> 4,
                c2 == (b1 & 15) << 2,
        ;
        lemma_b64_char_val(c0);
        lemma_b64_char_val(c1);
        lemma_b64_char_val(c2);
        assert(c0 << 2 | c1 >> 4 == b0 && (c1 & 15) << 4 | c2 >> 2 == b1) by (bit_vector)
            requires
                c0 == b0 >> 2,
                c1 == (b0 & 3) << 4 | b1 >> 4,
                c2 == (b1 & 15) << 2,
        ;
        assert(seq![b0, b1] =~= bs);
    } else if bs.len() == 1 {
        let b0 = bs[0];
        let c0 = b0 >> 2;
        let c1 = (b0 & 3) << 4;
        assert(c0 < 64 && c1 < 64 && c1 & 15 == 0) by (bit_vector)
            requires
                c0 == b0 >> 2,
                c1 == (b0 & 3) << 4,
        ;
        lemma_b64_char_val(c0);
        lemma_b64_char_val(c1);
        assert(c0 << 2 | c1 >> 4 == b0) by (bit_vector)
            requires
                c0 == b0 >> 2,
                c1 == (b0 & 3) << 4,
        ;
        assert(seq![b0] =~= bs);
    } else {
        assert(b64_encode(bs) =~= Seq::<u8>::empty());
        assert(bs =~= Seq::<u8>::empty());
    }
}

/// The alphabet byte of a six-bit value.
fn b64_char(v: u8) -> (r: u8)
    ensures
        r == b64_char_of(v),
{
    if v < 26 {
        65 + v
    } else if v < 52 {
        71 + v
    } else if v < 62 {
        v - 4
    } else if v == 62 {
        45
    } else {
        95
    }
}

/// The six-bit value of an alphabet byte, or 255 for a byte outside the
/// alphabet.
fn b64_val(c: u8) -> (r: u8)
    ensures
        r == b64_val_of(c),
{
    if 65 <= c && c < 91 {
        c - 65
    } else if 97 <= c && c < 123 {
        c - 71
    } else if 48 <= c && c < 58 {
        c + 4
    } else if c == 45 {
        62
    } else if c == 95 {
        63
    } else {
        255
    }
}

/// Encode bytes as base64url without padding.
pub fn base64url_encode(bs: &[u8]) -> (r: Vec<u8>)
    ensures
        r@ == b64_encode(bs@),
{
    let mut out: Vec<u8> = Vec::new();
    let mut i: usize = 0;
    proof {
        assert(bs@.skip(0) =~= bs@);
        assert(Seq::<u8>::empty() + b64_encode(bs@) =~= b64_encode(bs@));
    }
    while bs.len() - i >= 3
        invariant
            i <= bs.len(),
            b64_encode(bs@) == out@ + b64_encode(bs@.skip(i as int)),
        decreases bs.len() - i,
    {
        let b0 = bs[i];
        let b1 = bs[i + 1];
        let b2 = bs[i + 2];
        let ghost prev = out@;
        out.push(b64_char(b0 >> 2));
        out.push(b64_char((b0 & 3) << 4 | b1 >> 4));
        out.push(b64_char((b1 & 15) << 2 | b2 >> 6));
        out.push(b64_char(b2 & 63));
        proof {
            let rem = bs@.skip(i as int);
            assert(rem.len() >= 3);
            assert(rem[0] == b0 && rem[1] == b1 && rem[2] == b2);
            assert(rem.skip(3) =~= bs@.skip(i + 3));
            assert(out@ =~= prev + seq![
                b64_char_of(b0 >> 2),
                b64_char_of((b0 & 3) << 4 | b1 >> 4),
                b64_char_of((b1 & 15) << 2 | b2 >> 6),
                b64_char_of(b2 & 63),
            ]);
            assert(out@ + b64_encode(bs@.skip(i + 3)) =~= prev + b64_encode(rem));
        }
        i = i + 3;
    }
    let ghost prev = out@;
    if bs.len() - i == 1 {
        let b0 = bs[i];
        out.push(b64_char(b0 >> 2));
        out.push(b64_char((b0 & 3) << 4));
        proof {
            let rem = bs@.skip(i as int);
            assert(rem.len() == 1 && rem[0] == b0);
            assert(out@ =~= prev + b64_encode(rem));
        }
    } else if bs.len() - i == 2 {
        let b0 = bs[i];
        let b1 = bs[i + 1];
        out.push(b64_char(b0 >> 2));
        out.push(b64_char((b0 & 3) << 4 | b1 >> 4));
        out.push(b64_char((b1 & 15) << 2));
        proof {
            let rem = bs@.skip(i as int);
            assert(rem.len() == 2 && rem[0] == b0 && rem[1] == b1);
            assert(out@ =~= prev + b64_encode(rem));
        }
    } else {
        proof {
            assert(bs@.skip(i as int) =~= Seq::<u8>::empty());
            assert(out@ =~= prev + b64_encode(bs@.skip(i as int)));
        }
    }
    out
}

/// Decode base64url without padding; `None` on any non-canonical input.
pub fn base64url_decode(s: &[u8]) -> (r: Option<Vec<u8>>)
    ensures
        match r {
            Some(v) => b64_decode(s@) == Some(v@),
            None => b64_decode(s@) is None,
        },
{
    let mut out: Vec<u8> = Vec::new();
    let mut i: usize = 0;
    proof {
        assert(s@.skip(0) =~= s@);
        if let Some(rest) = b64_decode(s@) {
            assert(Seq::<u8>::empty() + rest =~= rest);
        }
    }
    while s.len() - i >= 4
        invariant
            i <= s.len(),
            (match b64_decode(s@.skip(i as int)) {
                Some(rest) => b64_decode(s@) == Some(out@ + rest),
                None => b64_decode(s@) is None,
            }),
        decreases s.len() - i,
    {
        let v0 = b64_val(s[i]);
        let v1 = b64_val(s[i + 1]);
        let v2 = b64_val(s[i + 2]);
        let v3 = b64_val(s[i + 3]);
        proof {
            let rem = s@.skip(i as int);
            assert(rem.len() >= 4);
            assert(rem[0] == s@[i as int] && rem[1] == s@[i + 1] && rem[2] == s@[i + 2] && rem[3]
                == s@[i + 3]);
            assert(rem.skip(4) =~= s@.skip(i + 4));
        }
        if v0 >= 64 || v1 >= 64 || v2 >= 64 || v3 >= 64 {
            return None;
        }
        let ghost prev = out@;
        out.push(v0 << 2 | v1 >> 4);
        out.push((v1 & 15) << 4 | v2 >> 2);
        out.push((v2 & 3) << 6 | v3);
        proof {
            let rem = s@.skip(i as int);
            let grp = seq![v0 << 2 | v1 >> 4, (v1 & 15) << 4 | v2 >> 2, (v2 & 3) << 6 | v3];
            assert(out@ =~= prev + grp);
            if let Some(rest) = b64_decode(s@.skip(i + 4)) {
                assert(b64_decode(rem) == Some(grp + rest));
                assert(prev + (grp + rest) =~= out@ + rest);
            }
        }
        i = i + 4;
    }
    let n = s.len() - i;
    if n == 0 {
        proof {
            assert(s@.skip(i as int) =~= Seq::<u8>::empty());
            assert(out@ + Seq::<u8>::empty() =~= out@);
        }
        Some(out)
    } else if n == 1 {
        None
    } else if n == 2 {
        let v0 = b64_val(s[i]);
        let v1 = b64_val(s[i + 1]);
        proof {
            let rem = s@.skip(i as int);
            assert(rem.len() == 2 && rem[0] == s@[i as int] && rem[1] == s@[i + 1]);
        }
        if v0 >= 64 || v1 >= 64 || (v1 & 15) != 0 {
            return None;
        }
        let ghost prev = out@;
        out.push(v0 << 2 | v1 >> 4);
        proof {
            assert(out@ =~= prev + seq![v0 << 2 | v1 >> 4]);
        }
        Some(out)
    } else {
        let v0 = b64_val(s[i]);
        let v1 = b64_val(s[i + 1]);
        let v2 = b64_val(s[i + 2]);
        proof {
            let rem = s@.skip(i as int);
            assert(rem.len() == 3 && rem[0] == s@[i as int] && rem[1] == s@[i + 1]
                && rem[2] == s@[i + 2]);
        }
        if v0 >= 64 || v1 >= 64 || v2 >= 64 || (v2 & 3) != 0 {
            return None;
        }
        let ghost prev = out@;
        out.push(v0 << 2 | v1 >> 4);
        out.push((v1 & 15) << 4 | v2 >> 2);
        proof {
            assert(out@ =~= prev + seq![v0 << 2 | v1 >> 4, (v1 & 15) << 4 | v2 >> 2]);
        }
        Some(out)
    }
}

/// The characters with the same code points as a sequence of bytes.
pub open spec fn chars_of(bs: Seq<u8>) -> Seq<char> {
    Seq::new(bs.len(), |i: int| bs[i] as char)
}

/// The bytes with the same code points as a sequence of characters;
/// meaningful when every character is ASCII.
pub open spec fn ascii_bytes(cs: Seq<char>) -> Seq<u8> {
    Seq::new(cs.len(), |i: int| cs[i] as u8)
}

/// A printable ASCII character: space through tilde.
pub open spec fn printable_char(c: char) -> bool {
    ' ' <= c && c <= '~'
}

/// Every character is printable ASCII.
pub open spec fn printable(cs: Seq<char>) -> bool {
    forall|i: int| 0 <= i < cs.len() ==> printable_char(#[trigger] cs[i])
}

/// A character a JSON string can carry raw: anything at or above the
/// space character. The characters below it would need numeric
/// escapes, which the canonical claims form does not use.
pub open spec fn json_safe_char(c: char) -> bool {
    ' ' <= c
}

/// Every character can stand raw inside a JSON string.
pub open spec fn json_safe(cs: Seq<char>) -> bool {
    forall|i: int| 0 <= i < cs.len() ==> json_safe_char(#[trigger] cs[i])
}

/// Relies on `String::from_utf8`: it accepts exactly the valid UTF-8
/// byte sequences, and yields the string those bytes encode.
#[verifier::external_body]
pub(crate) fn string_from_utf8(v: Vec<u8>) -> (r: Option<String>)
    ensures
        r is Some <==> vstd::utf8::valid_utf8(v@),
        r matches Some(s) ==> s@ == vstd::utf8::decode_utf8(v@),
{
    match String::from_utf8(v) {
        Ok(s) => Some(s),
        Err(_) => None,
    }
}

/// Relies on `String::from_utf8`: bytes below 128 are valid UTF-8 and
/// decode to the characters with the same code points.
#[verifier::external_body]
pub(crate) fn string_from_ascii(v: Vec<u8>) -> (r: String)
    requires
        forall|i: int| 0 <= i < v@.len() ==> v@[i] < 128,
    ensures
        r@ == chars_of(v@),
{
    match String::from_utf8(v) {
        Ok(s) => s,
        Err(_) => String::new(),
    }
}

} // verus!
