//! The token codec: a standard three-segment signed token — the base64url
//! of a fixed header, of the claims object (`exp`, `iat`, `sub`), and of an
//! HMAC-SHA-256 tag over the first two segments. Decoding checks the
//! signature and the shape but deliberately not the expiry time, which the
//! engine enforces itself; every failure collapses to `None`.
use vstd::prelude::*;

verus! {

use crate::ascii::{all_ascii, chars_of_ascii, dec_bytes, esc_str, is_digit, parse_num, parse_str};
use crate::ascii::{ascii_to_string, esc_append, lemma_dec_bytes_digits, lemma_parse_num_of_dec,
    lemma_parse_str_esc, parse_num_at, parse_str_into, range_eq, u64_to_dec};
use crate::b64::{b64_dec, b64_enc};
use crate::b64::{b64_decode_range, b64_encode_into, lemma_b64_canonical, lemma_b64_enc_alpha,
    lemma_b64_roundtrip};
use crate::Claims;
use crate::record::{find_byte, idx_of, lemma_idx_of_absent, lemma_idx_of_concat,
    lemma_idx_of_found};

/// The tag that HMAC-SHA-256 computes for this key and message; a function
/// of the two alone.
pub uninterp spec fn hmac_tag(key: Seq<u8>, msg: Seq<u8>) -> Seq<u8>;

/// Relies on ring's HMAC-SHA-256 (`ring::hmac::Key::new` and
/// `ring::hmac::sign`): the tag depends on the key and message alone and is
/// 32 bytes long, the digest length of SHA-256.
#[verifier::external_body]
fn hmac_sha256(key: &[u8], msg: &[u8]) -> (r: Vec<u8>)
    ensures
        r@ == hmac_tag(key@, msg@),
        r@.len() == 32,
{
    let k = ring::hmac::Key::new(ring::hmac::HMAC_SHA256, key);
    ring::hmac::sign(&k, msg).as_ref().to_vec()
}

/// The bytes of the fixed header object naming the token type and the
/// signature algorithm.
pub open spec fn header_bytes() -> Seq<u8> {
    seq![
        123u8, 34, 116, 121, 112, 34, 58, 34, 74, 87, 84, 34, 44, 34, 97, 108, 103, 34, 58, 34,
        72, 83, 50, 53, 54, 34, 125,
    ]
}

pub open spec fn exp_prefix() -> Seq<u8> {
    seq![123u8, 34, 101, 120, 112, 34, 58]
}

pub open spec fn iat_prefix() -> Seq<u8> {
    seq![44u8, 34, 105, 97, 116, 34, 58]
}

pub open spec fn sub_prefix() -> Seq<u8> {
    seq![44u8, 34, 115, 117, 98, 34, 58, 34]
}

/// The claims object bytes, ASCII throughout: the expiry and issue times in
/// decimal and the subject as an escaped string.
pub open spec fn claims_json(exp: u64, iat: u64, sub: Seq<char>) -> Seq<u8> {
    exp_prefix() + dec_bytes(exp) + iat_prefix() + dec_bytes(iat) + sub_prefix() + esc_str(sub)
        + seq![34u8, 125u8]
}

/// Parses a claims object of exactly the shape `claims_json` produces.
pub open spec fn claims_parse(b: Seq<u8>) -> Option<(u64, u64, Seq<char>)> {
    if b.len() < 7 || b.take(7) != exp_prefix() {
        None
    } else {
        let t1 = b.skip(7);
        if t1.len() == 0 || !is_digit(t1[0]) {
            None
        } else {
            let (v1, r1) = parse_num(t1, 0);
            if v1 > u64::MAX || r1.len() < 7 || r1.take(7) != iat_prefix() {
                None
            } else {
                let t2 = r1.skip(7);
                if t2.len() == 0 || !is_digit(t2[0]) {
                    None
                } else {
                    let (v2, r2) = parse_num(t2, 0);
                    if v2 > u64::MAX || r2.len() < 8 || r2.take(8) != sub_prefix() {
                        None
                    } else {
                        let t3 = r2.skip(8);
                        match parse_str(t3) {
                            None => None,
                            Some((sub, m)) => if m + 1 == t3.len() && t3[m] == 125 {
                                Some((v1 as u64, v2 as u64, sub))
                            } else {
                                None
                            },
                        }
                    }
                }
            }
        }
    }
}

/// Parsing a claims object gives back exactly what was put in.
pub proof fn lemma_claims_roundtrip(exp: u64, iat: u64, sub: Seq<char>)
    ensures
        claims_parse(claims_json(exp, iat, sub)) == Some((exp, iat, sub)),
{
    let b = claims_json(exp, iat, sub);
    lemma_dec_bytes_digits(exp);
    lemma_dec_bytes_digits(iat);
    let rest1 = iat_prefix() + dec_bytes(iat) + sub_prefix() + esc_str(sub) + seq![34u8, 125u8];
    assert(b.take(7) =~= exp_prefix());
    assert(b.skip(7) =~= dec_bytes(exp) + rest1);
    assert((dec_bytes(exp) + rest1)[0] == dec_bytes(exp)[0]);
    lemma_parse_num_of_dec(exp, rest1);
    assert(rest1.take(7) =~= iat_prefix());
    let rest2 = sub_prefix() + esc_str(sub) + seq![34u8, 125u8];
    assert(rest1.skip(7) =~= dec_bytes(iat) + rest2);
    assert((dec_bytes(iat) + rest2)[0] == dec_bytes(iat)[0]);
    lemma_parse_num_of_dec(iat, rest2);
    assert(rest2.take(8) =~= sub_prefix());
    let t3 = rest2.skip(8);
    assert(t3 =~= esc_str(sub) + seq![34u8] + seq![125u8]);
    lemma_parse_str_esc(sub, seq![125u8]);
    let m = esc_str(sub).len() as int + 1;
    assert(t3[m] == 125);
    assert(t3.len() == m + 1);
}

/// The signing input: the first two segments with their separating dot.
pub open spec fn signing_input(exp: u64, iat: u64, sub: Seq<char>) -> Seq<u8> {
    b64_enc(header_bytes()) + seq![46u8] + b64_enc(claims_json(exp, iat, sub))
}

/// The full token bytes.
pub open spec fn jwt_enc(exp: u64, iat: u64, sub: Seq<char>, key: Seq<u8>) -> Seq<u8> {
    signing_input(exp, iat, sub) + seq![46u8] + b64_enc(
        hmac_tag(key, signing_input(exp, iat, sub)),
    )
}

/// Where the signature segment of the encoded token begins.
pub open spec fn jwt_sig_start(exp: u64, iat: u64, sub: Seq<char>) -> int {
    signing_input(exp, iat, sub).len() as int + 1
}

/// Decodes token bytes: exactly three dot-separated segments, the first the
/// encoded fixed header, the third the encoded tag of the first two; then
/// the claims are read from the second. Expiry is not checked here.
pub open spec fn jwt_dec(t: Seq<u8>, key: Seq<u8>) -> Option<(u64, u64, Seq<char>)> {
    let d1 = idx_of(t, 46);
    if d1 < 0 {
        None
    } else {
        let rest1 = t.skip(d1 + 1);
        let d2 = idx_of(rest1, 46);
        if d2 < 0 {
            None
        } else {
            let seg1 = t.take(d1);
            let seg2 = rest1.take(d2);
            let seg3 = rest1.skip(d2 + 1);
            if idx_of(seg3, 46) >= 0 {
                None
            } else if seg1 != b64_enc(header_bytes()) {
                None
            } else {
                match b64_dec(seg3) {
                    None => None,
                    Some(sig) => {
                        if sig != hmac_tag(key, seg1 + seq![46u8] + seg2) {
                            None
                        } else {
                            match b64_dec(seg2) {
                                None => None,
                                Some(cb) => claims_parse(cb),
                            }
                        }
                    },
                }
            }
        }
    }
}

/// Decoding a freshly encoded token with the same key reproduces the claims
/// exactly, for every claims set and key.
pub proof fn lemma_jwt_roundtrip(exp: u64, iat: u64, sub: Seq<char>, key: Seq<u8>)
    ensures
        jwt_dec(jwt_enc(exp, iat, sub, key), key) == Some((exp, iat, sub)),
{
    let hb = b64_enc(header_bytes());
    let cb = b64_enc(claims_json(exp, iat, sub));
    let tag = hmac_tag(key, signing_input(exp, iat, sub));
    let sb = b64_enc(tag);
    let t = jwt_enc(exp, iat, sub, key);
    assert(t =~= hb + seq![46u8] + (cb + seq![46u8] + sb));
    lemma_b64_enc_alpha(header_bytes());
    lemma_b64_enc_alpha(claims_json(exp, iat, sub));
    lemma_b64_enc_alpha(tag);
    lemma_idx_of_concat(hb, cb + seq![46u8] + sb, 46);
    let d1 = idx_of(t, 46);
    assert(d1 == hb.len());
    let rest1 = t.skip(d1 + 1);
    assert(rest1 =~= cb + seq![46u8] + sb);
    lemma_idx_of_concat(cb, sb, 46);
    let d2 = idx_of(rest1, 46);
    assert(d2 == cb.len());
    assert(t.take(d1) =~= hb);
    assert(rest1.take(d2) =~= cb);
    assert(rest1.skip(d2 + 1) =~= sb);
    lemma_idx_of_absent(sb, 46);
    lemma_b64_roundtrip(tag);
    assert(hb + seq![46u8] + cb =~= signing_input(exp, iat, sub));
    lemma_b64_roundtrip(claims_json(exp, iat, sub));
    lemma_claims_roundtrip(exp, iat, sub);
}

/// Changing any one byte of the signature segment of a freshly encoded
/// token makes decoding fail, for every single-byte change.
pub proof fn lemma_jwt_tamper(
    exp: u64,
    iat: u64,
    sub: Seq<char>,
    key: Seq<u8>,
    t2: Seq<u8>,
    q: int,
)
    requires
        t2.len() == jwt_enc(exp, iat, sub, key).len(),
        jwt_sig_start(exp, iat, sub) <= q < t2.len(),
        t2[q] != jwt_enc(exp, iat, sub, key)[q],
        forall|k: int| 0 <= k < t2.len() && k != q ==> t2[k] == jwt_enc(exp, iat, sub, key)[k],
    ensures
        jwt_dec(t2, key) is None,
{
    let hb = b64_enc(header_bytes());
    let cb = b64_enc(claims_json(exp, iat, sub));
    let tag = hmac_tag(key, signing_input(exp, iat, sub));
    let sb = b64_enc(tag);
    let t = jwt_enc(exp, iat, sub, key);
    let start = jwt_sig_start(exp, iat, sub);
    assert(t =~= hb + seq![46u8] + cb + seq![46u8] + sb);
    let sb2 = t2.skip(start);
    assert(t2 =~= hb + seq![46u8] + (cb + seq![46u8] + sb2));
    lemma_b64_enc_alpha(header_bytes());
    lemma_b64_enc_alpha(claims_json(exp, iat, sub));
    lemma_b64_enc_alpha(tag);
    lemma_idx_of_concat(hb, cb + seq![46u8] + sb2, 46);
    let d1 = idx_of(t2, 46);
    assert(d1 == hb.len());
    let rest1 = t2.skip(d1 + 1);
    assert(rest1 =~= cb + seq![46u8] + sb2);
    lemma_idx_of_concat(cb, sb2, 46);
    let d2 = idx_of(rest1, 46);
    assert(d2 == cb.len());
    assert(t2.take(d1) =~= hb);
    assert(rest1.take(d2) =~= cb);
    assert(rest1.skip(d2 + 1) =~= sb2);
    let qq = q - start;
    assert(sb2[qq] != sb[qq]);
    assert(forall|k: int| 0 <= k < sb2.len() && k != qq ==> sb2[k] == sb[k]);
    if idx_of(sb2, 46) >= 0 {
    } else {
        match b64_dec(sb2) {
            None => {},
            Some(sig) => {
                lemma_b64_canonical(sb2);
                assert(hb + seq![46u8] + cb =~= signing_input(exp, iat, sub));
                if sig == tag {
                    assert(sb2 == b64_enc(tag));
                    assert(sb2[qq] == sb[qq]);
                    assert(false);
                }
            },
        }
    }
}

/// Encodes a token for these claims under this key; the result is exactly
/// the character form of `jwt_enc` over the key's UTF-8 bytes.
pub fn encode_token(claims: &Claims, secret: &str) -> (r: String)
    ensures
        r@ == chars_of_ascii(
            jwt_enc(claims.expiry, claims.issued, claims.subject@, vstd::utf8::encode_utf8(
                secret@,
            )),
        ),
{
    let exp = claims.expiry;
    let iat = claims.issued;
    let subject = claims.subject.as_str();
    let mut claims: Vec<u8> = vec![123u8, 34, 101, 120, 112, 34, 58];
    assert(claims@ =~= exp_prefix());
    let mut d = u64_to_dec(exp);
    claims.append(&mut d);
    let mut mid: Vec<u8> = vec![44u8, 34, 105, 97, 116, 34, 58];
    assert(mid@ =~= iat_prefix());
    claims.append(&mut mid);
    let mut d2 = u64_to_dec(iat);
    claims.append(&mut d2);
    let mut mid2: Vec<u8> = vec![44u8, 34, 115, 117, 98, 34, 58, 34];
    assert(mid2@ =~= sub_prefix());
    claims.append(&mut mid2);
    esc_append(&mut claims, subject);
    claims.push(34);
    claims.push(125);
    proof {
        assert(claims@ =~= claims_json(exp, iat, subject@));
    }
    let header: Vec<u8> = vec![
        123u8, 34, 116, 121, 112, 34, 58, 34, 74, 87, 84, 34, 44, 34, 97, 108, 103, 34, 58, 34,
        72, 83, 50, 53, 54, 34, 125,
    ];
    assert(header@ =~= header_bytes());
    let mut out: Vec<u8> = Vec::new();
    b64_encode_into(header.as_slice(), 0, &mut out);
    out.push(46);
    b64_encode_into(claims.as_slice(), 0, &mut out);
    proof {
        assert(header@.skip(0) =~= header@);
        assert(claims@.skip(0) =~= claims@);
        assert(out@ =~= signing_input(exp, iat, subject@));
    }
    let tag = hmac_sha256(secret.as_bytes(), out.as_slice());
    out.push(46);
    b64_encode_into(tag.as_slice(), 0, &mut out);
    proof {
        assert(tag@.skip(0) =~= tag@);
        assert(out@ =~= jwt_enc(exp, iat, subject@, vstd::utf8::encode_utf8(secret@)));
        let e = out@;
        lemma_b64_enc_alpha(header_bytes());
        lemma_b64_enc_alpha(claims_json(exp, iat, subject@));
        lemma_b64_enc_alpha(hmac_tag(vstd::utf8::encode_utf8(secret@), signing_input(exp, iat,
            subject@)));
        assert forall|i: int| 0 <= i < e.len() implies e[i] < 0x80 by {
            let sig = signing_input(exp, iat, subject@);
            let sb = b64_enc(hmac_tag(vstd::utf8::encode_utf8(secret@), sig));
            let hb = b64_enc(header_bytes());
            let cb = b64_enc(claims_json(exp, iat, subject@));
            assert(e =~= hb + seq![46u8] + cb + seq![46u8] + sb);
            if i < hb.len() {
                assert(e[i] == hb[i]);
            } else if i == hb.len() {
            } else if i < hb.len() + 1 + cb.len() {
                assert(e[i] == cb[i - hb.len() - 1]);
            } else if i == hb.len() + 1 + cb.len() {
            } else {
                assert(e[i] == sb[i - (hb.len() + 1 + cb.len() + 1)]);
            }
        }
    }
    ascii_to_string(&out)
}

/// Decodes a token under this key, as `jwt_dec` does on the token's bytes;
/// a token that is not ASCII cannot be one this codec produced and fails.
pub fn decode_token(token: &str, secret: &str) -> (r: Option<Claims>)
    ensures
        match r {
            Some(c) => jwt_dec_chars(token@, vstd::utf8::encode_utf8(secret@)) == Some(
                (c.expiry, c.issued, c.subject@),
            ),
            None => jwt_dec_chars(token@, vstd::utf8::encode_utf8(secret@)) is None,
        },
{
    broadcast use vstd::string::is_ascii_spec_bytes;

    if !token.is_ascii() {
        return None;
    }
    let b = token.as_bytes();
    proof {
        assert(b@ =~= ascii_bytes(token@));
    }
    let n = b.len();
    let ghost t = b@;
    let ghost key = vstd::utf8::encode_utf8(secret@);
    proof {
        assert(t.skip(0) =~= t);
    }
    let d1 = match find_byte(b, 0, 46) {
        Some(d) => d,
        None => {
            return None;
        },
    };
    proof {
        assert(b@.skip(d1 + 1) =~= t.skip(d1 + 1));
    }
    let ghost rest1 = t.skip(d1 + 1);
    let d2 = match find_byte(b, d1 + 1, 46) {
        Some(d) => d,
        None => {
            return None;
        },
    };
    let ghost gd2 = d2 - (d1 + 1);
    proof {
        assert(b@.skip(d2 + 1) =~= rest1.skip(gd2 + 1));
        lemma_idx_of_found(t, 46);
        lemma_idx_of_found(rest1, 46);
        assert(t[d1 as int] == 46);
        assert(rest1[gd2] == 46);
        assert(rest1[gd2] == t[d2 as int]);
    }
    match find_byte(b, d2 + 1, 46) {
        Some(_) => {
            return None;
        },
        None => {},
    }
    let header: Vec<u8> = vec![
        123u8, 34, 116, 121, 112, 34, 58, 34, 74, 87, 84, 34, 44, 34, 97, 108, 103, 34, 58, 34,
        72, 83, 50, 53, 54, 34, 125,
    ];
    assert(header@ =~= header_bytes());
    let mut expect: Vec<u8> = Vec::new();
    b64_encode_into(header.as_slice(), 0, &mut expect);
    proof {
        assert(header@.skip(0) =~= header@);
    }
    if !range_eq(b, 0, d1, expect.as_slice()) {
        proof {
            assert(b@.subrange(0, d1 as int) =~= t.take(d1 as int));
        }
        return None;
    }
    proof {
        assert(b@.subrange(0, d1 as int) =~= t.take(d1 as int));
    }
    let sig = match b64_decode_range(b, d2 + 1, b.len()) {
        Some(s) => s,
        None => {
            proof {
                assert(b@.subrange(d2 + 1, t.len() as int) =~= rest1.skip(gd2 + 1));
            }
            return None;
        },
    };
    proof {
        assert(b@.subrange(d2 + 1, t.len() as int) =~= rest1.skip(gd2 + 1));
    }
    let mut signing: Vec<u8> = Vec::new();
    let mut i: usize = 0;
    while i < d2
        invariant
            d2 <= b@.len(),
            i <= d2,
            signing@ == b@.take(i as int),
        decreases d2 - i,
    {
        signing.push(b[i]);
        proof {
            assert(b@.take(i + 1) =~= b@.take(i as int).push(b@[i as int]));
        }
        i = i + 1;
    }
    let tag = hmac_sha256(secret.as_bytes(), signing.as_slice());
    proof {
        assert(b@.take(d2 as int) =~= t.take(d1 as int) + seq![46u8] + rest1.take(gd2));
    }
    if !vec_eq(&sig, &tag) {
        return None;
    }
    proof {
        assert(b@.subrange(d1 + 1, d2 as int) =~= rest1.take(gd2));
    }
    let cbv = match b64_decode_range(b, d1 + 1, d2) {
        Some(c) => c,
        None => {
            return None;
        },
    };
    match parse_claims(&cbv) {
        Some((expiry, issued, subject)) => Some(Claims { expiry, issued, subject }),
        None => None,
    }
}

/// The bytes of an ASCII character sequence.
pub open spec fn ascii_bytes(t: Seq<char>) -> Seq<u8> {
    Seq::new(t.len(), |i: int| t[i] as u8)
}

/// `jwt_dec` over a token string: only an all-ASCII string can decode.
pub open spec fn jwt_dec_chars(t: Seq<char>, key: Seq<u8>) -> Option<(u64, u64, Seq<char>)> {
    if vstd::utf8::is_ascii_chars(t) {
        jwt_dec(ascii_bytes(t), key)
    } else {
        None
    }
}

/// Every byte of an encoded token is ASCII.
pub proof fn lemma_jwt_enc_ascii(exp: u64, iat: u64, sub: Seq<char>, key: Seq<u8>)
    ensures
        all_ascii(jwt_enc(exp, iat, sub, key)),
{
    let e = jwt_enc(exp, iat, sub, key);
    let sig = signing_input(exp, iat, sub);
    let hb = b64_enc(header_bytes());
    let cb = b64_enc(claims_json(exp, iat, sub));
    let sb = b64_enc(hmac_tag(key, sig));
    lemma_b64_enc_alpha(header_bytes());
    lemma_b64_enc_alpha(claims_json(exp, iat, sub));
    lemma_b64_enc_alpha(hmac_tag(key, sig));
    assert(e =~= hb + seq![46u8] + cb + seq![46u8] + sb);
    assert forall|i: int| 0 <= i < e.len() implies e[i] < 0x80 by {
        if i < hb.len() {
            assert(e[i] == hb[i]);
        } else if i == hb.len() {
        } else if i < hb.len() + 1 + cb.len() {
            assert(e[i] == cb[i - hb.len() - 1]);
        } else if i == hb.len() + 1 + cb.len() {
        } else {
            assert(e[i] == sb[i - (hb.len() + 1 + cb.len() + 1)]);
        }
    }
}

/// Reading ASCII bytes as characters and back gives the same bytes, and
/// what it gives is an ASCII string.
pub proof fn lemma_ascii_chars_roundtrip(b: Seq<u8>)
    requires
        all_ascii(b),
    ensures
        vstd::utf8::is_ascii_chars(chars_of_ascii(b)),
        ascii_bytes(chars_of_ascii(b)) == b,
{
    let t = chars_of_ascii(b);
    assert forall|i: int| 0 <= i < t.len() implies '\0' <= #[trigger] t[i] <= '\u{7f}' by {
        let w = b[i];
        assert((w as char) as u32 == w as u32);
        assert('\u{7f}' as u32 == 0x7f);
    }
    assert forall|i: int| 0 <= i < b.len() implies #[trigger] ascii_bytes(t)[i] == b[i] by {
        let w = b[i];
        assert((w as char) as u32 == w as u32);
        assert((w as char) as u8 == w);
    }
    assert(ascii_bytes(t) =~= b);
}

fn vec_eq(a: &Vec<u8>, b: &Vec<u8>) -> (r: bool)
    ensures
        r == (a@ == b@),
{
    let r = range_eq(a.as_slice(), 0, a.len(), b.as_slice());
    proof {
        assert(a@.subrange(0, a@.len() as int) =~= a@);
    }
    r
}

/// Parses a claims object, as `claims_parse` does.
fn parse_claims(b: &Vec<u8>) -> (r: Option<(u64, u64, String)>)
    ensures
        match r {
            Some((exp, iat, sub)) => claims_parse(b@) == Some((exp, iat, sub@)),
            None => claims_parse(b@) is None,
        },
{
    let p1: Vec<u8> = vec![123u8, 34, 101, 120, 112, 34, 58];
    assert(p1@ =~= exp_prefix());
    let n = b.len();
    if n < 7 || !range_eq(b.as_slice(), 0, 7, p1.as_slice()) {
        proof {
            if n >= 7 {
                assert(b@.subrange(0, 7) =~= b@.take(7));
            }
        }
        return None;
    }
    proof {
        assert(b@.subrange(0, 7) =~= b@.take(7));
        if b@.len() > 7 {
            assert(b@.skip(7)[0] == b@[7]);
        }
    }
    let (v1, p) = match parse_num_at(b.as_slice(), 7) {
        Some(x) => x,
        None => {
            return None;
        },
    };
    let p2: Vec<u8> = vec![44u8, 34, 105, 97, 116, 34, 58];
    assert(p2@ =~= iat_prefix());
    let ghost r1 = b@.skip(p as int);
    if n - p < 7 || !range_eq(b.as_slice(), p, p + 7, p2.as_slice()) {
        proof {
            if n - p >= 7 {
                assert(b@.subrange(p as int, p + 7) =~= r1.take(7));
            }
        }
        return None;
    }
    proof {
        assert(b@.subrange(p as int, p + 7) =~= r1.take(7));
        assert(r1.skip(7) =~= b@.skip(p + 7));
        assert(b@.skip(p + 7).len() > 0 ==> b@.skip(p + 7)[0] == b@[p + 7]);
    }
    let (v2, p8) = match parse_num_at(b.as_slice(), p + 7) {
        Some(x) => x,
        None => {
            return None;
        },
    };
    let p3: Vec<u8> = vec![44u8, 34, 115, 117, 98, 34, 58, 34];
    assert(p3@ =~= sub_prefix());
    let ghost r2 = b@.skip(p8 as int);
    if n - p8 < 8 || !range_eq(b.as_slice(), p8, p8 + 8, p3.as_slice()) {
        proof {
            if n - p8 >= 8 {
                assert(b@.subrange(p8 as int, p8 + 8) =~= r2.take(8));
            }
        }
        return None;
    }
    proof {
        assert(b@.subrange(p8 as int, p8 + 8) =~= r2.take(8));
        assert(r2.skip(8) =~= b@.skip(p8 + 8));
    }
    let mut sub = String::new();
    let m = match parse_str_into(b.as_slice(), p8 + 8, &mut sub) {
        Some(m) => m,
        None => {
            return None;
        },
    };
    let ghost t3 = b@.skip(p8 + 8);
    let e = p8 + 8 + m;
    if e >= n {
        return None;
    }
    if e + 1 != n || b[e] != 125 {
        proof {
            assert(t3[m as int] == b@[e as int]);
        }
        return None;
    }
    proof {
        assert(t3[m as int] == b@[e as int]);
    }
    Some((v1, v2, sub))
}

} // verus!
