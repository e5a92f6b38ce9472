//! Token issue and verification. A login that matches the stored hash mints
//! claims good for a fixed hour; verification re-reads the credential on
//! every call and rejects a bad signature, a deleted subject, an expired
//! token, and — the revocation rule — any token issued before the subject's
//! credential last changed. All rejections collapse to one outward signal.
use vstd::prelude::*;

verus! {

use crate::{AuthError, Claims, Login, Token};
use crate::hasher::argon2_check;
use crate::ascii::chars_of_ascii;
use crate::jwt::jwt_dec_chars;
use crate::jwt::{jwt_enc, jwt_sig_start};
use crate::jwt::{decode_token, encode_token, lemma_ascii_chars_roundtrip, lemma_jwt_enc_ascii,
    lemma_jwt_roundtrip, lemma_jwt_tamper};
use crate::record::{decode_user, user_dec};
use crate::store::{Store, store_get, store_map};

/// How long a token is good for, in seconds.
pub const EXPIRY_TIME: u64 = 3600;

/// What a login yields against this store at this time: `Ok(None)` for an
/// unknown name and for a wrong password alike, `Ok(Some(token))` — the
/// token of the claims `(now + 3600, now, name)` under this key — for a
/// match, and `Err` only for a record that cannot be read back.
pub open spec fn issue_spec(
    m: Map<Seq<char>, Seq<u8>>,
    key: Seq<u8>,
    name: Seq<char>,
    pwd: Seq<char>,
    now: u64,
) -> Result<Option<Seq<char>>, ()> {
    if !m.contains_key(name) {
        Ok(None)
    } else {
        match user_dec(m[name]) {
            None => Err(()),
            Some((salt, hash, updated)) => {
                if argon2_check(hash, pwd) == Some(true) {
                    Ok(Some(chars_of_ascii(jwt_enc((now + EXPIRY_TIME) as u64, now, name, key))))
                } else {
                    Ok(None)
                }
            },
        }
    }
}

/// What verification yields against this store at this time: `Ok(false)`
/// for a token that does not decode under this key, whose subject is gone,
/// that has expired, or that was issued before the subject's credential
/// last changed; `Ok(true)` otherwise; `Err` only for a record that cannot
/// be read back.
pub open spec fn verify_spec(
    m: Map<Seq<char>, Seq<u8>>,
    key: Seq<u8>,
    tok: Seq<char>,
    now: u64,
) -> Result<bool, ()> {
    match jwt_dec_chars(tok, key) {
        None => Ok(false),
        Some((exp, iat, sub)) => {
            if !m.contains_key(sub) {
                Ok(false)
            } else {
                match user_dec(m[sub]) {
                    None => Err(()),
                    Some((salt, hash, updated)) => Ok(!(exp < now || updated > iat)),
                }
            }
        },
    }
}

/// Issues a token for a login: unknown name and wrong password give the
/// same empty answer; a match gives the signed claims; a store failure or
/// an unreadable record is the only error.
pub fn request(users: &Store, secret: &str, login: &Login, now: u64) -> (r: Result<
    Option<Token>,
    AuthError,
>)
    requires
        now <= u64::MAX - EXPIRY_TIME,
    ensures
        ({
            let s = issue_spec(
                store_map(users),
                vstd::utf8::encode_utf8(secret@),
                login.username@,
                login.password@,
                now,
            );
            &&& (r matches Ok(o) ==> match o {
                Some(tok) => s == Ok::<Option<Seq<char>>, ()>(Some(tok.encoded@)),
                None => s == Ok::<Option<Seq<char>>, ()>(None),
            })
            &&& s is Err ==> r is Err
        }),
{
    let bytes = match store_get(users, login.username.as_str()) {
        Ok(Some(b)) => b,
        Ok(None) => {
            return Ok(None);
        },
        Err(_) => {
            return Err(AuthError::IoFailure);
        },
    };
    let user = match decode_user(bytes.as_slice()) {
        Some(u) => u,
        None => {
            return Err(AuthError::IoFailure);
        },
    };
    if !crate::hasher::verify_password(user.hash.as_str(), login.password.as_str()) {
        return Ok(None);
    }
    let claims = Claims {
        expiry: now + EXPIRY_TIME,
        issued: now,
        subject: login.username.clone(),
    };
    let encoded = encode_token(&claims, secret);
    Ok(Some(Token { encoded }))
}

/// Verifies a presented token: signature, subject liveness, expiry, and
/// revocation by the credential's update time; every rejection is the same
/// plain `false`. A token that does not decode is an ordinary outcome, not
/// an error: it is answered `Ok(false)` before the store is touched.
pub fn verify(users: &Store, secret: &str, token: &Token, now: u64) -> (r: Result<bool, AuthError>)
    ensures
        ({
            let s = verify_spec(
                store_map(users),
                vstd::utf8::encode_utf8(secret@),
                token.encoded@,
                now,
            );
            &&& (r matches Ok(b) ==> s == Ok::<bool, ()>(b))
            &&& s is Err ==> r is Err
        }),
        jwt_dec_chars(token.encoded@, vstd::utf8::encode_utf8(secret@)) is None ==> r == Ok::<
            bool,
            AuthError,
        >(false),
{
    let claims = match decode_token(token.encoded.as_str(), secret) {
        Some(c) => c,
        None => {
            return Ok(false);
        },
    };
    let bytes = match store_get(users, claims.subject.as_str()) {
        Ok(Some(b)) => b,
        Ok(None) => {
            return Ok(false);
        },
        Err(_) => {
            return Err(AuthError::IoFailure);
        },
    };
    let user = match decode_user(bytes.as_slice()) {
        Some(u) => u,
        None => {
            return Err(AuthError::IoFailure);
        },
    };
    if claims.expiry < now || user.updated > claims.issued {
        Ok(false)
    } else {
        Ok(true)
    }
}

/// A token issued for a live credential verifies while it lasts: if the
/// login succeeded at `now1`, the credential had not changed after `now1`
/// (one trusted clock stamps records and reads `now`, so a record never
/// postdates the login it admits), the store is unchanged, and the clock
/// has moved to any `now2` within the token's hour, verification accepts.
pub proof fn lemma_issue_then_verify(
    m: Map<Seq<char>, Seq<u8>>,
    key: Seq<u8>,
    name: Seq<char>,
    pwd: Seq<char>,
    now1: u64,
    now2: u64,
    tok: Seq<char>,
)
    requires
        issue_spec(m, key, name, pwd, now1) == Ok::<Option<Seq<char>>, ()>(Some(tok)),
        user_dec(m[name]) matches Some((salt, hash, updated)) && updated <= now1,
        now1 <= now2 <= now1 + EXPIRY_TIME,
        now1 + EXPIRY_TIME <= u64::MAX,
    ensures
        verify_spec(m, key, tok, now2) == Ok::<bool, ()>(true),
{
    let exp = (now1 + EXPIRY_TIME) as u64;
    lemma_jwt_enc_ascii(exp, now1, name, key);
    lemma_ascii_chars_roundtrip(jwt_enc(exp, now1, name, key));
    lemma_jwt_roundtrip(exp, now1, name, key);
    assert(jwt_dec_chars(tok, key) == Some((exp, now1, name)));
}

/// An expired token never verifies, whatever else holds of it: if the
/// claims decode with an expiry before `now`, verification rejects.
pub proof fn lemma_expired_token(
    m: Map<Seq<char>, Seq<u8>>,
    key: Seq<u8>,
    tok: Seq<char>,
    now: u64,
)
    requires
        jwt_dec_chars(tok, key) matches Some((exp, iat, sub)) && exp < now,
    ensures
        verify_spec(m, key, tok, now) != Ok::<bool, ()>(true),
{
}

/// Revocation by timestamp: a token issued before the subject's credential
/// last changed is rejected; one issued at or after that change, unexpired
/// and well-formed, is accepted. No revocation list exists — the record's
/// own update time is the marker.
pub proof fn lemma_revoked_by_update(
    m: Map<Seq<char>, Seq<u8>>,
    key: Seq<u8>,
    tok: Seq<char>,
    now: u64,
    exp: u64,
    iat: u64,
    sub: Seq<char>,
    salt: Seq<u8>,
    hash: Seq<char>,
    updated: u64,
)
    requires
        jwt_dec_chars(tok, key) == Some((exp, iat, sub)),
        m.contains_key(sub),
        user_dec(m[sub]) == Some((salt, hash, updated)),
    ensures
        updated > iat ==> verify_spec(m, key, tok, now) == Ok::<bool, ()>(false),
        updated <= iat && exp >= now ==> verify_spec(m, key, tok, now) == Ok::<bool, ()>(true),
{
}

/// A token whose signature segment was altered in any one byte never
/// verifies, whatever the store holds: the tampered token does not even
/// decode.
pub proof fn lemma_tampered_token_invalid(
    m: Map<Seq<char>, Seq<u8>>,
    key: Seq<u8>,
    exp: u64,
    iat: u64,
    sub: Seq<char>,
    t2: Seq<u8>,
    q: int,
    now: u64,
)
    requires
        t2.len() == jwt_enc(exp, iat, sub, key).len(),
        jwt_sig_start(exp, iat, sub) <= q < t2.len(),
        t2[q] != jwt_enc(exp, iat, sub, key)[q],
        forall|k: int| 0 <= k < t2.len() && k != q ==> t2[k] == jwt_enc(exp, iat, sub, key)[k],
    ensures
        verify_spec(m, key, chars_of_ascii(t2), now) == Ok::<bool, ()>(false),
{
    lemma_jwt_tamper(exp, iat, sub, key, t2, q);
    if crate::ascii::all_ascii(t2) {
        lemma_ascii_chars_roundtrip(t2);
    } else {
        let t = chars_of_ascii(t2);
        let i = choose|i: int| 0 <= i < t2.len() && t2[i] >= 0x80;
        let w = t2[i];
        assert((w as char) as u32 == w as u32);
        assert('\u{7f}' as u32 == 0x7f);
        assert(!('\0' <= t[i] <= '\u{7f}'));
        assert(!vstd::utf8::is_ascii_chars(t));
    }
}

/// A token whose subject was deleted since issuance never verifies.
pub proof fn lemma_deleted_subject(
    m: Map<Seq<char>, Seq<u8>>,
    key: Seq<u8>,
    tok: Seq<char>,
    now: u64,
)
    requires
        jwt_dec_chars(tok, key) matches Some((exp, iat, sub)) && !m.contains_key(sub),
    ensures
        verify_spec(m, key, tok, now) == Ok::<bool, ()>(false),
{
}

} // verus!
