//! The on-disk form of a credential record: the update time in decimal, the
//! salt in base64url and the hash escaped, separated by `;` and closed by a
//! quote. Decoding is proved to invert encoding for every record.
use vstd::prelude::*;

verus! {

use crate::User;
use crate::ascii::{dec_bytes, esc_str, is_digit, parse_num, parse_str};
use crate::ascii::{esc_append, lemma_dec_bytes_digits, lemma_parse_num_of_dec,
    lemma_parse_str_esc, parse_num_at, parse_str_into, u64_to_dec};
use crate::b64::{b64_dec, b64_enc};
use crate::b64::{b64_decode_range, b64_encode_into, lemma_b64_enc_alpha, lemma_b64_roundtrip};

/// The encoded record bytes.
pub open spec fn user_enc(salt: Seq<u8>, hash: Seq<char>, updated: u64) -> Seq<u8> {
    dec_bytes(updated) + seq![59u8] + b64_enc(salt) + seq![59u8] + esc_str(hash) + seq![34u8]
}

/// The first index of `x` in `s`, negative when absent.
pub open spec fn idx_of(s: Seq<u8>, x: u8) -> int
    decreases s.len(),
{
    if s.len() == 0 {
        -1
    } else if s[0] == x {
        0
    } else {
        let k = idx_of(s.drop_first(), x);
        if k < 0 {
            -1
        } else {
            1 + k
        }
    }
}

pub proof fn lemma_idx_of_concat(a: Seq<u8>, c: Seq<u8>, x: u8)
    requires
        forall|i: int| 0 <= i < a.len() ==> a[i] != x,
    ensures
        idx_of(a + seq![x] + c, x) == a.len(),
    decreases a.len(),
{
    let s = a + seq![x] + c;
    if a.len() == 0 {
        assert(s[0] == x);
    } else {
        assert(s[0] == a[0]);
        assert(s.drop_first() =~= a.drop_first() + seq![x] + c);
        lemma_idx_of_concat(a.drop_first(), c, x);
    }
}

pub proof fn lemma_idx_of_absent(s: Seq<u8>, x: u8)
    requires
        forall|i: int| 0 <= i < s.len() ==> s[i] != x,
    ensures
        idx_of(s, x) == -1,
    decreases s.len(),
{
    if s.len() > 0 {
        lemma_idx_of_absent(s.drop_first(), x);
    }
}

pub proof fn lemma_idx_of_found(s: Seq<u8>, x: u8)
    requires
        idx_of(s, x) >= 0,
    ensures
        idx_of(s, x) < s.len(),
        s[idx_of(s, x)] == x,
    decreases s.len(),
{
    if s.len() > 0 && s[0] != x {
        lemma_idx_of_found(s.drop_first(), x);
    }
}

/// Decodes record bytes: the update time up to the first `;`, the salt up to
/// the next `;`, then the escaped hash up to a closing quote that must end
/// the record.
pub open spec fn user_dec(b: Seq<u8>) -> Option<(Seq<u8>, Seq<char>, u64)> {
    if b.len() == 0 || !is_digit(b[0]) {
        None
    } else {
        let (v, rest) = parse_num(b, 0);
        if v > u64::MAX {
            None
        } else if rest.len() == 0 || rest[0] != 59 {
            None
        } else {
            let r2 = rest.drop_first();
            let j = idx_of(r2, 59);
            if j < 0 {
                None
            } else {
                match b64_dec(r2.take(j)) {
                    None => None,
                    Some(salt) => {
                        let r3 = r2.skip(j + 1);
                        match parse_str(r3) {
                            None => None,
                            Some((hash, m)) => if m == r3.len() {
                                Some((salt, hash, v as u64))
                            } else {
                                None
                            },
                        }
                    },
                }
            }
        }
    }
}

/// Decoding inverts encoding, whatever the record holds.
pub proof fn lemma_user_roundtrip(salt: Seq<u8>, hash: Seq<char>, updated: u64)
    ensures
        user_dec(user_enc(salt, hash, updated)) == Some((salt, hash, updated)),
{
    let b = user_enc(salt, hash, updated);
    let tail = seq![59u8] + b64_enc(salt) + seq![59u8] + esc_str(hash) + seq![34u8];
    assert(b =~= dec_bytes(updated) + tail);
    lemma_dec_bytes_digits(updated);
    assert(b[0] == dec_bytes(updated)[0]);
    lemma_parse_num_of_dec(updated, tail);
    assert(parse_num(b, 0) == (updated as int, tail));
    assert(tail[0] == 59);
    let r2 = tail.drop_first();
    assert(r2 =~= b64_enc(salt) + seq![59u8] + (esc_str(hash) + seq![34u8]));
    lemma_b64_enc_alpha(salt);
    lemma_idx_of_concat(b64_enc(salt), esc_str(hash) + seq![34u8], 59);
    let j = idx_of(r2, 59);
    assert(j == b64_enc(salt).len());
    assert(r2.take(j) =~= b64_enc(salt));
    lemma_b64_roundtrip(salt);
    let r3 = r2.skip(j + 1);
    assert(r3 =~= esc_str(hash) + seq![34u8] + Seq::<u8>::empty());
    lemma_parse_str_esc(hash, Seq::empty());
    assert(parse_str(r3) == Some((hash, esc_str(hash).len() as int + 1)));
    assert(r3.len() == esc_str(hash).len() + 1);
}

/// Encodes a record.
pub fn encode_user(u: &User) -> (r: Vec<u8>)
    ensures
        r@ == user_enc(u.salt@, u.hash@, u.updated),
{
    let mut out = u64_to_dec(u.updated);
    out.push(59);
    b64_encode_into(u.salt.as_slice(), 0, &mut out);
    out.push(59);
    esc_append(&mut out, u.hash.as_str());
    out.push(34);
    proof {
        assert(u.salt@.skip(0) =~= u.salt@);
        assert(out@ =~= user_enc(u.salt@, u.hash@, u.updated));
    }
    out
}

/// Decodes a record; `None` exactly where `user_dec` fails.
pub fn decode_user(b: &[u8]) -> (r: Option<User>)
    ensures
        match r {
            Some(u) => user_dec(b@) == Some((u.salt@, u.hash@, u.updated)),
            None => user_dec(b@) is None,
        },
{
    let ghost whole = b@;
    proof {
        assert(whole.skip(0) =~= whole);
    }
    let (updated, p) = match parse_num_at(b, 0) {
        Some(x) => x,
        None => {
            return None;
        },
    };
    if p >= b.len() || b[p] != 59 {
        proof {
            if p < whole.len() {
                assert(whole.skip(p as int)[0] == whole[p as int]);
            }
        }
        return None;
    }
    proof {
        assert(whole.skip(p as int)[0] == whole[p as int]);
        assert(whole.skip(p as int).drop_first() =~= whole.skip(p + 1));
    }
    let ghost r2 = whole.skip(p + 1);
    let j = match find_byte(b, p + 1, 59) {
        Some(j) => j,
        None => {
            return None;
        },
    };
    proof {
        assert(b@.subrange(p + 1, j as int) =~= r2.take(j - (p + 1)));
    }
    let salt = match b64_decode_range(b, p + 1, j) {
        Some(s) => s,
        None => {
            return None;
        },
    };
    proof {
        assert(b@.skip(j + 1) =~= r2.skip(j - (p + 1) + 1));
    }
    let mut hash = String::new();
    let m = match parse_str_into(b, j + 1, &mut hash) {
        Some(m) => m,
        None => {
            return None;
        },
    };
    if j + 1 + m != b.len() {
        return None;
    }
    Some(User { salt, hash, updated })
}

/// The first position of `x` at or after `from`.
pub fn find_byte(b: &[u8], from: usize, x: u8) -> (r: Option<usize>)
    requires
        from <= b@.len(),
    ensures
        match r {
            Some(j) => from <= j < b@.len() && idx_of(b@.skip(from as int), x) == j - from,
            None => idx_of(b@.skip(from as int), x) == -1,
        },
    decreases b@.len() - from,
{
    if from >= b.len() {
        return None;
    }
    assert(b@.skip(from as int)[0] == b@[from as int]);
    if b[from] == x {
        return Some(from);
    }
    proof {
        assert(b@.skip(from as int).drop_first() =~= b@.skip(from + 1));
    }
    match find_byte(b, from + 1, x) {
        Some(j) => Some(j),
        None => None,
    }
}

} // verus!
