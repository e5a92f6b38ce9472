//! Base64url without padding, over bytes: the alphabet `A-Z a-z 0-9 - _`,
//! groups of three bytes to four digits, a strict decoder that accepts only
//! the canonical encoding (it rejects non-zero trailing bits), and proofs
//! that decoding inverts encoding and that an encoding is unique.
use vstd::prelude::*;

verus! {

/// The alphabet byte of a six-bit value.
pub open spec fn b64_byte(v: u8) -> u8 {
    if v < 26 {
        (65 + v) as u8
    } else if v < 52 {
        (71 + v) as u8
    } else if v < 62 {
        (v - 4) as u8
    } else if v == 62 {
        45u8
    } else {
        95u8
    }
}

/// The six-bit value of an alphabet byte, negative for a byte outside it.
pub open spec fn b64_val(c: u8) -> int {
    if 65 <= c <= 90 {
        c - 65
    } else if 97 <= c <= 122 {
        c - 97 + 26
    } else if 48 <= c <= 57 {
        c - 48 + 52
    } else if c == 45 {
        62
    } else if c == 95 {
        63
    } else {
        -1
    }
}

pub open spec fn is_b64(c: u8) -> bool {
    b64_val(c) >= 0
}

pub proof fn lemma_b64_byte_val(v: u8)
    requires
        v < 64,
    ensures
        b64_val(b64_byte(v)) == v,
        is_b64(b64_byte(v)),
        b64_byte(v) != 46 && b64_byte(v) != 59 && b64_byte(v) != 34 && b64_byte(v) != 92,
{
}

/// The canonical base64url digits of a byte sequence, no padding.
pub open spec fn b64_enc(b: Seq<u8>) -> Seq<u8>
    decreases b.len(),
{
    if b.len() == 0 {
        Seq::empty()
    } else if b.len() == 1 {
        seq![b64_byte(b[0] >> 2), b64_byte((b[0] & 3) << 4)]
    } else if b.len() == 2 {
        seq![
            b64_byte(b[0] >> 2),
            b64_byte(((b[0] & 3) << 4) | (b[1] >> 4)),
            b64_byte((b[1] & 15) << 2),
        ]
    } else {
        seq![
            b64_byte(b[0] >> 2),
            b64_byte(((b[0] & 3) << 4) | (b[1] >> 4)),
            b64_byte(((b[1] & 15) << 2) | (b[2] >> 6)),
            b64_byte(b[2] & 63),
        ] + b64_enc(b.skip(3))
    }
}

/// Strict decoding: every digit must be in the alphabet, the length must be
/// possible (never one digit more than a multiple of four), and trailing
/// bits beyond the encoded bytes must be zero.
pub open spec fn b64_dec(s: Seq<u8>) -> Option<Seq<u8>>
    decreases s.len(),
{
    if s.len() == 0 {
        Some(Seq::empty())
    } else if s.len() == 1 {
        None
    } else if s.len() == 2 {
        let v0 = b64_val(s[0]);
        let v1 = b64_val(s[1]);
        if v0 >= 0 && v1 >= 0 && (v1 as u8) & 15 == 0 {
            Some(seq![(((v0 as u8) << 2) | ((v1 as u8) >> 4)) as u8])
        } else {
            None
        }
    } else if s.len() == 3 {
        let v0 = b64_val(s[0]);
        let v1 = b64_val(s[1]);
        let v2 = b64_val(s[2]);
        if v0 >= 0 && v1 >= 0 && v2 >= 0 && (v2 as u8) & 3 == 0 {
            Some(
                seq![
                    (((v0 as u8) << 2) | ((v1 as u8) >> 4)) as u8,
                    ((((v1 as u8) & 15) << 4) | ((v2 as u8) >> 2)) as u8,
                ],
            )
        } else {
            None
        }
    } else {
        let v0 = b64_val(s[0]);
        let v1 = b64_val(s[1]);
        let v2 = b64_val(s[2]);
        let v3 = b64_val(s[3]);
        if v0 >= 0 && v1 >= 0 && v2 >= 0 && v3 >= 0 {
            match b64_dec(s.skip(4)) {
                None => None,
                Some(rest) => Some(
                    seq![
                        (((v0 as u8) << 2) | ((v1 as u8) >> 4)) as u8,
                        ((((v1 as u8) & 15) << 4) | ((v2 as u8) >> 2)) as u8,
                        ((((v2 as u8) & 3) << 6) | (v3 as u8)) as u8,
                    ] + rest,
                ),
            }
        } else {
            None
        }
    }
}

/// Every digit of an encoding lies in the alphabet; in particular it is
/// never `.`, `;`, `"` or `\`.
pub proof fn lemma_b64_enc_alpha(b: Seq<u8>)
    ensures
        forall|i: int| 0 <= i < b64_enc(b).len() ==> is_b64(#[trigger] b64_enc(b)[i]),
        forall|i: int|
            0 <= i < b64_enc(b).len() ==> #[trigger] b64_enc(b)[i] != 46 && b64_enc(b)[i] != 59
                && b64_enc(b)[i] != 34 && b64_enc(b)[i] != 92,
    decreases b.len(),
{
    assert(forall|v: u8| v < 64 ==> is_b64(#[trigger] b64_byte(v)) && b64_byte(v) != 46
        && b64_byte(v) != 59 && b64_byte(v) != 34 && b64_byte(v) != 92) by {
        assert forall|v: u8| v < 64 implies is_b64(#[trigger] b64_byte(v)) && b64_byte(v) != 46
            && b64_byte(v) != 59 && b64_byte(v) != 34 && b64_byte(v) != 92 by {
            lemma_b64_byte_val(v);
        }
    }
    let e = b64_enc(b);
    if b.len() > 2 {
        lemma_b64_enc_alpha(b.skip(3));
        let x = b[0];
        let y = b[1];
        let z = b[2];
        assert(x >> 2 < 64 && ((x & 3) << 4) | (y >> 4) < 64 && ((y & 15) << 2) | (z >> 6) < 64
            && z & 63 < 64) by (bit_vector);
        let rest = b64_enc(b.skip(3));
        assert forall|i: int| 0 <= i < e.len() implies is_b64(#[trigger] e[i]) && e[i] != 46
            && e[i] != 59 && e[i] != 34 && e[i] != 92 by {
            if i >= 4 {
                assert(e[i] == rest[i - 4]);
            }
        }
    } else if b.len() == 2 {
        let x = b[0];
        let y = b[1];
        assert(x >> 2 < 64 && ((x & 3) << 4) | (y >> 4) < 64 && (y & 15) << 2 < 64)
            by (bit_vector);
        assert forall|i: int| 0 <= i < e.len() implies is_b64(#[trigger] e[i]) && e[i] != 46
            && e[i] != 59 && e[i] != 34 && e[i] != 92 by {
        }
    } else if b.len() == 1 {
        let x = b[0];
        assert(x >> 2 < 64 && (x & 3) << 4 < 64) by (bit_vector);
        assert forall|i: int| 0 <= i < e.len() implies is_b64(#[trigger] e[i]) && e[i] != 46
            && e[i] != 59 && e[i] != 34 && e[i] != 92 by {
        }
    }
}

/// Decoding inverts encoding.
#[verifier::rlimit(50)]
pub proof fn lemma_b64_roundtrip(b: Seq<u8>)
    ensures
        b64_dec(b64_enc(b)) == Some(b),
    decreases b.len(),
{
    let s = b64_enc(b);
    if b.len() == 0 {
        assert(b =~= Seq::<u8>::empty());
    } else if b.len() == 1 {
        let x = b[0];
        assert(x >> 2 < 64 && (x & 3) << 4 < 64) by (bit_vector);
        lemma_b64_byte_val(x >> 2);
        lemma_b64_byte_val((x & 3) << 4);
        assert(((x & 3) << 4) & 15 == 0 && ((x >> 2) << 2) | (((x & 3) << 4) >> 4) == x)
            by (bit_vector);
        assert(b64_dec(s) == Some(seq![x]));
        assert(b =~= seq![x]);
    } else if b.len() == 2 {
        let x = b[0];
        let y = b[1];
        assert(x >> 2 < 64 && ((x & 3) << 4) | (y >> 4) < 64 && (y & 15) << 2 < 64)
            by (bit_vector);
        lemma_b64_byte_val(x >> 2);
        lemma_b64_byte_val(((x & 3) << 4) | (y >> 4));
        lemma_b64_byte_val((y & 15) << 2);
        assert(((y & 15) << 2) & 3 == 0 && ((x >> 2) << 2) | ((((x & 3) << 4) | (y >> 4)) >> 4)
            == x && (((((x & 3) << 4) | (y >> 4)) & 15) << 4) | (((y & 15) << 2) >> 2) == y)
            by (bit_vector);
        assert(b =~= seq![x, y]);
    } else {
        let x = b[0];
        let y = b[1];
        let z = b[2];
        assert(x >> 2 < 64 && ((x & 3) << 4) | (y >> 4) < 64 && ((y & 15) << 2) | (z >> 6) < 64
            && z & 63 < 64) by (bit_vector);
        lemma_b64_byte_val(x >> 2);
        lemma_b64_byte_val(((x & 3) << 4) | (y >> 4));
        lemma_b64_byte_val(((y & 15) << 2) | (z >> 6));
        lemma_b64_byte_val(z & 63);
        lemma_b64_roundtrip(b.skip(3));
        let g = seq![
            b64_byte(x >> 2),
            b64_byte(((x & 3) << 4) | (y >> 4)),
            b64_byte(((y & 15) << 2) | (z >> 6)),
            b64_byte(z & 63),
        ];
        assert(s =~= g + b64_enc(b.skip(3)));
        assert(s.len() >= 4);
        if b64_enc(b.skip(3)).len() == 0 {
            assert(s.len() == 4);
        }
        assert(s[0] == g[0] && s[1] == g[1] && s[2] == g[2] && s[3] == g[3]);
        assert(s.skip(4) =~= b64_enc(b.skip(3)));
        assert(((x >> 2) << 2) | ((((x & 3) << 4) | (y >> 4)) >> 4) == x && (((((x & 3) << 4) | (
        y >> 4)) & 15) << 4) | (((((y & 15) << 2) | (z >> 6))) >> 2) == y && (((((y & 15) << 2) | (
        z >> 6)) & 3) << 6) | (z & 63) == z) by (bit_vector);
        assert(b =~= seq![x, y, z] + b.skip(3));
    }
}

/// An encoding is unique: whatever the strict decoder accepts is the
/// canonical encoding of what it returns.
pub proof fn lemma_b64_canonical(s: Seq<u8>)
    requires
        b64_dec(s) is Some,
    ensures
        b64_enc(b64_dec(s).unwrap()) == s,
    decreases s.len(),
{
    let b = b64_dec(s).unwrap();
    if s.len() == 0 {
        assert(b64_enc(b) =~= s);
    } else if s.len() == 2 {
        let v0 = b64_val(s[0]) as u8;
        let v1 = b64_val(s[1]) as u8;
        let x = ((v0 << 2) | (v1 >> 4)) as u8;
        lemma_b64_val_byte(s[0]);
        lemma_b64_val_byte(s[1]);
        assert(v0 < 64 && v1 < 64 ==> x >> 2 == v0 && (v1 & 15 == 0 ==> (x & 3) << 4 == v1))
            by (bit_vector)
            requires x == (v0 << 2) | (v1 >> 4);
        assert(b64_enc(b) =~= seq![b64_byte(x >> 2), b64_byte((x & 3) << 4)]);
        assert(b64_enc(b) =~= s);
    } else if s.len() == 3 {
        let v0 = b64_val(s[0]) as u8;
        let v1 = b64_val(s[1]) as u8;
        let v2 = b64_val(s[2]) as u8;
        let x = ((v0 << 2) | (v1 >> 4)) as u8;
        let y = (((v1 & 15) << 4) | (v2 >> 2)) as u8;
        lemma_b64_val_byte(s[0]);
        lemma_b64_val_byte(s[1]);
        lemma_b64_val_byte(s[2]);
        assert(v0 < 64 && v1 < 64 && v2 < 64 ==> x >> 2 == v0 && ((x & 3) << 4) | (y >> 4) == v1
            && (v2 & 3 == 0 ==> (y & 15) << 2 == v2)) by (bit_vector)
            requires x == (v0 << 2) | (v1 >> 4), y == ((v1 & 15) << 4) | (v2 >> 2);
        assert(b64_enc(b) =~= s);
    } else {
        let v0 = b64_val(s[0]) as u8;
        let v1 = b64_val(s[1]) as u8;
        let v2 = b64_val(s[2]) as u8;
        let v3 = b64_val(s[3]) as u8;
        let x = ((v0 << 2) | (v1 >> 4)) as u8;
        let y = (((v1 & 15) << 4) | (v2 >> 2)) as u8;
        let z = (((v2 & 3) << 6) | v3) as u8;
        let rest = b64_dec(s.skip(4)).unwrap();
        lemma_b64_canonical(s.skip(4));
        lemma_b64_val_byte(s[0]);
        lemma_b64_val_byte(s[1]);
        lemma_b64_val_byte(s[2]);
        lemma_b64_val_byte(s[3]);
        assert(b =~= seq![x, y, z] + rest);
        assert(b.len() >= 3);
        assert(b[0] == x && b[1] == y && b[2] == z);
        assert(b.skip(3) =~= rest);
        assert(v0 < 64 && v1 < 64 && v2 < 64 && v3 < 64 ==> x >> 2 == v0 && ((x & 3) << 4) | (y
            >> 4) == v1 && ((y & 15) << 2) | (z >> 6) == v2 && z & 63 == v3) by (bit_vector)
            requires x == (v0 << 2) | (v1 >> 4), y == ((v1 & 15) << 4) | (v2 >> 2), z == ((v2 & 3)
                << 6) | v3;
        if b.len() == 3 {
            assert(rest.len() == 0);
            assert(b64_enc(rest) =~= s.skip(4));
            assert(s.skip(4).len() == 0);
            assert(b64_enc(b) =~= s);
        } else {
            assert(b64_enc(b) =~= seq![
                b64_byte(b[0] >> 2),
                b64_byte(((b[0] & 3) << 4) | (b[1] >> 4)),
                b64_byte(((b[1] & 15) << 2) | (b[2] >> 6)),
                b64_byte(b[2] & 63),
            ] + b64_enc(b.skip(3)));
            assert(b64_enc(b) =~= s);
        }
    }
}

proof fn lemma_b64_val_byte(c: u8)
    requires
        b64_val(c) >= 0,
    ensures
        b64_val(c) < 64,
        b64_byte(b64_val(c) as u8) == c,
{
}

/// Appends the canonical encoding of `b` to `out`.
pub fn b64_encode_into(b: &[u8], pos: usize, out: &mut Vec<u8>)
    requires
        pos <= b@.len(),
    ensures
        final(out)@ == old(out)@ + b64_enc(b@.skip(pos as int)),
    decreases b@.len() - pos,
{
    let ghost t = b@.skip(pos as int);
    let n = b.len();
    if pos >= n {
        assert(old(out)@ + b64_enc(t) =~= old(out)@);
        return ;
    }
    assert(t[0] == b@[pos as int]);
    if n - pos == 1 {
        let x = b[pos];
        proof {
            assert(x >> 2 < 64 && (x & 3) << 4 < 64) by (bit_vector);
        }
        out.push(b64_byte_exec(x >> 2));
        out.push(b64_byte_exec((x & 3) << 4));
        proof {
            assert(t.len() == 1);
            assert(final(out)@ =~= old(out)@ + b64_enc(t));
        }
    } else if n - pos == 2 {
        let x = b[pos];
        let y = b[pos + 1];
        assert(t[1] == b@[pos + 1]);
        proof {
            assert(x >> 2 < 64 && ((x & 3) << 4) | (y >> 4) < 64 && (y & 15) << 2 < 64)
                by (bit_vector);
        }
        out.push(b64_byte_exec(x >> 2));
        out.push(b64_byte_exec(((x & 3) << 4) | (y >> 4)));
        out.push(b64_byte_exec((y & 15) << 2));
        proof {
            assert(t.len() == 2);
            assert(final(out)@ =~= old(out)@ + b64_enc(t));
        }
    } else {
        let x = b[pos];
        let y = b[pos + 1];
        let z = b[pos + 2];
        assert(t[1] == b@[pos + 1] && t[2] == b@[pos + 2]);
        proof {
            assert(x >> 2 < 64 && ((x & 3) << 4) | (y >> 4) < 64 && ((y & 15) << 2) | (z >> 6)
                < 64 && z & 63 < 64) by (bit_vector);
        }
        out.push(b64_byte_exec(x >> 2));
        out.push(b64_byte_exec(((x & 3) << 4) | (y >> 4)));
        out.push(b64_byte_exec(((y & 15) << 2) | (z >> 6)));
        out.push(b64_byte_exec(z & 63));
        proof {
            assert(b@.skip(pos + 3) =~= t.skip(3));
        }
        b64_encode_into(b, pos + 3, out);
        proof {
            assert(final(out)@ =~= old(out)@ + b64_enc(t));
        }
    }
}

fn b64_byte_exec(v: u8) -> (r: u8)
    requires
        v < 64,
    ensures
        r == b64_byte(v),
{
    if v < 26 {
        65 + v
    } else if v < 52 {
        71 + v
    } else if v < 62 {
        v - 4
    } else if v == 62 {
        45
    } else {
        95
    }
}

fn b64_val_exec(c: u8) -> (r: i16)
    ensures
        r == b64_val(c),
{
    if 65 <= c && c <= 90 {
        (c - 65) as i16
    } else if 97 <= c && c <= 122 {
        (c as i16 - 97) + 26
    } else if 48 <= c && c <= 57 {
        (c as i16 - 48) + 52
    } else if c == 45 {
        62
    } else if c == 95 {
        63
    } else {
        -1
    }
}

/// Strictly decodes the digits of `b` from `pos` to `stop`.
pub fn b64_decode_range(b: &[u8], pos: usize, stop: usize) -> (r: Option<Vec<u8>>)
    requires
        pos <= stop <= b@.len(),
    ensures
        match r {
            Some(v) => b64_dec(b@.subrange(pos as int, stop as int)) == Some(v@),
            None => b64_dec(b@.subrange(pos as int, stop as int)) is None,
        },
    decreases stop - pos,
{
    let ghost t = b@.subrange(pos as int, stop as int);
    if pos >= stop {
        assert(t.len() == 0);
        return Some(Vec::new());
    }
    if stop - pos == 1 {
        return None;
    }
    assert(t[0] == b@[pos as int] && t[1] == b@[pos + 1]);
    let v0 = b64_val_exec(b[pos]);
    let v1 = b64_val_exec(b[pos + 1]);
    if v0 < 0 || v1 < 0 {
        return None;
    }
    let w0 = v0 as u8;
    let w1 = v1 as u8;
    if stop - pos == 2 {
        if w1 & 15 != 0 {
            return None;
        }
        let mut out: Vec<u8> = Vec::new();
        out.push((w0 << 2) | (w1 >> 4));
        assert(out@ =~= b64_dec(t).unwrap());
        return Some(out);
    }
    assert(t[2] == b@[pos + 2]);
    let v2 = b64_val_exec(b[pos + 2]);
    if v2 < 0 {
        return None;
    }
    let w2 = v2 as u8;
    if stop - pos == 3 {
        if w2 & 3 != 0 {
            return None;
        }
        let mut out: Vec<u8> = Vec::new();
        out.push((w0 << 2) | (w1 >> 4));
        out.push(((w1 & 15) << 4) | (w2 >> 2));
        assert(out@ =~= b64_dec(t).unwrap());
        return Some(out);
    }
    assert(t[3] == b@[pos + 3]);
    let v3 = b64_val_exec(b[pos + 3]);
    if v3 < 0 {
        return None;
    }
    let w3 = v3 as u8;
    proof {
        assert(b@.subrange(pos + 4, stop as int) =~= t.skip(4));
    }
    match b64_decode_range(b, pos + 4, stop) {
        None => None,
        Some(rest) => {
            let mut out: Vec<u8> = Vec::new();
            out.push((w0 << 2) | (w1 >> 4));
            out.push(((w1 & 15) << 4) | (w2 >> 2));
            out.push(((w2 & 3) << 6) | w3);
            let mut tail = rest;
            out.append(&mut tail);
            assert(out@ =~= b64_dec(t).unwrap());
            Some(out)
        },
    }
}

} // verus!
