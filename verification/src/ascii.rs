//! Byte-level text toolkit shared by the token codec and the record codec:
//! decimal rendering and parsing of `u64` values, and an ASCII-only string
//! escaping scheme (the JSON string syntax: `\"`, `\\`, and `\uXXXX` with
//! surrogate pairs) whose parser is proved to invert its printer.
use vstd::prelude::*;

verus! {

use vstd::utf8::{char_is_scalar, char_u32_cast};

/// Appends a character to the string; the standard library documents `push`
/// as appending exactly the given `char`.
pub assume_specification[ String::push ](s: &mut String, ch: char)
    ensures
        final(s)@ == old(s)@.push(ch),
;

/// Converts a code point to a character; the standard library documents
/// `from_u32` as returning `Some` exactly for Unicode scalar values (all
/// code points except the surrogate range), carrying that code point.
pub assume_specification[ char::from_u32 ](v: u32) -> (r: Option<char>)
    ensures
        (v < 0xD800 || (0xE000 <= v && v <= 0x10FFFF)) ==> r == Some(v as char),
        !(v < 0xD800 || (0xE000 <= v && v <= 0x10FFFF)) ==> r is None,
;

/// The characters of a sequence of ASCII bytes.
pub open spec fn chars_of_ascii(b: Seq<u8>) -> Seq<char> {
    b.map_values(|x: u8| x as char)
}

/// All bytes below 0x80.
pub open spec fn all_ascii(b: Seq<u8>) -> bool {
    forall|i: int| 0 <= i < b.len() ==> b[i] < 0x80
}

/// Builds the string made of the given ASCII bytes, read as characters.
pub fn ascii_to_string(v: &Vec<u8>) -> (r: String)
    requires
        all_ascii(v@),
    ensures
        r@ == chars_of_ascii(v@),
{
    let mut r = String::new();
    let mut i: usize = 0;
    while i < v.len()
        invariant
            all_ascii(v@),
            i <= v@.len(),
            r@ == chars_of_ascii(v@.take(i as int)),
        decreases v@.len() - i,
    {
        let b = v[i];
        r.push(b as char);
        proof {
            assert(chars_of_ascii(v@.take(i + 1)) =~= chars_of_ascii(v@.take(i as int)).push(
                v@[i as int] as char,
            ));
        }
        i = i + 1;
    }
    proof {
        assert(v@.take(v@.len() as int) =~= v@);
    }
    r
}

pub open spec fn is_digit(b: u8) -> bool {
    48 <= b <= 57
}

pub open spec fn dec_digit(n: u64) -> u8 {
    (48 + (n % 10)) as u8
}

/// The decimal digits of `n`, most significant first, with no sign and no
/// leading zeros (a single `'0'` for zero).
pub open spec fn dec_bytes(n: u64) -> Seq<u8>
    decreases n,
{
    if n < 10 {
        seq![dec_digit(n)]
    } else {
        dec_bytes(n / 10).push(dec_digit(n))
    }
}

pub proof fn lemma_dec_bytes_digits(n: u64)
    ensures
        dec_bytes(n).len() >= 1,
        forall|i: int| 0 <= i < dec_bytes(n).len() ==> is_digit(#[trigger] dec_bytes(n)[i]),
    decreases n,
{
    if n >= 10 {
        lemma_dec_bytes_digits(n / 10);
    }
}

/// Renders `n` in decimal.
pub fn u64_to_dec(n: u64) -> (r: Vec<u8>)
    ensures
        r@ == dec_bytes(n),
    decreases n,
{
    if n < 10 {
        let mut r: Vec<u8> = Vec::new();
        r.push(48 + (n % 10) as u8);
        r
    } else {
        let mut r = u64_to_dec(n / 10);
        r.push(48 + (n % 10) as u8);
        r
    }
}

/// Folds a run of leading decimal digits into `acc`, returning the value and
/// the unconsumed remainder; stops at the first non-digit byte.
pub open spec fn parse_num(b: Seq<u8>, acc: int) -> (int, Seq<u8>)
    decreases b.len(),
{
    if b.len() > 0 && is_digit(b[0]) {
        parse_num(b.drop_first(), acc * 10 + (b[0] - 48))
    } else {
        (acc, b)
    }
}

pub proof fn lemma_parse_num_ge(b: Seq<u8>, acc: int)
    requires
        acc >= 0,
    ensures
        parse_num(b, acc).0 >= acc,
    decreases b.len(),
{
    if b.len() > 0 && is_digit(b[0]) {
        assert(acc * 10 + (b[0] - 48) >= acc) by (nonlinear_arith)
            requires acc >= 0, b[0] >= 48;
        lemma_parse_num_ge(b.drop_first(), acc * 10 + (b[0] - 48));
    }
}

pub open spec fn pow10(k: nat) -> int
    decreases k,
{
    if k == 0 {
        1
    } else {
        10 * pow10((k - 1) as nat)
    }
}

/// Parsing the decimal rendering of `n` (followed by anything) continues the
/// fold exactly as if `n`'s digits had been folded in.
pub proof fn lemma_parse_num_dec(n: u64, rest: Seq<u8>, acc: int)
    ensures
        parse_num(dec_bytes(n) + rest, acc) == parse_num(
            rest,
            acc * pow10(dec_bytes(n).len()) + n,
        ),
    decreases n,
{
    if n < 10 {
        let b = dec_bytes(n) + rest;
        assert(b[0] == dec_digit(n));
        assert(b.drop_first() =~= rest);
        assert(pow10(0) == 1);
        assert(pow10(1) == 10);
        assert(acc * 10 + (dec_digit(n) - 48) == acc * pow10(1) + n);
    } else {
        let d = dec_digit(n);
        assert(dec_bytes(n) + rest =~= dec_bytes(n / 10) + (seq![d] + rest));
        lemma_parse_num_dec(n / 10, seq![d] + rest, acc);
        let k = dec_bytes(n / 10).len();
        let acc2 = acc * pow10(k) + (n / 10);
        assert((seq![d] + rest).drop_first() =~= rest);
        assert(parse_num(seq![d] + rest, acc2) == parse_num(rest, acc2 * 10 + (d - 48)));
        let p = pow10(k);
        let q = n / 10;
        assert((acc * p + q) * 10 + (n % 10) == acc * (p * 10) + (q * 10 + n % 10))
            by (nonlinear_arith);
        assert((n / 10) * 10 + n % 10 == n) by (nonlinear_arith);
        assert(pow10(dec_bytes(n).len()) == pow10(k) * 10) by {
            assert(dec_bytes(n).len() == k + 1);
            assert(pow10(k + 1) == 10 * pow10(k));
        };
    }
}

/// The value of `n`'s own digits is `n`.
pub proof fn lemma_parse_num_of_dec(n: u64, rest: Seq<u8>)
    requires
        rest.len() == 0 || !is_digit(rest[0]),
    ensures
        parse_num(dec_bytes(n) + rest, 0) == (n as int, rest),
{
    lemma_parse_num_dec(n, rest, 0);
    assert(0 * pow10(dec_bytes(n).len()) == 0) by (nonlinear_arith);
}

/// Parses a run of decimal digits starting at `pos`; `None` if no digit is
/// there or the value exceeds `u64::MAX`. On `Some((n, p))`, `p` is the
/// position just past the digits.
pub fn parse_num_at(b: &[u8], pos: usize) -> (r: Option<(u64, usize)>)
    requires
        pos <= b@.len(),
    ensures
        match r {
            Some((n, p)) => {
                &&& pos < p <= b@.len()
                &&& parse_num(b@.skip(pos as int), 0) == (n as int, b@.skip(p as int))
                &&& is_digit(b@[pos as int])
            },
            None => b@.len() == pos || !is_digit(b@[pos as int]) || parse_num(
                b@.skip(pos as int),
                0,
            ).0 > u64::MAX,
        },
{
    if pos >= b.len() || !(48 <= b[pos] && b[pos] <= 57) {
        return None;
    }
    let mut acc: u64 = 0;
    let mut p: usize = pos;
    while p < b.len() && 48 <= b[p] && b[p] <= 57
        invariant
            pos <= p <= b@.len(),
            parse_num(b@.skip(pos as int), 0) == parse_num(b@.skip(p as int), acc as int),
        decreases b@.len() - p,
    {
        let d = b[p] - 48;
        if acc > (u64::MAX - d as u64) / 10 {
            proof {
                assert(acc * 10 + d > u64::MAX) by (nonlinear_arith)
                    requires acc > (u64::MAX - d as u64) / 10, d < 10;
                lemma_parse_num_ge(b@.skip(p as int).drop_first(), acc * 10 + d);
                assert(b@.skip(p as int)[0] == b@[p as int]);
            }
            return None;
        }
        proof {
            assert(b@.skip(p as int)[0] == b@[p as int]);
            assert(b@.skip(p as int).drop_first() =~= b@.skip(p + 1));
        }
        acc = acc * 10 + d as u64;
        p = p + 1;
    }
    proof {
        assert(parse_num(b@.skip(p as int), acc as int) == (acc as int, b@.skip(p as int)));
    }
    Some((acc, p))
}

pub open spec fn hex_digit(d: u32) -> u8 {
    if d < 10 {
        (48 + d) as u8
    } else {
        (87 + d) as u8
    }
}

pub open spec fn hex4(v: u32) -> Seq<u8> {
    seq![
        hex_digit((v >> 12) & 15),
        hex_digit((v >> 8) & 15),
        hex_digit((v >> 4) & 15),
        hex_digit(v & 15),
    ]
}

pub open spec fn hex_val(b: u8) -> int {
    if 48 <= b <= 57 {
        b - 48
    } else if 97 <= b <= 102 {
        b - 87
    } else {
        -1
    }
}

pub open spec fn hexval4(b: Seq<u8>) -> int {
    if hex_val(b[0]) >= 0 && hex_val(b[1]) >= 0 && hex_val(b[2]) >= 0 && hex_val(b[3]) >= 0 {
        hex_val(b[0]) * 0x1000 + hex_val(b[1]) * 0x100 + hex_val(b[2]) * 16 + hex_val(b[3])
    } else {
        -1
    }
}

pub proof fn lemma_hex_roundtrip(v: u32)
    requires
        v < 0x10000,
    ensures
        hexval4(hex4(v)) == v,
{
    assert(((v >> 12) & 15) < 16 && ((v >> 8) & 15) < 16 && ((v >> 4) & 15) < 16 && (v & 15) < 16)
        by (bit_vector);
    assert(hex_val(hex_digit((v >> 12) & 15)) == ((v >> 12) & 15) as int);
    assert(hex_val(hex_digit((v >> 8) & 15)) == ((v >> 8) & 15) as int);
    assert(hex_val(hex_digit((v >> 4) & 15)) == ((v >> 4) & 15) as int);
    assert(hex_val(hex_digit(v & 15)) == (v & 15) as int);
    assert(v < 0x10000 ==> ((v >> 12) & 15) * 0x1000 + ((v >> 8) & 15) * 0x100 + ((v >> 4) & 15)
        * 16 + (v & 15) == v) by (bit_vector);
}

/// The escaped form of one character: `\"` and `\\` for the two marked
/// characters, `\uXXXX` (a surrogate pair above 0xFFFF) for control and
/// non-ASCII characters, the plain ASCII byte otherwise.
pub open spec fn esc_char(c: char) -> Seq<u8> {
    let v = c as u32;
    if c == '"' {
        seq![92u8, 34u8]
    } else if c == '\\' {
        seq![92u8, 92u8]
    } else if v < 0x20 || (0x80 <= v && v < 0x10000) {
        seq![92u8, 117u8] + hex4(v)
    } else if v >= 0x10000 {
        seq![92u8, 117u8] + hex4((0xD800 + (v - 0x10000) / 0x400) as u32) + seq![92u8, 117u8]
            + hex4((0xDC00 + (v - 0x10000) % 0x400) as u32)
    } else {
        seq![v as u8]
    }
}

pub open spec fn esc_str(s: Seq<char>) -> Seq<u8>
    decreases s.len(),
{
    if s.len() == 0 {
        Seq::empty()
    } else {
        esc_char(s[0]) + esc_str(s.drop_first())
    }
}

pub proof fn lemma_esc_str_push(s: Seq<char>, c: char)
    ensures
        esc_str(s.push(c)) == esc_str(s) + esc_char(c),
    decreases s.len(),
{
    if s.len() == 0 {
        assert(s.push(c)[0] == c);
        assert(s.push(c).drop_first() =~= Seq::<char>::empty());
        assert(esc_str(s.push(c)) == esc_char(c) + esc_str(s.push(c).drop_first()));
        assert(esc_str(Seq::<char>::empty()) == Seq::<u8>::empty());
        assert(esc_char(c) + Seq::<u8>::empty() =~= esc_char(c));
        assert(esc_str(s) + esc_char(c) =~= esc_char(c));
    } else {
        assert(s.push(c).drop_first() =~= s.drop_first().push(c));
        lemma_esc_str_push(s.drop_first(), c);
        assert(esc_str(s.push(c)) =~= esc_str(s) + esc_char(c));
    }
}

/// Reads one character at the head of `b`: `Some((c, k))` consumes `k >= 1`
/// bytes. A closing quote, a bad escape, a raw control byte and a non-ASCII
/// byte all fail.
pub open spec fn parse_one(b: Seq<u8>) -> Option<(char, int)> {
    if b.len() == 0 || b[0] == 34 {
        None
    } else if b[0] == 92 {
        if b.len() >= 2 && b[1] == 34 {
            Some(('"', 2))
        } else if b.len() >= 2 && b[1] == 92 {
            Some(('\\', 2))
        } else if b.len() >= 6 && b[1] == 117 {
            let h = hexval4(b.subrange(2, 6));
            if h < 0 {
                None
            } else if h < 0xD800 || 0xE000 <= h {
                Some(((h as u32) as char, 6))
            } else if h < 0xDC00 {
                if b.len() >= 12 && b[6] == 92 && b[7] == 117 {
                    let l = hexval4(b.subrange(8, 12));
                    if 0xDC00 <= l < 0xE000 {
                        Some(((0x10000 + (h - 0xD800) * 0x400 + (l - 0xDC00)) as u32 as char, 12))
                    } else {
                        None
                    }
                } else {
                    None
                }
            } else {
                None
            }
        } else {
            None
        }
    } else if b[0] < 0x20 || b[0] >= 0x80 {
        None
    } else {
        Some((b[0] as char, 1))
    }
}

/// Reads characters until an unescaped closing quote, which it consumes.
pub open spec fn parse_str(b: Seq<u8>) -> Option<(Seq<char>, int)>
    decreases b.len(),
{
    if b.len() == 0 {
        None
    } else if b[0] == 34 {
        Some((Seq::empty(), 1))
    } else {
        match parse_one(b) {
            None => None,
            Some((c, k)) => if 1 <= k <= b.len() {
                match parse_str(b.skip(k)) {
                    None => None,
                    Some((s, m)) => Some((seq![c] + s, k + m)),
                }
            } else {
                None
            },
        }
    }
}

/// Reading the escaped form of one character gives that character back.
pub proof fn lemma_parse_one_esc(c: char, rest: Seq<u8>)
    ensures
        parse_one(esc_char(c) + rest) == Some((c, esc_char(c).len() as int)),
{
    let v = c as u32;
    char_is_scalar(c);
    char_u32_cast(c, v);
    let b = esc_char(c) + rest;
    if c == '"' {
        assert(b[0] == 92 && b[1] == 34);
    } else if c == '\\' {
        assert(b[0] == 92 && b[1] == 92);
    } else if v < 0x20 || (0x80 <= v && v < 0x10000) {
        assert(b.subrange(2, 6) =~= hex4(v));
        lemma_hex_roundtrip(v);
        assert(!(0xD800 <= v < 0xE000));
    } else if v >= 0x10000 {
        let h = 0xD800 + (v - 0x10000) / 0x400;
        let l = 0xDC00 + (v - 0x10000) % 0x400;
        assert(v <= 0x10FFFF);
        assert((v - 0x10000) / 0x400 < 0x400 && (v - 0x10000) / 0x400 >= 0) by (nonlinear_arith)
            requires 0x10000 <= v <= 0x10FFFF;
        assert(0 <= (v - 0x10000) % 0x400 < 0x400) by (nonlinear_arith);
        assert(b.subrange(2, 6) =~= hex4(h as u32));
        assert(b[6] == 92 && b[7] == 117);
        assert(b.subrange(8, 12) =~= hex4(l as u32));
        lemma_hex_roundtrip(h as u32);
        lemma_hex_roundtrip(l as u32);
        assert(0x10000 + (h - 0xD800) * 0x400 + (l - 0xDC00) == v) by {
            vstd::arithmetic::div_mod::lemma_fundamental_div_mod((v - 0x10000) as int, 0x400);
        };
    } else {
        assert(b[0] == (v as u8));
        assert(v < 0x80);
        assert(b[0] != 34 && b[0] != 92 && b[0] >= 0x20 && b[0] < 0x80);
        let w = v as u8;
        assert(w as u32 == v) by (bit_vector)
            requires v < 0x80 && w == v as u8;
        assert((w as char) as u32 == v);
        char_u32_cast(w as char, v);
        char_u32_cast(c, v);
    }
}

/// Reading the escaped form of a string, up to its closing quote, gives the
/// string back, for every string.
pub proof fn lemma_parse_str_esc(s: Seq<char>, rest: Seq<u8>)
    ensures
        parse_str(esc_str(s) + seq![34u8] + rest) == Some((s, esc_str(s).len() as int + 1)),
    decreases s.len(),
{
    let b = esc_str(s) + seq![34u8] + rest;
    if s.len() == 0 {
        assert(b[0] == 34);
        assert(s =~= Seq::<char>::empty());
    } else {
        let c = s[0];
        let tail = s.drop_first();
        assert(b =~= esc_char(c) + (esc_str(tail) + seq![34u8] + rest));
        lemma_parse_one_esc(c, esc_str(tail) + seq![34u8] + rest);
        let k = esc_char(c).len() as int;
        assert(esc_char(c).len() >= 1);
        assert(b[0] != 34) by {
            assert(b[0] == esc_char(c)[0]);
            if c == '"' || c == '\\' || (c as u32) < 0x20 || (c as u32) >= 0x80 {
                assert(esc_char(c)[0] == 92);
            } else {
                let v = c as u32;
                assert(esc_char(c)[0] == v as u8);
                assert(v != 34) by {
                    char_u32_cast(c, v);
                    char_u32_cast('"', '"' as u32);
                }
                assert(v < 0x80 ==> (v as u8) != 34u8) by (bit_vector)
                    requires v != 34;
            }
        };
        assert(b.skip(k) =~= esc_str(tail) + seq![34u8] + rest);
        lemma_parse_str_esc(tail, rest);
        assert(seq![c] + tail =~= s);
    }
}

/// Appends the escaped form of one character.
pub fn esc_push(out: &mut Vec<u8>, c: char)
    ensures
        final(out)@ == old(out)@ + esc_char(c),
{
    let v = c as u32;
    if c == '"' {
        out.push(92);
        out.push(34);
    } else if c == '\\' {
        out.push(92);
        out.push(92);
    } else if v < 0x20 || (0x80 <= v && v < 0x10000) {
        out.push(92);
        out.push(117);
        hex_push(out, v);
        assert(final(out)@ =~= old(out)@ + esc_char(c));
    } else if v >= 0x10000 {
        proof {
            char_is_scalar(c);
            assert((v - 0x10000) / 0x400 < 0x400) by (nonlinear_arith)
                requires 0x10000 <= v <= 0x10FFFF;
        }
        out.push(92);
        out.push(117);
        hex_push(out, 0xD800 + (v - 0x10000) / 0x400);
        out.push(92);
        out.push(117);
        hex_push(out, 0xDC00 + (v - 0x10000) % 0x400);
        assert(final(out)@ =~= old(out)@ + esc_char(c));
    } else {
        out.push(v as u8);
        assert(final(out)@ =~= old(out)@ + esc_char(c));
    }
}

fn hex_push(out: &mut Vec<u8>, v: u32)
    requires
        v < 0x10000,
    ensures
        final(out)@ == old(out)@ + hex4(v),
{
    proof {
        assert(((v >> 12) & 15) < 16 && ((v >> 8) & 15) < 16 && ((v >> 4) & 15) < 16 && (v & 15)
            < 16) by (bit_vector);
    }
    hex_push_digit(out, (v >> 12) & 15);
    hex_push_digit(out, (v >> 8) & 15);
    hex_push_digit(out, (v >> 4) & 15);
    hex_push_digit(out, v & 15);
    assert(final(out)@ =~= old(out)@ + hex4(v));
}

fn hex_push_digit(out: &mut Vec<u8>, d: u32)
    requires
        d < 16,
    ensures
        final(out)@ == old(out)@.push(hex_digit(d)),
{
    if d < 10 {
        out.push(48 + d as u8);
    } else {
        out.push(87 + d as u8);
    }
}

/// Appends the escaped form of a string.
pub fn esc_append(out: &mut Vec<u8>, s: &str)
    ensures
        final(out)@ == old(out)@ + esc_str(s@),
{
    let n = s.unicode_len();
    let mut i: usize = 0;
    while i < n
        invariant
            n == s@.len(),
            i <= n,
            out@ == old(out)@ + esc_str(s@.take(i as int)),
        decreases n - i,
    {
        let c = s.get_char(i);
        esc_push(out, c);
        proof {
            assert(s@.take(i + 1) =~= s@.take(i as int).push(s@[i as int]));
            lemma_esc_str_push(s@.take(i as int), s@[i as int]);
        }
        i = i + 1;
    }
    proof {
        assert(s@.take(s@.len() as int) =~= s@);
    }
}

/// Compares `b[from..to]` with `expect`.
pub fn range_eq(b: &[u8], from: usize, to: usize, expect: &[u8]) -> (r: bool)
    requires
        from <= to <= b@.len(),
    ensures
        r == (b@.subrange(from as int, to as int) == expect@),
{
    let n = expect.len();
    if to - from != n {
        proof {
            assert(b@.subrange(from as int, to as int).len() == to - from);
        }
        return false;
    }
    let mut i: usize = 0;
    while i < n
        invariant
            from <= to <= b@.len(),
            n == expect@.len(),
            to - from == n,
            i <= n,
            forall|k: int| 0 <= k < i ==> b@[from + k] == expect@[k],
        decreases n - i,
    {
        if b[from + i] != expect[i] {
            proof {
                assert(b@.subrange(from as int, to as int)[i as int] == b@[from + i]);
            }
            return false;
        }
        i = i + 1;
    }
    proof {
        assert(b@.subrange(from as int, to as int) =~= expect@);
    }
    true
}

/// Reads one character at `pos`, as `parse_one` does on the remainder.
pub fn parse_one_at(b: &[u8], pos: usize) -> (r: Option<(char, usize)>)
    requires
        pos <= b@.len(),
    ensures
        match r {
            Some((c, k)) => parse_one(b@.skip(pos as int)) == Some((c, k as int)) && pos + k
                <= b@.len() && k >= 1,
            None => parse_one(b@.skip(pos as int)) is None,
        },
{
    let ghost t = b@.skip(pos as int);
    let n = b.len();
    if pos >= n || b[pos] == 34 {
        return None;
    }
    assert(t[0] == b@[pos as int]);
    if b[pos] == 92 {
        if pos + 1 < n && b[pos + 1] == 34 {
            assert(t[1] == b@[pos + 1]);
            return Some(('"', 2));
        }
        if pos + 1 < n && b[pos + 1] == 92 {
            assert(t[1] == b@[pos + 1]);
            return Some(('\\', 2));
        }
        if n - pos > 5 && b[pos + 1] == 117 {
            assert(t[1] == b@[pos + 1]);
            let h = hexval4_at(b, pos + 2);
            proof {
                assert(b@.subrange(pos + 2, pos + 6) =~= t.subrange(2, 6));
            }
            if h < 0 {
                return None;
            }
            if h < 0xD800 || 0xE000 <= h {
                match char::from_u32(h as u32) {
                    Some(c) => {
                        return Some((c, 6));
                    },
                    None => {
                        return None;
                    },
                }
            }
            if h < 0xDC00 {
                if n - pos > 11 && b[pos + 6] == 92 && b[pos + 7] == 117 {
                    assert(t[6] == b@[pos + 6] && t[7] == b@[pos + 7]);
                    let l = hexval4_at(b, pos + 8);
                    proof {
                        assert(b@.subrange(pos + 8, pos + 12) =~= t.subrange(8, 12));
                    }
                    if 0xDC00 <= l && l < 0xE000 {
                        let v: u32 = (0x10000 + (h - 0xD800) * 0x400 + (l - 0xDC00)) as u32;
                        match char::from_u32(v) {
                            Some(c) => {
                                return Some((c, 12));
                            },
                            None => {
                                return None;
                            },
                        }
                    }
                }
                return None;
            }
            return None;
        }
        return None;
    }
    if b[pos] < 0x20 || b[pos] >= 0x80 {
        return None;
    }
    Some((b[pos] as char, 1))
}

/// Reads four hex digits at `pos`; negative when any is not a hex digit.
fn hexval4_at(b: &[u8], pos: usize) -> (r: i64)
    requires
        pos + 4 <= b@.len(),
    ensures
        r == hexval4(b@.subrange(pos as int, pos + 4)),
        r < 0x10000,
{
    let ghost t = b@.subrange(pos as int, pos + 4);
    let d0 = hexval_byte(b[pos]);
    let d1 = hexval_byte(b[pos + 1]);
    let d2 = hexval_byte(b[pos + 2]);
    let d3 = hexval_byte(b[pos + 3]);
    assert(t[0] == b@[pos as int] && t[1] == b@[pos + 1] && t[2] == b@[pos + 2] && t[3] == b@[pos
        + 3]);
    if d0 < 0 || d1 < 0 || d2 < 0 || d3 < 0 {
        return -1;
    }
    d0 * 0x1000 + d1 * 0x100 + d2 * 16 + d3
}

fn hexval_byte(b: u8) -> (r: i64)
    ensures
        r == hex_val(b),
{
    if 48 <= b && b <= 57 {
        (b - 48) as i64
    } else if 97 <= b && b <= 102 {
        (b - 87) as i64
    } else {
        -1
    }
}

/// Reads characters from `pos` up to a closing quote, appending them to
/// `out`; returns how many bytes were consumed, the quote included.
pub fn parse_str_into(b: &[u8], pos: usize, out: &mut String) -> (r: Option<usize>)
    requires
        pos <= b@.len(),
    ensures
        match r {
            Some(k) => {
                &&& parse_str(b@.skip(pos as int)) matches Some((s, m)) && m == k && final(out)@
                    == old(out)@ + s
                &&& pos + k <= b@.len()
            },
            None => parse_str(b@.skip(pos as int)) is None,
        },
    decreases b@.len() - pos,
{
    let ghost t = b@.skip(pos as int);
    if pos >= b.len() {
        return None;
    }
    assert(t[0] == b@[pos as int]);
    if b[pos] == 34 {
        assert(old(out)@ + Seq::<char>::empty() =~= old(out)@);
        return Some(1);
    }
    match parse_one_at(b, pos) {
        None => None,
        Some((c, k)) => {
            out.push(c);
            proof {
                assert(b@.skip(pos + k) =~= t.skip(k as int));
            }
            match parse_str_into(b, pos + k, out) {
                None => None,
                Some(m) => {
                    proof {
                        let (s, _) = parse_str(t.skip(k as int)).unwrap();
                        assert(old(out)@.push(c) + s =~= old(out)@ + (seq![c] + s));
                    }
                    Some(k + m)
                },
            }
        },
    }
}

} // verus!
