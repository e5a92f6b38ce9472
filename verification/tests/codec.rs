use izin::b64::{b64_decode_range, b64_encode_into};
use izin::jwt::{decode_token, encode_token};
use izin::Claims;

fn claims(expiry: u64, issued: u64, subject: &str) -> Claims {
    Claims { expiry, issued, subject: subject.to_string() }
}

fn b64(bytes: &[u8]) -> String {
    let mut out: Vec<u8> = Vec::new();
    b64_encode_into(bytes, 0, &mut out);
    String::from_utf8(out).unwrap()
}

#[test]
fn base64url_known_vectors() {
    assert_eq!(b64(b"Man"), "TWFu");
    assert_eq!(b64(b"Ma"), "TWE");
    assert_eq!(b64(b"M"), "TQ");
    assert_eq!(b64(b""), "");
    assert_eq!(b64(&[251, 239, 190]), "----");
}

#[test]
fn base64url_roundtrip() {
    let data: Vec<u8> = (0u16..=255).map(|x| x as u8).collect();
    let enc = b64(&data);
    let back = b64_decode_range(enc.as_bytes(), 0, enc.len()).unwrap();
    assert_eq!(back, data);
}

#[test]
fn base64url_rejects_padding_and_junk() {
    assert!(b64_decode_range(b"TWE=", 0, 4).is_none());
    assert!(b64_decode_range(b"TQ!", 0, 3).is_none());
    // one digit more than a multiple of four can encode nothing
    assert!(b64_decode_range(b"TWFuA", 0, 5).is_none());
    // non-zero trailing bits are not canonical
    assert!(b64_decode_range(b"TR", 0, 2).is_none());
}

#[test]
fn token_has_expected_segments() {
    let tok = encode_token(&claims(100, 50, "bob"), "secret");
    let parts: Vec<&str> = tok.split('.').collect();
    assert_eq!(parts.len(), 3);
    assert_eq!(parts[0], "eyJ0eXAiOiJKV1QiLCJhbGciOiJIUzI1NiJ9");
    assert_eq!(parts[1], "eyJleHAiOjEwMCwiaWF0Ijo1MCwic3ViIjoiYm9iIn0");
    assert_eq!(parts[2].len(), 43);
}

#[test]
fn token_roundtrip_plain() {
    let tok = encode_token(&claims(1700000000, 1699996400, "alice"), "k3y");
    let back = decode_token(&tok, "k3y").unwrap();
    assert_eq!(back.expiry, 1700000000);
    assert_eq!(back.issued, 1699996400);
    assert_eq!(back.subject, "alice");
}

#[test]
fn token_roundtrip_awkward_subject() {
    let subject = "a\"b\\c\nd;e.f\u{e9}\u{1d11e}\u{0}";
    let tok = encode_token(&claims(u64::MAX, 0, subject), "secret");
    let back = decode_token(&tok, "secret").unwrap();
    assert_eq!(back.expiry, u64::MAX);
    assert_eq!(back.issued, 0);
    assert_eq!(back.subject, subject);
}

#[test]
fn token_rejects_wrong_secret() {
    let tok = encode_token(&claims(100, 50, "bob"), "secret");
    assert!(decode_token(&tok, "secret").is_some());
    assert!(decode_token(&tok, "secres").is_none());
    assert!(decode_token(&tok, "").is_none());
}

#[test]
fn token_rejects_any_signature_flip() {
    let tok = encode_token(&claims(100, 50, "bob"), "secret");
    let sig_start = tok.rfind('.').unwrap() + 1;
    let bytes = tok.as_bytes();
    for i in sig_start..tok.len() {
        for delta in [1u8, 13, 128] {
            let mut mutated = bytes.to_vec();
            mutated[i] = mutated[i].wrapping_add(delta);
            if mutated[i] == bytes[i] {
                continue;
            }
            let s = String::from_utf8_lossy(&mutated).into_owned();
            assert!(decode_token(&s, "secret").is_none(), "flip at {} survived", i);
        }
    }
}

#[test]
fn token_rejects_malformed_shapes() {
    assert!(decode_token("", "secret").is_none());
    assert!(decode_token("abc", "secret").is_none());
    assert!(decode_token("a.b", "secret").is_none());
    assert!(decode_token("a.b.c.d", "secret").is_none());
    let tok = encode_token(&claims(100, 50, "bob"), "secret");
    let truncated = &tok[..tok.len() - 1];
    assert!(decode_token(truncated, "secret").is_none());
}
