use izin::hasher::verify_password;
use izin::record::{decode_user, encode_user};
use izin::{Config, Login, Token, User};

#[test]
fn record_roundtrip_plain() {
    let u = User { salt: vec![1, 2, 3, 250], hash: "$argon2id$v=19$x".to_string(), updated: 42 };
    let enc = encode_user(&u);
    let back = decode_user(&enc).unwrap();
    assert_eq!(back.salt, u.salt);
    assert_eq!(back.hash, u.hash);
    assert_eq!(back.updated, u.updated);
}

#[test]
fn record_roundtrip_awkward_hash() {
    let u = User {
        salt: vec![],
        hash: "odd\"hash;with\\things\u{1f4a3}".to_string(),
        updated: u64::MAX,
    };
    let enc = encode_user(&u);
    let back = decode_user(&enc).unwrap();
    assert_eq!(back.salt, u.salt);
    assert_eq!(back.hash, u.hash);
    assert_eq!(back.updated, u.updated);
}

#[test]
fn corrupt_record_is_rejected() {
    assert!(decode_user(b"").is_none());
    assert!(decode_user(b"abc").is_none());
    assert!(decode_user(b"42;;noquote").is_none());
    let u = User { salt: vec![9, 9], hash: "h".to_string(), updated: 3 };
    let mut enc = encode_user(&u);
    enc.pop();
    assert!(decode_user(&enc).is_none());
}

#[test]
fn malformed_stored_hash_verifies_false_without_raising() {
    assert_eq!(verify_password("not an encoded hash", "pw"), false);
    assert_eq!(verify_password("", ""), false);
}

#[test]
fn config_defaults() {
    let c = Config::default();
    assert_eq!(c.database, "/var/lib/izin/database");
    assert_eq!(c.logging, false);
    assert!(c.origins.is_empty());
    assert_eq!(c.port, 80);
    assert_eq!(c.secret, "");
}

#[test]
fn login_and_token_defaults() {
    let l = Login::default();
    assert_eq!(l.username, "");
    assert_eq!(l.password, "");
    let t = Token::default();
    assert_eq!(t.encoded, "");
}
