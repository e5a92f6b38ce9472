//! The password hasher: a fresh random salt from the system's entropy
//! source and a memory-hard salted hash (Argon2id, version 1.3, one lane)
//! whose encoded form carries its own parameters, so that verification
//! needs nothing but the encoded hash and the candidate password.
use vstd::prelude::*;

use ring::rand::SecureRandom;

verus! {

#[verifier::external_type_specification]
#[verifier::external_body]
pub struct ExRngError(ring::error::Unspecified);

#[verifier::external_type_specification]
#[verifier::external_body]
pub struct ExArgonError(argon2::Error);

/// The length of a fresh salt, in bytes.
pub const SALT_LENGTH: usize = 64;

/// The length of the raw hash, in bytes.
pub const HASH_LENGTH: u32 = 64;

/// The memory cost of the fixed hashing parameters, in KiB.
pub const MEM_COST: u32 = 65535;

/// The time cost (passes) of the fixed hashing parameters.
pub const TIME_COST: u32 = 8;

/// Relies on ring::rand::SystemRandom::fill: on success the buffer is
/// filled; nothing holds of the byte values, which are drawn fresh from the
/// system's entropy source on every call.
#[verifier::external_body]
pub fn random_bytes(n: usize) -> (r: Result<Vec<u8>, ring::error::Unspecified>)
    ensures
        match r {
            Ok(v) => v@.len() == n,
            Err(_) => true,
        },
{
    let mut buf = vec![0u8; n];
    ring::rand::SystemRandom::new().fill(&mut buf)?;
    Ok(buf)
}

/// The encoded hash that Argon2id (version 1.3, one lane, no secret, these
/// costs) derives from this password and salt; a function of its arguments
/// alone.
pub uninterp spec fn argon2id_hash(pwd: Seq<char>, salt: Seq<u8>, mem: u32, time: u32, len: u32) -> Seq<char>;

/// What verifying this password against this encoded hash yields: `None`
/// where the encoded string cannot be read as a hash, otherwise whether the
/// password matches; a function of its arguments alone.
pub uninterp spec fn argon2_check(encoded: Seq<char>, pwd: Seq<char>) -> Option<bool>;

/// Relies on argon2::hash_encoded with the Argon2id variant, version 1.3,
/// one lane and sequential threading: its settings check accepts a salt of
/// at least 8 bytes, a memory cost from 8 KiB up to the 2 GiB ceiling it
/// imposes on 32-bit targets, at least one pass and a hash length of at
/// least 4 with inputs below 2^32 bytes, so the call returns the encoded
/// hash, which depends on the password, salt and costs alone; and
/// argon2::verify_encoded accepts the password against that hash, as it
/// re-derives the raw hash from the parameters embedded in it.
#[verifier::external_body]
fn argon2_hash(pwd: &str, salt: &[u8], mem: u32, time: u32, len: u32) -> (r: String)
    requires
        8 <= salt@.len() < 0x1_0000_0000,
        pwd@.len() < 0x4000_0000,
        8 <= mem <= 0x20_0000,
        time >= 1,
        len >= 4,
    ensures
        r@ == argon2id_hash(pwd@, salt@, mem, time, len),
        argon2_check(r@, pwd@) == Some(true),
{
    let config = argon2::Config {
        ad: &[],
        hash_length: len,
        lanes: 1,
        mem_cost: mem,
        secret: &[],
        thread_mode: argon2::ThreadMode::Sequential,
        time_cost: time,
        variant: argon2::Variant::Argon2id,
        version: argon2::Version::Version13,
    };
    argon2::hash_encoded(pwd.as_bytes(), salt, &config).unwrap()
}

/// Relies on argon2::verify_encoded: a pure function of the encoded hash
/// and the password; `Err` exactly where the encoded string cannot be read
/// as a hash, otherwise whether the password matches.
#[verifier::external_body]
fn argon2_verify(encoded: &str, pwd: &str) -> (r: Result<bool, argon2::Error>)
    ensures
        match r {
            Ok(ok) => argon2_check(encoded@, pwd@) == Some(ok),
            Err(_) => argon2_check(encoded@, pwd@) is None,
        },
{
    argon2::verify_encoded(encoded, pwd.as_bytes())
}

/// Derives the salted encoded hash of a password with the given costs.
pub fn hash_password(pwd: &str, salt: &[u8], mem: u32, time: u32) -> (r: String)
    requires
        8 <= salt@.len() < 0x1_0000_0000,
        pwd@.len() < 0x4000_0000,
        8 <= mem <= 0x20_0000,
        time >= 1,
    ensures
        r@ == argon2id_hash(pwd@, salt@, mem, time, HASH_LENGTH),
        argon2_check(r@, pwd@) == Some(true),
{
    argon2_hash(pwd, salt, mem, time, HASH_LENGTH)
}

/// Verifies a password against a stored encoded hash: a mismatch and an
/// unreadable hash are both a plain `false`, never an error.
pub fn verify_password(encoded: &str, pwd: &str) -> (r: bool)
    ensures
        r == (argon2_check(encoded@, pwd@) == Some(true)),
{
    match argon2_verify(encoded, pwd) {
        Ok(ok) => ok,
        Err(_) => false,
    }
}

} // verus!
