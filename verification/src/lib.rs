//! A lightweight token-based authentication library: credential records with
//! memory-hard password hashes, signed short-lived tokens, and revocation of
//! earlier tokens by the credential's own update timestamp.
use vstd::prelude::*;

pub mod ascii;
pub mod hasher;
pub mod store;
pub mod b64;
pub mod commands;
pub mod jwt;
pub mod record;

verus! {

/// A stored credential record: a fresh random salt, the salted memory-hard
/// hash of the password, and the time of the last credential-affecting
/// change, in seconds since the epoch.
pub struct User {
    pub salt: Vec<u8>,
    pub hash: String,
    pub updated: u64,
}

/// The claims carried inside a token: the subject it authenticates, when it
/// was issued, and when it expires.
pub struct Claims {
    pub expiry: u64,
    pub issued: u64,
    pub subject: String,
}

/// A username and password pair presented by a caller.
pub struct Login {
    pub username: String,
    pub password: String,
}

impl Default for Login {
    fn default() -> (r: Login)
        ensures
            r.username@ == Seq::<char>::empty(),
            r.password@ == Seq::<char>::empty(),
    {
        Login { username: String::new(), password: String::new() }
    }
}

/// An encoded token, opaque to every caller outside the codec and engine.
pub struct Token {
    pub encoded: String,
}

impl Default for Token {
    fn default() -> (r: Token)
        ensures
            r.encoded@ == Seq::<char>::empty(),
    {
        Token { encoded: String::new() }
    }
}

/// The one hard failure the engine surfaces: the underlying store or the
/// entropy source was unavailable, or a stored record was unreadable.
#[derive(Clone, Copy, Debug, PartialEq, Eq, Structural)]
pub enum AuthError {
    IoFailure,
}

/// Process configuration for a deployment of the engine.
pub struct Config {
    pub database: String,
    pub logging: bool,
    pub origins: Vec<String>,
    pub port: u16,
    pub secret: String,
}

impl Default for Config {
    /// The built-in defaults; a front end may override each field from its
    /// environment before use.
    fn default() -> (r: Config)
        ensures
            r.database@ == "/var/lib/izin/database"@,
            r.logging == false,
            r.origins@.len() == 0,
            r.port == 80,
            r.secret@ == ""@,
    {
        Config {
            database: "/var/lib/izin/database".to_owned(),
            logging: false,
            origins: Vec::new(),
            port: 80,
            secret: "".to_owned(),
        }
    }
}

} // verus!
