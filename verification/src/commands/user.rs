//! Credential management: registration with a fresh salt and a fixed-cost
//! memory-hard hash, removal, and enumeration. Registration is atomic per
//! username through the store's create-if-absent primitive, and stamps the
//! record with the caller's clock reading, which later revokes every token
//! issued before it.
use vstd::prelude::*;

verus! {

use crate::{AuthError, Login, User};
use crate::hasher::{HASH_LENGTH, MEM_COST, SALT_LENGTH, TIME_COST, argon2_check, argon2id_hash,
    hash_password, random_bytes};
use crate::record::{encode_user, lemma_user_roundtrip, user_dec, user_enc};
use crate::store::{Store, keys_post, store_create_if_absent, store_flush, store_keys, store_map,
    store_remove};

/// The record bytes registration writes for this password, salt and time.
pub open spec fn fresh_record(pwd: Seq<char>, salt: Seq<u8>, now: u64, mem: u32, time: u32) -> Seq<
    u8,
> {
    user_enc(salt, argon2id_hash(pwd, salt, mem, time, HASH_LENGTH), now)
}

/// The store gained exactly one entry: under `name` now stand the bytes of
/// a record with this salt, the salted hash of `pwd`, and `now` as its
/// update time; that record reads back as written, and the hash verifies
/// against the password. Every other key is untouched.
pub open spec fn created_with_salt(
    m0: Map<Seq<char>, Seq<u8>>,
    m1: Map<Seq<char>, Seq<u8>>,
    name: Seq<char>,
    pwd: Seq<char>,
    now: u64,
    mem: u32,
    time: u32,
    salt: Seq<u8>,
) -> bool {
    &&& salt.len() == SALT_LENGTH
    &&& m1 == m0.insert(name, fresh_record(pwd, salt, now, mem, time))
    &&& user_dec(m1[name]) == Some((salt, argon2id_hash(pwd, salt, mem, time, HASH_LENGTH), now))
    &&& argon2_check(argon2id_hash(pwd, salt, mem, time, HASH_LENGTH), pwd) == Some(true)
}

/// What registration did to the store. `Ok(true)`: the name was free and
/// now holds a fresh record, stamped `now`, whose hash the password
/// verifies against. `Ok(false)`: the name was taken and nothing changed.
/// `Err`: the entropy source or the store failed; the store holds either
/// the old map or the new record, nothing else.
pub open spec fn create_post(
    m0: Map<Seq<char>, Seq<u8>>,
    m1: Map<Seq<char>, Seq<u8>>,
    name: Seq<char>,
    pwd: Seq<char>,
    now: u64,
    mem: u32,
    time: u32,
    r: Result<bool, AuthError>,
) -> bool {
    match r {
        Ok(created) => if created {
            &&& !m0.contains_key(name)
            &&& exists|salt: Seq<u8>|
                #[trigger] created_with_salt(m0, m1, name, pwd, now, mem, time, salt)
        } else {
            m0.contains_key(name) && m1 == m0
        },
        Err(_) => m1 == m0 || exists|salt: Seq<u8>|
            #[trigger] created_with_salt(m0, m1, name, pwd, now, mem, time, salt),
    }
}

/// Registers a credential with the given hashing costs: a fresh random
/// salt, the salted hash, and `now` as the record's update time, inserted
/// only if the username is absent.
pub fn create_with_cost(users: &mut Store, login: &Login, now: u64, mem: u32, time: u32) -> (r:
    Result<bool, AuthError>)
    requires
        login.password@.len() < 0x4000_0000,
        8 <= mem <= 0x20_0000,
        time >= 1,
    ensures
        create_post(
            store_map(old(users)),
            store_map(final(users)),
            login.username@,
            login.password@,
            now,
            mem,
            time,
            r,
        ),
{
    let ghost m0 = store_map(old(users));
    let ghost name = login.username@;
    let ghost pwd = login.password@;
    let salt = match random_bytes(SALT_LENGTH) {
        Ok(s) => s,
        Err(_) => {
            return Err(AuthError::IoFailure);
        },
    };
    let hash = hash_password(login.password.as_str(), salt.as_slice(), mem, time);
    let ghost gsalt = salt@;
    let user = User { salt, hash, updated: now };
    let enc = encode_user(&user);
    proof {
        assert(enc@ == fresh_record(pwd, gsalt, now, mem, time));
        lemma_user_roundtrip(gsalt, argon2id_hash(pwd, gsalt, mem, time, HASH_LENGTH), now);
    }
    let created = match store_create_if_absent(users, login.username.as_str(), enc.as_slice()) {
        Ok(b) => b,
        Err(_) => {
            proof {
                if store_map(users) != m0 {
                    assert(created_with_salt(m0, store_map(users), name, pwd, now, mem, time,
                        gsalt));
                }
            }
            return Err(AuthError::IoFailure);
        },
    };
    match store_flush(users) {
        Ok(_) => {},
        Err(_) => {
            proof {
                if created {
                    assert(created_with_salt(m0, store_map(users), name, pwd, now, mem, time,
                        gsalt));
                }
            }
            return Err(AuthError::IoFailure);
        },
    }
    proof {
        if created {
            assert(created_with_salt(m0, store_map(users), name, pwd, now, mem, time, gsalt));
        }
    }
    Ok(created)
}

/// Registers a credential with the fixed deployment costs.
pub fn create(users: &mut Store, login: &Login, now: u64) -> (r: Result<bool, AuthError>)
    requires
        login.password@.len() < 0x4000_0000,
    ensures
        create_post(
            store_map(old(users)),
            store_map(final(users)),
            login.username@,
            login.password@,
            now,
            MEM_COST,
            TIME_COST,
            r,
        ),
{
    create_with_cost(users, login, now, MEM_COST, TIME_COST)
}

/// What removal did to the store.
pub open spec fn delete_post(
    m0: Map<Seq<char>, Seq<u8>>,
    m1: Map<Seq<char>, Seq<u8>>,
    name: Seq<char>,
    r: Result<bool, AuthError>,
) -> bool {
    match r {
        Ok(true) => m0.contains_key(name) && m1 == m0.remove(name),
        Ok(false) => !m0.contains_key(name) && m1 == m0,
        Err(_) => m1 == m0 || m1 == m0.remove(name),
    }
}

/// Removes a credential; reports whether one was there.
pub fn delete(users: &mut Store, name: &str) -> (r: Result<bool, AuthError>)
    ensures
        delete_post(store_map(old(users)), store_map(final(users)), name@, r),
{
    let removed = match store_remove(users, name) {
        Ok(b) => b,
        Err(_) => {
            return Err(AuthError::IoFailure);
        },
    };
    match store_flush(users) {
        Ok(_) => {},
        Err(_) => {
            return Err(AuthError::IoFailure);
        },
    }
    Ok(removed)
}

/// Lists every registered username, each exactly once, in ascending
/// lexicographic order of the names' UTF-8 bytes — the store's own key
/// order.
pub fn list(users: &Store) -> (r: Result<Vec<String>, AuthError>)
    ensures
        match r {
            Ok(v) => keys_post(store_map(users), v@),
            Err(_) => true,
        },
{
    match store_keys(users) {
        Ok(v) => Ok(v),
        Err(_) => Err(AuthError::IoFailure),
    }
}

/// Registering the same username twice: when the first call created the
/// record, an error-free second call reports the name as taken and leaves
/// the store — the first record included — exactly as it was.
pub proof fn lemma_register_twice(
    m0: Map<Seq<char>, Seq<u8>>,
    m1: Map<Seq<char>, Seq<u8>>,
    m2: Map<Seq<char>, Seq<u8>>,
    name: Seq<char>,
    pwd1: Seq<char>,
    pwd2: Seq<char>,
    now1: u64,
    now2: u64,
    mem: u32,
    time: u32,
    r1: Result<bool, AuthError>,
    r2: Result<bool, AuthError>,
)
    requires
        create_post(m0, m1, name, pwd1, now1, mem, time, r1),
        r1 == Ok::<bool, AuthError>(true),
        create_post(m1, m2, name, pwd2, now2, mem, time, r2),
        !(r2 is Err),
    ensures
        r2 == Ok::<bool, AuthError>(false),
        m2 == m1,
        m1.contains_key(name),
        m2[name] == m1[name],
        exists|salt: Seq<u8>|
            {
                &&& salt.len() == SALT_LENGTH
                &&& #[trigger] user_dec(m2[name]) == Some(
                    (salt, argon2id_hash(pwd1, salt, mem, time, HASH_LENGTH), now1),
                )
            },
{
    let salt = choose|salt: Seq<u8>|
        #[trigger] created_with_salt(m0, m1, name, pwd1, now1, mem, time, salt);
    assert(m1.contains_key(name));
    assert(user_dec(m2[name]) == Some(
        (salt, argon2id_hash(pwd1, salt, mem, time, HASH_LENGTH), now1),
    ));
}

} // verus!
