use izin::commands::token::{request, verify};
use izin::commands::user::{create_with_cost, delete, list};
use izin::store::{open_temporary, store_get, Store};
use izin::record::decode_user;
use izin::{Login, Token};

// small hashing costs so that a test registers in milliseconds; the fixed
// deployment costs are deliberately expensive
const MEM: u32 = 64;
const TIME: u32 = 1;

fn login(name: &str, pass: &str) -> Login {
    Login { username: name.to_string(), password: pass.to_string() }
}

fn store() -> Store {
    open_temporary().unwrap()
}

#[test]
fn register_twice_second_fails_record_untouched() {
    let mut users = store();
    assert_eq!(create_with_cost(&mut users, &login("ann", "pw1"), 100, MEM, TIME).unwrap(), true);
    let before = store_get(&users, "ann").unwrap().unwrap();
    assert_eq!(create_with_cost(&mut users, &login("ann", "pw2"), 200, MEM, TIME).unwrap(), false);
    let after = store_get(&users, "ann").unwrap().unwrap();
    assert_eq!(before, after);
    let rec = decode_user(&after).unwrap();
    assert_eq!(rec.updated, 100);
}

#[test]
fn issue_then_verify_is_valid() {
    let mut users = store();
    create_with_cost(&mut users, &login("bob", "hunter2"), 1000, MEM, TIME).unwrap();
    let tok = request(&users, "srv", &login("bob", "hunter2"), 1000).unwrap().unwrap();
    assert_eq!(verify(&users, "srv", &tok, 1000).unwrap(), true);
    assert_eq!(verify(&users, "srv", &tok, 1000 + 3600).unwrap(), true);
}

#[test]
fn wrong_password_and_unknown_user_both_refused() {
    let mut users = store();
    create_with_cost(&mut users, &login("bob", "hunter2"), 1000, MEM, TIME).unwrap();
    assert!(request(&users, "srv", &login("bob", "wrong"), 1001).unwrap().is_none());
    assert!(request(&users, "srv", &login("carol", "hunter2"), 1001).unwrap().is_none());
}

#[test]
fn expired_token_is_invalid() {
    let mut users = store();
    create_with_cost(&mut users, &login("bob", "pw"), 1000, MEM, TIME).unwrap();
    let tok = request(&users, "srv", &login("bob", "pw"), 1000).unwrap().unwrap();
    assert_eq!(verify(&users, "srv", &tok, 1000 + 3601).unwrap(), false);
}

#[test]
fn credential_change_revokes_earlier_tokens() {
    let mut users = store();
    create_with_cost(&mut users, &login("dan", "old"), 1000, MEM, TIME).unwrap();
    let tok = request(&users, "srv", &login("dan", "old"), 1500).unwrap().unwrap();
    assert_eq!(verify(&users, "srv", &tok, 1600).unwrap(), true);
    // simulated rotation: delete and re-register at a later time
    assert_eq!(delete(&mut users, "dan").unwrap(), true);
    create_with_cost(&mut users, &login("dan", "new"), 2000, MEM, TIME).unwrap();
    assert_eq!(verify(&users, "srv", &tok, 2100).unwrap(), false);
    let tok2 = request(&users, "srv", &login("dan", "new"), 2500).unwrap().unwrap();
    assert_eq!(verify(&users, "srv", &tok2, 2600).unwrap(), true);
}

#[test]
fn deleted_subject_is_invalid() {
    let mut users = store();
    create_with_cost(&mut users, &login("eve", "pw"), 1000, MEM, TIME).unwrap();
    let tok = request(&users, "srv", &login("eve", "pw"), 1000).unwrap().unwrap();
    assert_eq!(delete(&mut users, "eve").unwrap(), true);
    assert_eq!(verify(&users, "srv", &tok, 1001).unwrap(), false);
    assert_eq!(delete(&mut users, "eve").unwrap(), false);
}

#[test]
fn garbage_token_is_invalid() {
    let users = store();
    let junk = Token { encoded: "not.a.token".to_string() };
    assert_eq!(verify(&users, "srv", &junk, 0).unwrap(), false);
    let empty = Token::default();
    assert_eq!(verify(&users, "srv", &empty, 0).unwrap(), false);
}

#[test]
fn token_bound_to_server_secret() {
    let mut users = store();
    create_with_cost(&mut users, &login("fay", "pw"), 1000, MEM, TIME).unwrap();
    let tok = request(&users, "srv-a", &login("fay", "pw"), 1000).unwrap().unwrap();
    assert_eq!(verify(&users, "srv-b", &tok, 1000).unwrap(), false);
}

#[test]
fn repeated_registration_creates_exactly_one_record() {
    let mut users = store();
    let mut created = 0;
    let mut refused = 0;
    for i in 0..8 {
        let pw = format!("pw{}", i);
        match create_with_cost(&mut users, &login("gil", &pw), 100 + i, MEM, TIME).unwrap() {
            true => created += 1,
            false => refused += 1,
        }
    }
    assert_eq!(created, 1);
    assert_eq!(refused, 7);
    let names = list(&users).unwrap();
    assert_eq!(names, vec!["gil".to_string()]);
}

#[test]
fn list_enumerates_each_name_once_in_key_order() {
    let mut users = store();
    assert!(list(&users).unwrap().is_empty());
    for name in ["bea", "cy", "ann", "be"] {
        create_with_cost(&mut users, &login(name, "pw"), 1, MEM, TIME).unwrap();
    }
    let names = list(&users).unwrap();
    assert_eq!(
        names,
        vec!["ann".to_string(), "be".to_string(), "bea".to_string(), "cy".to_string()]
    );
}

#[test]
fn fresh_salt_has_fixed_length() {
    let mut users = store();
    create_with_cost(&mut users, &login("hal", "pw"), 7, MEM, TIME).unwrap();
    let rec = decode_user(&store_get(&users, "hal").unwrap().unwrap()).unwrap();
    assert_eq!(rec.salt.len(), 64);
    assert_eq!(rec.updated, 7);
    assert!(rec.hash.starts_with("$argon2id$"));
}

#[test]
fn unreadable_record_is_a_hard_failure() {
    let mut users = store();
    izin::store::store_create_if_absent(&mut users, "ivy", b"not a record").unwrap();
    assert!(request(&users, "srv", &login("ivy", "pw"), 1000).is_err());
    let tok = {
        let mut other = store();
        create_with_cost(&mut other, &login("ivy", "pw"), 900, MEM, TIME).unwrap();
        request(&other, "srv", &login("ivy", "pw"), 1000).unwrap().unwrap()
    };
    assert!(verify(&users, "srv", &tok, 1000).is_err());
}
