//! The credential store: a tree of a persistent key-value database, held in
//! a private field and described to the verifier as a map from usernames to
//! record bytes. Every operation the engine needs goes through a trusted
//! item whose contract states what the database's source shows: an atomic
//! create-if-absent, a point lookup, a removal, an enumeration of the keys,
//! and a durability flush.
use vstd::prelude::*;

verus! {

#[verifier::external_type_specification]
#[verifier::external_body]
pub struct ExSledError(sled::Error);

/// A handle on one tree of the database.
#[verifier::external_body]
pub struct Store {
    tree: sled::Tree,
}

/// What the store holds: the record bytes under each username. A username
/// stands for its UTF-8 bytes as the tree's key; a foreign byte key that is
/// not valid UTF-8 is outside this map, and no operation here writes one.
pub uninterp spec fn store_map(s: &Store) -> Map<Seq<char>, Seq<u8>>;

/// Relies on sled::Config (`temporary`, `open`) and sled::Db::open_tree: a
/// temporary database lives in a fresh directory of its own and so starts
/// empty, and is removed when dropped.
#[verifier::external_body]
pub fn open_temporary() -> (r: Result<Store, sled::Error>)
    ensures
        match r {
            Ok(s) => store_map(&s) == Map::<Seq<char>, Seq<u8>>::empty(),
            Err(_) => true,
        },
{
    let db = sled::Config::new().temporary(true).open()?;
    let tree = db.open_tree(b"users")?;
    Ok(Store { tree })
}

/// Relies on sled::open and sled::Db::open_tree: opens the database at this
/// path, with whatever contents it already holds.
#[verifier::external_body]
pub fn open_at(path: &str) -> (r: Result<Store, sled::Error>)
{
    let db = sled::open(path)?;
    let tree = db.open_tree(b"users")?;
    Ok(Store { tree })
}

/// Relies on sled::Tree::get: a point lookup of the value stored under the
/// key.
#[verifier::external_body]
pub fn store_get(s: &Store, name: &str) -> (r: Result<Option<Vec<u8>>, sled::Error>)
    ensures
        match r {
            Ok(Some(v)) => store_map(s).contains_key(name@) && v@ == store_map(s)[name@],
            Ok(None) => !store_map(s).contains_key(name@),
            Err(_) => true,
        },
{
    match s.tree.get(name.as_bytes()) {
        Ok(Some(v)) => Ok(Some(v.to_vec())),
        Ok(None) => Ok(None),
        Err(e) => Err(e),
    }
}

/// Relies on sled::Tree::compare_and_swap with no expected old value: the
/// insert happens only if the key is absent, atomically with respect to
/// concurrent callers; on an error the operation may or may not have
/// applied.
#[verifier::external_body]
pub fn store_create_if_absent(s: &mut Store, name: &str, value: &[u8]) -> (r: Result<
    bool,
    sled::Error,
>)
    ensures
        match r {
            Ok(true) => !store_map(old(s)).contains_key(name@) && store_map(final(s))
                == store_map(old(s)).insert(name@, value@),
            Ok(false) => store_map(old(s)).contains_key(name@) && store_map(final(s))
                == store_map(old(s)),
            Err(_) => store_map(final(s)) == store_map(old(s)) || store_map(final(s))
                == store_map(old(s)).insert(name@, value@),
        },
{
    match s.tree.compare_and_swap(name.as_bytes(), None as Option<&[u8]>, Some(value)) {
        Ok(Ok(())) => Ok(true),
        Ok(Err(_)) => Ok(false),
        Err(e) => Err(e),
    }
}

/// Relies on sled::Tree::remove: removes the key if present and returns
/// what was there; on an error the operation may or may not have applied.
#[verifier::external_body]
pub fn store_remove(s: &mut Store, name: &str) -> (r: Result<bool, sled::Error>)
    ensures
        match r {
            Ok(true) => store_map(old(s)).contains_key(name@) && store_map(final(s))
                == store_map(old(s)).remove(name@),
            Ok(false) => !store_map(old(s)).contains_key(name@) && store_map(final(s))
                == store_map(old(s)),
            Err(_) => store_map(final(s)) == store_map(old(s)) || store_map(final(s))
                == store_map(old(s)).remove(name@),
        },
{
    match s.tree.remove(name.as_bytes()) {
        Ok(Some(_)) => Ok(true),
        Ok(None) => Ok(false),
        Err(e) => Err(e),
    }
}

/// Relies on sled::Tree::flush: blocks until earlier writes are durable;
/// the contents do not change.
#[verifier::external_body]
pub fn store_flush(s: &mut Store) -> (r: Result<(), sled::Error>)
    ensures
        store_map(final(s)) == store_map(old(s)),
{
    match s.tree.flush() {
        Ok(_) => Ok(()),
        Err(e) => Err(e),
    }
}

/// Strict lexicographic order on byte sequences: the empty sequence first,
/// then by the first differing byte.
pub open spec fn bytes_lt(a: Seq<u8>, b: Seq<u8>) -> bool
    decreases a.len(),
{
    if b.len() == 0 {
        false
    } else if a.len() == 0 {
        true
    } else if a[0] < b[0] {
        true
    } else if a[0] > b[0] {
        false
    } else {
        bytes_lt(a.drop_first(), b.drop_first())
    }
}

/// The sequence `v` enumerates exactly the keys of `m`, each once, in
/// ascending lexicographic order of their UTF-8 bytes.
pub open spec fn keys_post(m: Map<Seq<char>, Seq<u8>>, v: Seq<String>) -> bool {
    &&& forall|i: int| 0 <= i < v.len() ==> m.contains_key(#[trigger] v[i]@)
    &&& forall|k: Seq<char>|
        m.contains_key(k) ==> exists|i: int| 0 <= i < v.len() && #[trigger] v[i]@ == k
    &&& forall|i: int, j: int| 0 <= i < j < v.len() ==> v[i]@ != v[j]@
    &&& forall|i: int, j: int|
        0 <= i < j < v.len() ==> bytes_lt(
            vstd::utf8::encode_utf8(#[trigger] v[i]@),
            vstd::utf8::encode_utf8(#[trigger] v[j]@),
        )
}

/// Relies on sled::Tree::iter: enumerates each key exactly once, in
/// ascending byte order. A foreign key that is not valid UTF-8 is outside
/// the model and is skipped.
#[verifier::external_body]
pub fn store_keys(s: &Store) -> (r: Result<Vec<String>, sled::Error>)
    ensures
        match r {
            Ok(v) => keys_post(store_map(s), v@),
            Err(_) => true,
        },
{
    let mut out = Vec::new();
    for item in s.tree.iter() {
        let (k, _) = item?;
        if let Ok(name) = String::from_utf8(k.to_vec()) {
            out.push(name);
        }
    }
    Ok(out)
}

} // verus!
