//! The ordered byte-keyed key-value store that holds all records. The
//! store itself is `cosmwasm_std`'s `MemoryStorage`, a map from byte
//! keys to byte values ordered bytewise; this module declares it and
//! gives each operation that the ledger uses a contract over the
//! store's abstract contents.

use vstd::prelude::*;

use cosmwasm_std::{MemoryStorage, Order, Storage};

use crate::lex::{lex_le, lex_lt};

verus! {

#[verifier::external_type_specification]
#[verifier::external_body]
pub struct ExMemoryStorage(MemoryStorage);

/// The abstract contents of the store: which value each key holds.
pub uninterp spec fn store_map(s: MemoryStorage) -> Map<Seq<u8>, Seq<u8>>;

/// Relies on `MemoryStorage::get` (via the `Storage` trait): looks the
/// key up in the underlying ordered map and returns a copy of its
/// value, or nothing when the key is absent.
#[verifier::external_body]
pub fn kv_get(s: &MemoryStorage, key: &Vec<u8>) -> (r: Option<Vec<u8>>)
    ensures
        match r {
            Some(v) => store_map(*s).contains_key(key@) && v@ == store_map(*s)[key@],
            None => !store_map(*s).contains_key(key@),
        },
{
    s.get(key.as_slice())
}

/// Relies on `MemoryStorage::set`: inserts the value under the key,
/// overwriting any prior value. The store refuses an empty value (it
/// panics on one), so the contract demands a non-empty value.
#[verifier::external_body]
pub fn kv_set(s: &mut MemoryStorage, key: &Vec<u8>, value: &Vec<u8>)
    requires
        value@.len() > 0,
    ensures
        store_map(*final(s)) == store_map(*old(s)).insert(key@, value@),
{
    s.set(key.as_slice(), value.as_slice());
}

/// Relies on `MemoryStorage::remove`: deletes the key from the
/// underlying map; doing nothing when the key is absent.
#[verifier::external_body]
pub fn kv_remove(s: &mut MemoryStorage, key: &Vec<u8>)
    ensures
        store_map(*final(s)) == store_map(*old(s)).remove(key@),
{
    s.remove(key.as_slice());
}

/// Relies on `MemoryStorage::range` with ascending order: yields every
/// pair whose key lies in the half-open interval from `start`
/// (inclusive) to `end` (exclusive), in ascending bytewise key order.
/// An inverted interval yields nothing.
#[verifier::external_body]
pub fn kv_range(s: &MemoryStorage, start: &Vec<u8>, end: &Vec<u8>) -> (r: Vec<(Vec<u8>, Vec<u8>)>)
    ensures
        forall|i: int|
            0 <= i < r@.len() ==> {
                &&& store_map(*s).contains_key((#[trigger] r@[i]).0@)
                &&& r@[i].1@ == store_map(*s)[r@[i].0@]
                &&& lex_le(start@, r@[i].0@)
                &&& lex_lt(r@[i].0@, end@)
            },
        forall|i: int, j: int| 0 <= i < j < r@.len() ==> lex_lt(r@[i].0@, r@[j].0@),
        forall|k: Seq<u8>|
            #[trigger] store_map(*s).contains_key(k) && lex_le(start@, k) && lex_lt(k, end@)
                ==> exists|i: int| 0 <= i < r@.len() && r@[i].0@ == k,
{
    s.range(Some(start.as_slice()), Some(end.as_slice()), Order::Ascending).collect()
}

} // verus!
