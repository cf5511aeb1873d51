//! Namespace layout: each record family occupies a disjoint byte-string
//! region of the flat key space. The two singletons use a fixed literal
//! key; the two buckets prepend a fixed prefix to the borrower's
//! canonical raw address bytes.

use vstd::prelude::*;

use crate::types::Addr;

verus! {

/// The singleton key of the configuration record: `"config"`.
pub open spec fn key_config() -> Seq<u8> {
    seq![99u8, 111u8, 110u8, 102u8, 105u8, 103u8]
}

/// The singleton key of the global reward index: `"global_index"`.
pub open spec fn key_global_index() -> Seq<u8> {
    seq![103u8, 108u8, 111u8, 98u8, 97u8, 108u8, 95u8, 105u8, 110u8, 100u8, 101u8, 120u8]
}

/// The prefix of the borrower ledger bucket: `"borrower"`.
pub open spec fn prefix_borrower() -> Seq<u8> {
    seq![98u8, 111u8, 114u8, 114u8, 111u8, 119u8, 101u8, 114u8]
}

/// The least key strictly above every borrower-bucket key: the bucket
/// prefix with its last byte incremented.
pub open spec fn prefix_borrower_end() -> Seq<u8> {
    seq![98u8, 111u8, 114u8, 114u8, 111u8, 119u8, 101u8, 115u8]
}

/// The prefix of the user-rewards bucket: `"user_reward"`.
pub open spec fn prefix_user_rewards() -> Seq<u8> {
    seq![117u8, 115u8, 101u8, 114u8, 95u8, 114u8, 101u8, 119u8, 97u8, 114u8, 100u8]
}

/// The ledger-bucket key of the borrower with raw address `a`.
pub open spec fn borrower_key(a: Seq<u8>) -> Seq<u8> {
    prefix_borrower() + a
}

/// The rewards-bucket key of the borrower with raw address `a`.
pub open spec fn user_rewards_key(a: Seq<u8>) -> Seq<u8> {
    prefix_user_rewards() + a
}

/// No two record families share a key: the prefixes already differ in
/// their first byte, and neither singleton key starts like a bucket.
pub proof fn lemma_families_disjoint(a: Seq<u8>, b: Seq<u8>)
    ensures
        borrower_key(a) != key_config(),
        borrower_key(a) != key_global_index(),
        borrower_key(a) != user_rewards_key(b),
        user_rewards_key(b) != key_config(),
        user_rewards_key(b) != key_global_index(),
        key_config() != key_global_index(),
{
    assert(borrower_key(a)[0] == 98u8);
    assert(user_rewards_key(b)[0] == 117u8);
}

/// Two borrowers never share a ledger key, nor a rewards key.
pub proof fn lemma_bucket_keys_injective(a: Seq<u8>, b: Seq<u8>)
    requires
        a != b,
    ensures
        borrower_key(a) != borrower_key(b),
        user_rewards_key(a) != user_rewards_key(b),
{
    if borrower_key(a) == borrower_key(b) {
        assert(borrower_key(a).skip(8) =~= a);
        assert(borrower_key(b).skip(8) =~= b);
    }
    if user_rewards_key(a) == user_rewards_key(b) {
        assert(user_rewards_key(a).skip(11) =~= a);
        assert(user_rewards_key(b).skip(11) =~= b);
    }
}

pub fn make_key_config() -> (r: Vec<u8>)
    ensures
        r@ == key_config(),
{
    let mut v: Vec<u8> = Vec::new();
    v.push(99u8);
    v.push(111u8);
    v.push(110u8);
    v.push(102u8);
    v.push(105u8);
    v.push(103u8);
    proof {
        assert(v@ =~= key_config());
    }
    v
}

pub fn make_key_global_index() -> (r: Vec<u8>)
    ensures
        r@ == key_global_index(),
{
    let mut v: Vec<u8> = Vec::new();
    v.push(103u8);
    v.push(108u8);
    v.push(111u8);
    v.push(98u8);
    v.push(97u8);
    v.push(108u8);
    v.push(95u8);
    v.push(105u8);
    v.push(110u8);
    v.push(100u8);
    v.push(101u8);
    v.push(120u8);
    proof {
        assert(v@ =~= key_global_index());
    }
    v
}

pub fn make_prefix_borrower() -> (r: Vec<u8>)
    ensures
        r@ == prefix_borrower(),
{
    let mut v: Vec<u8> = Vec::new();
    v.push(98u8);
    v.push(111u8);
    v.push(114u8);
    v.push(114u8);
    v.push(111u8);
    v.push(119u8);
    v.push(101u8);
    v.push(114u8);
    proof {
        assert(v@ =~= prefix_borrower());
    }
    v
}

pub fn make_prefix_borrower_end() -> (r: Vec<u8>)
    ensures
        r@ == prefix_borrower_end(),
{
    let mut v: Vec<u8> = Vec::new();
    v.push(98u8);
    v.push(111u8);
    v.push(114u8);
    v.push(114u8);
    v.push(111u8);
    v.push(119u8);
    v.push(101u8);
    v.push(115u8);
    proof {
        assert(v@ =~= prefix_borrower_end());
    }
    v
}

pub fn make_borrower_key(a: &Addr) -> (r: Vec<u8>)
    ensures
        r@ == borrower_key(a@),
{
    let mut v = make_prefix_borrower();
    let mut i: usize = 0;
    while i < a.bytes.len()
        invariant
            i <= a.bytes.len(),
            v@ == prefix_borrower() + a@.take(i as int),
        decreases a.bytes.len() - i,
    {
        let b = a.bytes[i];
        proof {
            assert((prefix_borrower() + a@.take(i as int)).push(b) =~= prefix_borrower()
                + a@.take(i + 1));
        }
        v.push(b);
        i = i + 1;
    }
    proof {
        assert(a@.take(a@.len() as int) =~= a@);
    }
    v
}

pub fn make_user_rewards_key(a: &Addr) -> (r: Vec<u8>)
    ensures
        r@ == user_rewards_key(a@),
{
    let mut v: Vec<u8> = Vec::new();
    v.push(117u8);
    v.push(115u8);
    v.push(101u8);
    v.push(114u8);
    v.push(95u8);
    v.push(114u8);
    v.push(101u8);
    v.push(119u8);
    v.push(97u8);
    v.push(114u8);
    v.push(100u8);
    proof {
        assert(v@ =~= prefix_user_rewards());
    }
    let mut i: usize = 0;
    while i < a.bytes.len()
        invariant
            i <= a.bytes.len(),
            v@ == prefix_user_rewards() + a@.take(i as int),
        decreases a.bytes.len() - i,
    {
        let b = a.bytes[i];
        proof {
            assert((prefix_user_rewards() + a@.take(i as int)).push(b) =~= prefix_user_rewards()
                + a@.take(i + 1));
        }
        v.push(b);
        i = i + 1;
    }
    proof {
        assert(a@.take(a@.len() as int) =~= a@);
    }
    v
}

} // verus!
