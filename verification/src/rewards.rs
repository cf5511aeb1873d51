//! The reward-accrual engine: a single global index that only grows,
//! a per-user snapshot of it, and the settlement arithmetic that turns
//! the two plus a collateral balance into accrued rewards in constant
//! time per user.

use vstd::prelude::*;
use vstd::arithmetic::div_mod::{
    lemma_fundamental_div_mod, lemma_fundamental_div_mod_converse, lemma_multiply_divide_lt,
};

use cosmwasm_std::MemoryStorage;

use crate::codec::{
    dec_decimal, dec_user_rewards, enc_decimal, enc_user_rewards, lemma_decimal_round_trip,
    lemma_user_rewards_round_trip, spec_dec_decimal, spec_dec_user_rewards, spec_enc_decimal,
    spec_enc_user_rewards,
};
use crate::keys::{key_global_index, make_key_global_index, make_user_rewards_key, user_rewards_key};
use crate::kv::{kv_get, kv_set, store_map};
use crate::types::{Addr, Decimal, StateError, UserRewards, DECIMAL_FRACTIONAL};

verus! {

/// One more than the largest 64-bit value: the base of the 64-bit
/// limbs the settlement arithmetic splits a balance into.
pub const TWO_POW_64: u128 = 0x1_0000_0000_0000_0000;

/// The global index a store holds: the stored decimal, zero when none
/// was ever written (a safe default, the index being purely additive),
/// or a corruption failure when the stored bytes do not decode.
pub open spec fn spec_global_index_of(m: Map<Seq<u8>, Seq<u8>>) -> Result<Decimal, StateError> {
    if m.contains_key(key_global_index()) {
        match spec_dec_decimal(m[key_global_index()]) {
            Some(d) => Ok(d),
            None => Err(StateError::Corrupt),
        }
    } else {
        Ok(Decimal { atomics: 0 })
    }
}

/// The reward record a store holds for the borrower with raw address
/// `a`: the stored record, the all-zero default when none exists, or a
/// corruption failure when the stored bytes do not decode.
pub open spec fn spec_user_rewards_of(m: Map<Seq<u8>, Seq<u8>>, a: Seq<u8>) -> Result<
    UserRewards,
    StateError,
> {
    if m.contains_key(user_rewards_key(a)) {
        match spec_dec_user_rewards(m[user_rewards_key(a)]) {
            Some(u) => Ok(u),
            None => Err(StateError::Corrupt),
        }
    } else {
        Ok(UserRewards { user_index: Decimal { atomics: 0 }, rewards: 0 })
    }
}

/// Persists the global reward index, overwriting any prior value.
pub fn save_global_index(storage: &mut MemoryStorage, data: &Decimal) -> (r: Result<
    (),
    StateError,
>)
    ensures
        r is Ok,
        store_map(*final(storage)) == store_map(*old(storage)).insert(
            key_global_index(),
            spec_enc_decimal(*data),
        ),
        spec_global_index_of(store_map(*final(storage))) == Ok::<Decimal, StateError>(*data),
{
    let key = make_key_global_index();
    let val = enc_decimal(data);
    kv_set(storage, &key, &val);
    proof {
        lemma_decimal_round_trip(*data);
    }
    Ok(())
}

/// Reads the global reward index: zero if never written, an error if
/// the stored bytes are corrupt.
pub fn read_global_index(storage: &MemoryStorage) -> (r: Result<Decimal, StateError>)
    ensures
        r == spec_global_index_of(store_map(*storage)),
{
    let key = make_key_global_index();
    match kv_get(storage, &key) {
        Some(bytes) => match dec_decimal(&bytes) {
            Some(d) => Ok(d),
            None => Err(StateError::Corrupt),
        },
        None => Ok(Decimal::zero()),
    }
}

/// Reads a borrower's reward record: the all-zero default if none
/// exists (a borrower never settled is one that accrued nothing), an
/// error if the stored bytes are corrupt.
pub fn read_user_rewards(storage: &MemoryStorage, borrower: &Addr) -> (r: Result<
    UserRewards,
    StateError,
>)
    ensures
        r == spec_user_rewards_of(store_map(*storage), borrower@),
{
    let key = make_user_rewards_key(borrower);
    match kv_get(storage, &key) {
        Some(bytes) => match dec_user_rewards(&bytes) {
            Some(u) => Ok(u),
            None => Err(StateError::Corrupt),
        },
        None => Ok(UserRewards::zero()),
    }
}

/// Persists a borrower's reward record, overwriting any prior one.
pub fn save_user_rewards(storage: &mut MemoryStorage, borrower: &Addr, new_rewards: &UserRewards)
    -> (r: Result<(), StateError>)
    ensures
        r is Ok,
        store_map(*final(storage)) == store_map(*old(storage)).insert(
            user_rewards_key(borrower@),
            spec_enc_user_rewards(*new_rewards),
        ),
        spec_user_rewards_of(store_map(*final(storage)), borrower@) == Ok::<
            UserRewards,
            StateError,
        >(*new_rewards),
{
    let key = make_user_rewards_key(borrower);
    let val = enc_user_rewards(new_rewards);
    kv_set(storage, &key, &val);
    proof {
        lemma_user_rewards_round_trip(*new_rewards);
    }
    Ok(())
}

/// The settlement of a reward record against global index `g` with the
/// pre-change collateral balance `n`: rewards grow by
/// `(g - user_index) * n`, reduced to whole reward units rounding down,
/// and the snapshot is re-set to `g` exactly. A global index behind the
/// snapshot, or an accumulation beyond the reward unit's range, is an
/// internal invariant failure, never clamped or wrapped.
pub open spec fn spec_settle(user: UserRewards, n: u128, g: Decimal) -> Result<
    UserRewards,
    StateError,
> {
    let inc = (g.atomics - user.user_index.atomics) * n / (DECIMAL_FRACTIONAL as int);
    if g.atomics < user.user_index.atomics {
        Err(StateError::InvariantViolation)
    } else if user.rewards + inc > u128::MAX {
        Err(StateError::InvariantViolation)
    } else {
        Ok(UserRewards { user_index: g, rewards: (user.rewards + inc) as u128 })
    }
}

/// Settles a borrower's reward record against the current global index
/// `global_index`, with `balance` the borrower's collateral balance
/// read before any pending balance change is applied. The increment is
/// computed in the full decimal domain, the index difference split by
/// the scaling factor and the balance into 64-bit limbs, so settlement
/// fails only when the accumulated rewards truly leave the reward
/// unit's range, never on a wide intermediate alone.
pub fn settle_rewards(user: &UserRewards, balance: u128, global_index: Decimal) -> (r: Result<
    UserRewards,
    StateError,
>)
    ensures
        r == spec_settle(*user, balance, global_index),
{
    if global_index.atomics < user.user_index.atomics {
        return Err(StateError::InvariantViolation);
    }
    let diff = global_index.atomics - user.user_index.atomics;
    let qd = diff / DECIMAL_FRACTIONAL;
    let rd = diff % DECIMAL_FRACTIONAL;
    let n1 = balance / TWO_POW_64;
    let n0 = balance % TWO_POW_64;
    let ghost fi = DECIMAL_FRACTIONAL as int;
    let ghost ti = TWO_POW_64 as int;
    proof {
        assert((rd as int) * (n1 as int) <= (fi - 1) * (ti - 1)) by (nonlinear_arith)
            requires
                0 <= rd as int <= fi - 1,
                0 <= n1 as int <= ti - 1,
        ;
        assert((rd as int) * (n0 as int) <= (fi - 1) * (ti - 1)) by (nonlinear_arith)
            requires
                0 <= rd as int <= fi - 1,
                0 <= n0 as int <= ti - 1,
        ;
    }
    let a = rd * n1;
    let b = rd * n0;
    let c = (a % DECIMAL_FRACTIONAL) * TWO_POW_64 + b;
    let ghost di = diff as int;
    let ghost ni = balance as int;
    let ghost ai = a as int;
    let ghost gb = b as int;
    let ghost ci = c as int;
    let ghost x = (ai / fi) * ti + ci / fi;
    proof {
        lemma_fundamental_div_mod(di, fi);
        lemma_fundamental_div_mod(ni, ti);
        lemma_fundamental_div_mod(ai, fi);
        lemma_fundamental_div_mod(ci, fi);
        assert(ai < fi * ti);
        lemma_multiply_divide_lt(ai, fi, ti);
        assert(di * ni == fi * ((qd as int) * ni) + (rd as int) * ni) by (nonlinear_arith)
            requires
                di == fi * (qd as int) + (rd as int),
        ;
        assert((rd as int) * ni == ai * ti + gb) by (nonlinear_arith)
            requires
                ni == ti * (n1 as int) + (n0 as int),
                ai == (rd as int) * (n1 as int),
                gb == (rd as int) * (n0 as int),
        ;
        assert((rd as int) * ni == fi * ((ai / fi) * ti) + ci) by (nonlinear_arith)
            requires
                (rd as int) * ni == ai * ti + gb,
                ai == fi * (ai / fi) + ai % fi,
                ci == (ai % fi) * ti + gb,
        ;
        assert((rd as int) * ni == fi * x + ci % fi) by (nonlinear_arith)
            requires
                (rd as int) * ni == fi * ((ai / fi) * ti) + ci,
                ci == fi * (ci / fi) + ci % fi,
                x == (ai / fi) * ti + ci / fi,
        ;
        lemma_fundamental_div_mod_converse((rd as int) * ni, fi, x, ci % fi);
        if ni == 0 {
            assert((rd as int) * ni == 0);
        } else {
            assert((rd as int) * ni < fi * ni) by (nonlinear_arith)
                requires
                    (rd as int) < fi,
                    ni >= 1,
            ;
            lemma_multiply_divide_lt((rd as int) * ni, fi, ni);
        }
        assert(0 <= x <= u128::MAX);
        assert(di * ni == fi * ((qd as int) * ni + x) + ci % fi) by (nonlinear_arith)
            requires
                di * ni == fi * ((qd as int) * ni) + (rd as int) * ni,
                (rd as int) * ni == fi * x + ci % fi,
        ;
        lemma_fundamental_div_mod_converse(di * ni, fi, (qd as int) * ni + x, ci % fi);
        assert(di * ni / fi == (qd as int) * ni + x);
    }
    let part2 = (a / DECIMAL_FRACTIONAL) * TWO_POW_64 + c / DECIMAL_FRACTIONAL;
    let qdn = match qd.checked_mul(balance) {
        Some(p) => p,
        None => {
            proof {
                assert(user.rewards + di * ni / fi > u128::MAX);
            }
            return Err(StateError::InvariantViolation);
        },
    };
    let inc = match qdn.checked_add(part2) {
        Some(i) => i,
        None => {
            proof {
                assert(user.rewards + di * ni / fi > u128::MAX);
            }
            return Err(StateError::InvariantViolation);
        },
    };
    let total = match user.rewards.checked_add(inc) {
        Some(t) => t,
        None => {
            return Err(StateError::InvariantViolation);
        },
    };
    Ok(UserRewards { user_index: global_index, rewards: total })
}

/// The global index never decreases under the accrual engine's normal
/// operation: saving a value at or above the one the store holds moves
/// the stored index weakly upward.
pub proof fn lemma_global_index_monotonic(m: Map<Seq<u8>, Seq<u8>>, d: Decimal, g: Decimal)
    requires
        spec_global_index_of(m) == Ok::<Decimal, StateError>(d),
        d.atomics <= g.atomics,
    ensures
        spec_global_index_of(m.insert(key_global_index(), spec_enc_decimal(g))) == Ok::<
            Decimal,
            StateError,
        >(g),
{
    lemma_decimal_round_trip(g);
}

/// A borrower whose reward record was never written reads as the
/// all-zero record.
pub proof fn lemma_unwritten_user_rewards(m: Map<Seq<u8>, Seq<u8>>, a: Seq<u8>)
    requires
        !m.contains_key(user_rewards_key(a)),
    ensures
        spec_user_rewards_of(m, a) == Ok::<UserRewards, StateError>(
            UserRewards { user_index: Decimal { atomics: 0 }, rewards: 0 },
        ),
{
}

/// Settling against an unchanged global index changes nothing: the
/// snapshot already equals `g`, so the pending increment is zero.
pub proof fn lemma_settle_again_is_noop(user: UserRewards, n: u128, g: Decimal)
    requires
        user.user_index == g,
    ensures
        spec_settle(user, n, g) == Ok::<UserRewards, StateError>(user),
{
    assert((g.atomics - user.user_index.atomics) * n == 0);
}

/// A write into one borrower's reward slot touches neither another
/// borrower's reward record nor the global index.
pub proof fn lemma_user_rewards_save_frames(
    m: Map<Seq<u8>, Seq<u8>>,
    a: Seq<u8>,
    b: Seq<u8>,
    v: Seq<u8>,
)
    requires
        a != b,
    ensures
        spec_user_rewards_of(m.insert(user_rewards_key(a), v), b) == spec_user_rewards_of(m, b),
        spec_global_index_of(m.insert(user_rewards_key(a), v)) == spec_global_index_of(m),
{
    crate::keys::lemma_bucket_keys_injective(a, b);
    crate::keys::lemma_families_disjoint(a, a);
}

/// A record saved is the record read back.
pub proof fn lemma_user_rewards_save_read(m: Map<Seq<u8>, Seq<u8>>, a: Seq<u8>, u: UserRewards)
    ensures
        spec_user_rewards_of(m.insert(user_rewards_key(a), spec_enc_user_rewards(u)), a) == Ok::<
            UserRewards,
            StateError,
        >(u),
{
    lemma_user_rewards_round_trip(u);
}

} // verus!
