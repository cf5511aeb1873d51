//! Ledger accessors for the configuration and the per-borrower
//! collateral records, and the cursor-based paginated enumeration of
//! all borrowers.

use vstd::prelude::*;

use cosmwasm_std::MemoryStorage;

use crate::codec::{
    append_bytes_to, dec_borrower_info, dec_config, enc_borrower_info, enc_config,
    lemma_borrower_info_round_trip, lemma_config_round_trip, slice_range,
    spec_dec_borrower_info, spec_dec_config, spec_enc_borrower_info, spec_enc_config,
};
use crate::keys::{
    borrower_key, key_config, make_borrower_key, make_key_config, make_prefix_borrower,
    make_prefix_borrower_end, prefix_borrower, prefix_borrower_end,
};
use crate::kv::{kv_get, kv_range, kv_remove, kv_set, store_map};
use crate::lex::{
    lemma_between_has_prefix, lemma_lex_concat, lemma_lex_concat_le, lemma_lex_irrefl,
    lemma_lex_prefix_lt, lemma_lex_trans, lemma_prefixed_below_succ, lemma_sentinel_after,
    lemma_sentinel_successor, lex_le, lex_lt,
};
use crate::types::{
    Addr, BorrowerInfo, BorrowerResponse, Config, ConfigV, StateError, ADDR_LENGTH,
};

verus! {

/// The configuration a store holds: the decoded record, an absence
/// failure when it was never initialised, or a corruption failure when
/// the stored bytes do not decode. The configuration has no safe
/// default, so nothing is ever defaulted here.
pub open spec fn spec_read_config(m: Map<Seq<u8>, Seq<u8>>) -> Result<ConfigV, StateError> {
    if !m.contains_key(key_config()) {
        Err(StateError::NotFound)
    } else {
        match spec_dec_config(m[key_config()]) {
            Some(c) => Ok(c),
            None => Err(StateError::Corrupt),
        }
    }
}

/// Persists the configuration, overwriting any prior value.
pub fn store_config(storage: &mut MemoryStorage, data: &Config) -> (r: Result<(), StateError>)
    requires
        data.wf(),
    ensures
        r is Ok,
        store_map(*final(storage)) == store_map(*old(storage)).insert(
            key_config(),
            spec_enc_config(data@),
        ),
        spec_read_config(store_map(*final(storage))) == Ok::<ConfigV, StateError>(data@),
{
    let key = make_key_config();
    let val = enc_config(data);
    kv_set(storage, &key, &val);
    proof {
        lemma_config_round_trip(data@);
    }
    Ok(())
}

/// Reads the configuration; absence or corruption is fatal to the
/// calling operation, never defaulted.
pub fn read_config(storage: &MemoryStorage) -> (r: Result<Config, StateError>)
    ensures
        match r {
            Ok(c) => spec_read_config(store_map(*storage)) == Ok::<ConfigV, StateError>(c@),
            Err(e) => spec_read_config(store_map(*storage)) == Err::<ConfigV, StateError>(e),
        },
{
    let key = make_key_config();
    match kv_get(storage, &key) {
        Some(bytes) => match dec_config(&bytes) {
            Some(c) => Ok(c),
            None => Err(StateError::Corrupt),
        },
        None => Err(StateError::NotFound),
    }
}

/// The ledger entry a store holds for the borrower with raw address
/// `a`: the stored record, the all-zero default when none exists (a
/// borrower who never deposited is one with zero collateral), or a
/// corruption failure when the stored bytes do not decode.
pub open spec fn spec_borrower_info_of(m: Map<Seq<u8>, Seq<u8>>, a: Seq<u8>) -> Result<
    BorrowerInfo,
    StateError,
> {
    if m.contains_key(borrower_key(a)) {
        match spec_dec_borrower_info(m[borrower_key(a)]) {
            Some(bi) => Ok(bi),
            None => Err(StateError::Corrupt),
        }
    } else {
        Ok(BorrowerInfo { balance: 0, spendable: 0 })
    }
}

/// Upserts the ledger entry keyed by the borrower's raw address. The
/// `spendable <= balance` invariant is the caller's obligation, stated
/// here as the precondition.
pub fn store_borrower_info(
    storage: &mut MemoryStorage,
    borrower: &Addr,
    borrower_info: &BorrowerInfo,
) -> (r: Result<(), StateError>)
    requires
        borrower_info.wf(),
    ensures
        r is Ok,
        store_map(*final(storage)) == store_map(*old(storage)).insert(
            borrower_key(borrower@),
            spec_enc_borrower_info(*borrower_info),
        ),
        spec_borrower_info_of(store_map(*final(storage)), borrower@) == Ok::<
            BorrowerInfo,
            StateError,
        >(*borrower_info),
{
    let key = make_borrower_key(borrower);
    let val = enc_borrower_info(borrower_info);
    kv_set(storage, &key, &val);
    proof {
        lemma_borrower_info_round_trip(*borrower_info);
    }
    Ok(())
}

/// Deletes the ledger entry keyed by the borrower's raw address; a
/// no-op, not an error, if no entry exists.
pub fn remove_borrower_info(storage: &mut MemoryStorage, borrower: &Addr)
    ensures
        store_map(*final(storage)) == store_map(*old(storage)).remove(borrower_key(borrower@)),
{
    let key = make_borrower_key(borrower);
    kv_remove(storage, &key);
}

/// Reads the ledger entry keyed by the borrower's raw address: the
/// all-zero default if none exists, an error if the stored bytes are
/// corrupt.
pub fn read_borrower_info(storage: &MemoryStorage, borrower: &Addr) -> (r: Result<
    BorrowerInfo,
    StateError,
>)
    ensures
        r == spec_borrower_info_of(store_map(*storage), borrower@),
{
    let key = make_borrower_key(borrower);
    match kv_get(storage, &key) {
        Some(bytes) => match dec_borrower_info(&bytes) {
            Some(bi) => Ok(bi),
            None => Err(StateError::Corrupt),
        },
        None => Ok(BorrowerInfo::zero()),
    }
}

/// Hard ceiling on the page size of a borrower enumeration.
pub const MAX_LIMIT: u32 = 30;

/// Page size used when the caller names none.
pub const DEFAULT_LIMIT: u32 = 10;

/// The page size actually used: the caller's wish, or the default,
/// clamped into `[1, MAX_LIMIT]`.
pub open spec fn clamped_limit(limit: Option<u32>) -> int {
    let l = match limit {
        Some(v) => v as int,
        None => DEFAULT_LIMIT as int,
    };
    if l > MAX_LIMIT as int {
        MAX_LIMIT as int
    } else if l < 1 {
        1
    } else {
        l
    }
}

pub open spec fn opt_addr_view(a: Option<Addr>) -> Option<Seq<u8>> {
    match a {
        Some(x) => Some(x@),
        None => None,
    }
}

/// Whether `k` lies in the borrower-ledger bucket.
pub open spec fn is_borrower_bucket_key(k: Seq<u8>) -> bool {
    k.len() >= 8 && k.subrange(0, 8) == prefix_borrower()
}

/// The raw address a borrower-bucket key carries.
pub open spec fn bucket_addr(k: Seq<u8>) -> Seq<u8> {
    k.skip(8)
}

/// Every borrower-bucket entry is intact: its key carries an address
/// of the fixed length and its value decodes back into a ledger entry.
pub open spec fn borrower_bucket_wf(m: Map<Seq<u8>, Seq<u8>>) -> bool {
    forall|k: Seq<u8>|
        #[trigger] m.contains_key(k) && is_borrower_bucket_key(k) ==> k.len() == 8 + ADDR_LENGTH
            && spec_dec_borrower_info(m[k]) is Some
}

/// What a returned enumeration page says of the store `m`: it is
/// bounded by the clamped limit; every entry is a stored ledger record
/// lying strictly after the cursor; entries ascend in raw-address byte
/// order; and every stored borrower after the cursor either appears or
/// lies beyond a full page.
pub open spec fn page_valid(
    m: Map<Seq<u8>, Seq<u8>>,
    start_after: Option<Seq<u8>>,
    lim: int,
    out: Seq<BorrowerResponse>,
) -> bool {
    &&& out.len() <= lim
    &&& forall|i: int|
        0 <= i < out.len() ==> {
            let k = borrower_key((#[trigger] out[i]).borrower@);
            &&& m.contains_key(k)
            &&& spec_dec_borrower_info(m[k]) == Some(
                BorrowerInfo { balance: out[i].balance, spendable: out[i].spendable },
            )
            &&& match start_after {
                Some(a) => lex_lt(a, out[i].borrower@),
                None => true,
            }
        }
    &&& forall|i: int, j: int| 0 <= i < j < out.len() ==> lex_lt(out[i].borrower@, out[j].borrower@)
    &&& forall|k: Seq<u8>|
        {
            &&& #[trigger] m.contains_key(k)
            &&& is_borrower_bucket_key(k)
            &&& bucket_addr(k).len() == ADDR_LENGTH
            &&& match start_after {
                Some(a) => lex_lt(a, bucket_addr(k)),
                None => true,
            }
        } ==> (exists|i: int| 0 <= i < out.len() && (#[trigger] out[i]).borrower@ == bucket_addr(k))
            || (out.len() == lim && forall|i: int|
                0 <= i < out.len() ==> lex_lt((#[trigger] out[i]).borrower@, bucket_addr(k)))
}

/// The first key of an exclusive-start scan within a bucket: the
/// cursor address with a single sentinel byte appended. Valid because
/// all keys in the bucket are fixed-length addresses with nothing
/// following, so the appended byte yields the immediate successor key.
pub fn calc_range_start(start_after: Option<Addr>) -> (r: Option<Vec<u8>>)
    ensures
        match start_after {
            Some(a) => r matches Some(v) && v@ == a@.push(1u8),
            None => r is None,
        },
{
    match start_after {
        Some(a) => {
            let mut v = a.bytes;
            v.push(1u8);
            Some(v)
        },
        None => None,
    }
}

/// Every key a bucket scan can yield carries the bucket prefix.
proof fn lemma_scan_key_prefix(start: Seq<u8>, k: Seq<u8>)
    requires
        lex_le(prefix_borrower(), start),
        lex_le(start, k),
        lex_lt(k, prefix_borrower_end()),
    ensures
        is_borrower_bucket_key(k),
        k == prefix_borrower() + bucket_addr(k),
{
    if lex_lt(prefix_borrower(), start) && lex_lt(start, k) {
        lemma_lex_trans(prefix_borrower(), start, k);
    }
    assert(lex_le(prefix_borrower(), k));
    assert(prefix_borrower_end() =~= prefix_borrower().update(7, 115u8));
    lemma_between_has_prefix(prefix_borrower(), prefix_borrower_end(), k);
    assert(k =~= prefix_borrower() + bucket_addr(k));
}

/// Enumerates borrower ledger entries in ascending raw-address byte
/// order, starting strictly after `start_after` when it is given, with
/// at most `clamped_limit(limit)` entries. A stored value that fails
/// to decode aborts the whole page: a corrupt entry points at a
/// storage-integrity problem, and is never skipped.
#[verifier::loop_isolation(false)]
pub fn read_borrowers(
    storage: &MemoryStorage,
    start_after: Option<Addr>,
    limit: Option<u32>,
) -> (r: Result<Vec<BorrowerResponse>, StateError>)
    requires
        match start_after {
            Some(a) => a.wf(),
            None => true,
        },
    ensures
        match r {
            Ok(out) => page_valid(
                store_map(*storage),
                opt_addr_view(start_after),
                clamped_limit(limit),
                out@,
            ),
            Err(e) => e == StateError::Corrupt && !borrower_bucket_wf(store_map(*storage)),
        },
{
    let ghost m = store_map(*storage);
    let ghost sa = opt_addr_view(start_after);
    let ghost pb = prefix_borrower();

    let l0: u32 = match limit {
        Some(v) => v,
        None => DEFAULT_LIMIT,
    };
    let lim: usize = if l0 > MAX_LIMIT {
        30
    } else if l0 < 1 {
        1
    } else {
        l0 as usize
    };
    proof {
        assert(lim == clamped_limit(limit));
    }

    let mut start_key = make_prefix_borrower();
    match calc_range_start(start_after) {
        Some(suffix) => append_bytes_to(&mut start_key, &suffix),
        None => {},
    }
    let end_key = make_prefix_borrower_end();
    proof {
        assert(prefix_borrower_end() =~= prefix_borrower().update(7, 115u8));
        match sa {
            Some(a) => {
                lemma_lex_prefix_lt(pb, a.push(1u8));
                assert(lex_le(pb, start_key@));
            },
            None => {
                assert(start_key@ =~= pb + Seq::<u8>::empty());
                assert(lex_le(pb, start_key@));
            },
        }
    }

    let entries = kv_range(storage, &start_key, &end_key);
    let mut out: Vec<BorrowerResponse> = Vec::new();
    let mut idx: usize = 0;

    while idx < entries.len() && out.len() < lim
        invariant
            idx <= entries@.len(),
            out@.len() == idx,
            out@.len() <= lim,
            forall|j: int|
                0 <= j < idx ==> (#[trigger] out@[j]).borrower@ == bucket_addr(entries@[j].0@),
            forall|j: int|
                0 <= j < idx ==> spec_dec_borrower_info(entries@[j].1@) == Some(
                    BorrowerInfo {
                        balance: (#[trigger] out@[j]).balance,
                        spendable: out@[j].spendable,
                    },
                ),
        decreases entries@.len() - idx,
    {
        let ghost k = entries@[idx as int].0@;
        proof {
            assert(lex_le(start_key@, k) && lex_lt(k, end_key@));
            lemma_scan_key_prefix(start_key@, k);
        }
        let addr_bytes = slice_range(&entries[idx].0, 8, entries[idx].0.len());
        match dec_borrower_info(&entries[idx].1) {
            Some(bi) => {
                let resp = BorrowerResponse {
                    borrower: Addr::new(addr_bytes),
                    balance: bi.balance,
                    spendable: bi.spendable,
                };
                out.push(resp);
            },
            None => {
                proof {
                    assert(m.contains_key(k) && spec_dec_borrower_info(m[k]) is None);
                    assert(!borrower_bucket_wf(m));
                }
                return Err(StateError::Corrupt);
            },
        }
        idx = idx + 1;
    }

    proof {
        let outs = out@;
        assert forall|i: int| 0 <= i < outs.len() implies {
            let kk = borrower_key((#[trigger] outs[i]).borrower@);
            &&& m.contains_key(kk)
            &&& spec_dec_borrower_info(m[kk]) == Some(
                BorrowerInfo { balance: outs[i].balance, spendable: outs[i].spendable },
            )
            &&& match sa {
                Some(a) => lex_lt(a, outs[i].borrower@),
                None => true,
            }
        } by {
            let ki = entries@[i].0@;
            lemma_scan_key_prefix(start_key@, ki);
            assert(outs[i].borrower@ == bucket_addr(ki));
            assert(borrower_key(outs[i].borrower@) == ki);
            assert(entries@[i].1@ == m[ki]);
            match sa {
                Some(a) => {
                    assert(start_key@ == pb + a.push(1u8));
                    lemma_lex_concat_le(pb, a.push(1u8), bucket_addr(ki));
                    lemma_sentinel_after(a, bucket_addr(ki));
                },
                None => {},
            }
        }
        assert forall|i: int, j: int| 0 <= i < j < outs.len() implies lex_lt(
            outs[i].borrower@,
            outs[j].borrower@,
        ) by {
            let ki = entries@[i].0@;
            let kj = entries@[j].0@;
            lemma_scan_key_prefix(start_key@, ki);
            lemma_scan_key_prefix(start_key@, kj);
            assert(lex_lt(ki, kj));
            lemma_lex_concat(pb, bucket_addr(ki), bucket_addr(kj));
        }
        assert forall|k: Seq<u8>|
            {
                &&& #[trigger] m.contains_key(k)
                &&& is_borrower_bucket_key(k)
                &&& bucket_addr(k).len() == ADDR_LENGTH
                &&& match sa {
                    Some(a) => lex_lt(a, bucket_addr(k)),
                    None => true,
                }
            } implies (exists|i: int|
            0 <= i < outs.len() && (#[trigger] outs[i]).borrower@ == bucket_addr(k)) || (outs.len()
            == lim && forall|i: int|
            0 <= i < outs.len() ==> lex_lt((#[trigger] outs[i]).borrower@, bucket_addr(k))) by {
            assert(k =~= pb + bucket_addr(k));
            match sa {
                Some(a) => {
                    lemma_sentinel_successor(a, bucket_addr(k));
                    assert(start_key@ == pb + a.push(1u8));
                    lemma_lex_concat_le(pb, a.push(1u8), bucket_addr(k));
                    assert(lex_le(start_key@, k));
                },
                None => {
                    assert(start_key@ =~= pb + Seq::<u8>::empty());
                    lemma_lex_concat_le(pb, Seq::<u8>::empty(), bucket_addr(k));
                    assert(lex_le(start_key@, k));
                },
            }
            lemma_prefixed_below_succ(pb, bucket_addr(k), prefix_borrower_end());
            assert(lex_lt(k, end_key@));
            let i = choose|i: int| 0 <= i < entries@.len() && (#[trigger] entries@[i]).0@ == k;
            assert(0 <= i < entries@.len() && entries@[i].0@ == k);
            if i < idx {
                assert(outs[i].borrower@ == bucket_addr(k));
            } else {
                assert(idx < entries@.len());
                assert(outs.len() == lim);
                assert forall|j: int| 0 <= j < outs.len() implies lex_lt(
                    (#[trigger] outs[j]).borrower@,
                    bucket_addr(k),
                ) by {
                    let kj = entries@[j].0@;
                    lemma_scan_key_prefix(start_key@, kj);
                    assert(lex_lt(kj, entries@[i].0@));
                    lemma_lex_concat(pb, bucket_addr(kj), bucket_addr(k));
                }
            }
        }
        assert(page_valid(m, sa, lim as int, out@));
    }
    Ok(out)
}

/// A borrower never written reads as the zero ledger entry.
pub proof fn lemma_unwritten_borrower_info(m: Map<Seq<u8>, Seq<u8>>, a: Seq<u8>)
    requires
        !m.contains_key(borrower_key(a)),
    ensures
        spec_borrower_info_of(m, a) == Ok::<BorrowerInfo, StateError>(
            BorrowerInfo { balance: 0, spendable: 0 },
        ),
{
}

/// Every ledger entry written through the accessor keeps the locked
/// part within the holding: what is read back is well formed.
pub proof fn lemma_stored_borrower_info_wf(m: Map<Seq<u8>, Seq<u8>>, a: Seq<u8>, bi: BorrowerInfo)
    requires
        bi.wf(),
    ensures
        spec_borrower_info_of(m.insert(borrower_key(a), spec_enc_borrower_info(bi)), a) == Ok::<
            BorrowerInfo,
            StateError,
        >(bi),
        spec_borrower_info_of(m.insert(borrower_key(a), spec_enc_borrower_info(bi)), a) matches Ok(
            x,
        ) ==> x.wf(),
{
    lemma_borrower_info_round_trip(bi);
}

/// A write into one borrower's ledger slot touches neither another
/// borrower's entry nor the configuration: the record families and the
/// per-borrower keys are disjoint.
pub proof fn lemma_borrower_store_frames(
    m: Map<Seq<u8>, Seq<u8>>,
    a: Seq<u8>,
    b: Seq<u8>,
    v: Seq<u8>,
)
    requires
        a != b,
    ensures
        spec_borrower_info_of(m.insert(borrower_key(a), v), b) == spec_borrower_info_of(m, b),
        spec_read_config(m.insert(borrower_key(a), v)) == spec_read_config(m),
{
    crate::keys::lemma_bucket_keys_injective(a, b);
    crate::keys::lemma_families_disjoint(a, a);
}

/// However large a limit the caller asks, a page never exceeds the
/// hard ceiling.
pub proof fn lemma_page_bounded(
    m: Map<Seq<u8>, Seq<u8>>,
    start_after: Option<Seq<u8>>,
    limit: Option<u32>,
    out: Seq<BorrowerResponse>,
)
    requires
        page_valid(m, start_after, clamped_limit(limit), out),
    ensures
        out.len() <= MAX_LIMIT,
{
}

/// Exclusive-start pagination: with exactly three borrowers stored, at
/// addresses `a < b < c` in byte order, a page of up to ten entries
/// starting after `a` holds exactly the entries of `b` and `c`, in
/// that order, and never `a`'s.
pub proof fn lemma_page_after_first_of_three(
    m: Map<Seq<u8>, Seq<u8>>,
    a: Seq<u8>,
    b: Seq<u8>,
    c: Seq<u8>,
    out: Seq<BorrowerResponse>,
)
    requires
        a.len() == ADDR_LENGTH,
        b.len() == ADDR_LENGTH,
        c.len() == ADDR_LENGTH,
        lex_lt(a, b),
        lex_lt(b, c),
        m.contains_key(borrower_key(b)),
        m.contains_key(borrower_key(c)),
        forall|k: Seq<u8>|
            #[trigger] m.contains_key(k) && is_borrower_bucket_key(k) ==> k == borrower_key(a)
                || k == borrower_key(b) || k == borrower_key(c),
        page_valid(m, Some(a), 10, out),
    ensures
        out.len() == 2,
        out[0].borrower@ == b,
        out[1].borrower@ == c,
{
    let ka = borrower_key(a);
    let kb = borrower_key(b);
    let kc = borrower_key(c);
    assert(is_borrower_bucket_key(kb)) by {
        assert(kb.subrange(0, 8) =~= prefix_borrower());
    }
    assert(is_borrower_bucket_key(kc)) by {
        assert(kc.subrange(0, 8) =~= prefix_borrower());
    }
    assert(bucket_addr(ka) =~= a);
    assert(bucket_addr(kb) =~= b);
    assert(bucket_addr(kc) =~= c);
    lemma_lex_irrefl(b);
    lemma_lex_irrefl(c);
    lemma_lex_trans(a, b, c);
    if lex_lt(c, b) {
        lemma_lex_trans(b, c, b);
    }
    assert(!lex_lt(c, b));

    assert forall|i: int| 0 <= i < out.len() implies ((#[trigger] out[i]).borrower@ == b
        || out[i].borrower@ == c) by {
        let x = out[i].borrower@;
        let kx = borrower_key(x);
        assert(m.contains_key(kx));
        assert(is_borrower_bucket_key(kx)) by {
            assert(kx.subrange(0, 8) =~= prefix_borrower());
        }
        assert(kx == ka || kx == kb || kx == kc);
        assert(kx.skip(8) =~= x);
        if kx == ka {
            assert(x == bucket_addr(ka));
            assert(lex_lt(a, x));
            lemma_lex_irrefl(a);
            assert(false);
        } else if kx == kb {
            assert(x == bucket_addr(kb));
        } else {
            assert(x == bucket_addr(kc));
        }
    }

    if out.len() >= 3 {
        assert(lex_lt(out[0].borrower@, out[1].borrower@));
        assert(lex_lt(out[1].borrower@, out[2].borrower@));
        assert(false);
    }

    assert(m.contains_key(kb) && is_borrower_bucket_key(kb) && bucket_addr(kb).len()
        == ADDR_LENGTH && lex_lt(a, bucket_addr(kb)));
    assert(exists|i: int| 0 <= i < out.len() && (#[trigger] out[i]).borrower@ == bucket_addr(kb));
    let ib = choose|i: int| 0 <= i < out.len() && (#[trigger] out[i]).borrower@ == bucket_addr(kb);

    assert(m.contains_key(kc) && is_borrower_bucket_key(kc) && bucket_addr(kc).len()
        == ADDR_LENGTH && lex_lt(a, bucket_addr(kc)));
    assert(exists|i: int| 0 <= i < out.len() && (#[trigger] out[i]).borrower@ == bucket_addr(kc));
    let ic = choose|i: int| 0 <= i < out.len() && (#[trigger] out[i]).borrower@ == bucket_addr(kc);

    assert(out[ib].borrower@ == b && out[ic].borrower@ == c);
    assert(ib != ic);
    assert(out.len() == 2);
    assert(lex_lt(out[0].borrower@, out[1].borrower@));
    if out[0].borrower@ == c {
        assert(out[1].borrower@ == b || out[1].borrower@ == c);
        assert(false);
    }
}

/// Removing a borrower twice has the same observable effect as
/// removing it once: the second removal is a no-op.
pub proof fn lemma_remove_borrower_idempotent(m: Map<Seq<u8>, Seq<u8>>, a: Seq<u8>)
    ensures
        m.remove(borrower_key(a)).remove(borrower_key(a)) == m.remove(borrower_key(a)),
{
    assert(m.remove(borrower_key(a)).remove(borrower_key(a)) =~= m.remove(borrower_key(a)));
}

} // verus!
