//! Deterministic bidirectional mapping between the record types and
//! byte strings. Numbers are stored as fixed-width little-endian byte
//! strings; records are the concatenation of their fields.

use vstd::prelude::*;
use vstd::string::StrSliceExecFns;
use vstd::utf8::{decode_utf8, encode_utf8, encode_utf8_decode_utf8, encode_utf8_valid_utf8, valid_utf8};

use crate::types::{
    config_wf, Addr, BAssetInfo, BAssetInfoV, BorrowerInfo, Config, ConfigV, Decimal, UserRewards,
    ADDR_LENGTH,
};

verus! {

/// `256^n`.
pub open spec fn pow256(n: nat) -> nat
    decreases n,
{
    if n == 0 {
        1
    } else {
        256 * pow256((n - 1) as nat)
    }
}

/// The number held by a little-endian byte string.
pub open spec fn le_val(b: Seq<u8>) -> nat
    decreases b.len(),
{
    if b.len() == 0 {
        0
    } else {
        (b[0] + 256 * le_val(b.drop_first())) as nat
    }
}

/// The `n`-byte little-endian representation of `x` (mod `256^n`).
pub open spec fn le_bytes(x: nat, n: nat) -> Seq<u8>
    decreases n,
{
    if n == 0 {
        Seq::empty()
    } else {
        seq![(x % 256) as u8] + le_bytes(x / 256, (n - 1) as nat)
    }
}

pub proof fn lemma_le_bytes_len(x: nat, n: nat)
    ensures
        le_bytes(x, n).len() == n,
    decreases n,
{
    if n > 0 {
        lemma_le_bytes_len(x / 256, (n - 1) as nat);
    }
}

pub proof fn lemma_le_val_bound(b: Seq<u8>)
    ensures
        le_val(b) < pow256(b.len()),
    decreases b.len(),
{
    if b.len() > 0 {
        lemma_le_val_bound(b.drop_first());
    }
}

/// Encoding then decoding an `n`-byte number gives the number back.
pub proof fn lemma_le_round_trip(x: nat, n: nat)
    requires
        x < pow256(n),
    ensures
        le_val(le_bytes(x, n)) == x,
    decreases n,
{
    if n > 0 {
        let rest = le_bytes(x / 256, (n - 1) as nat);
        assert(le_bytes(x, n) == seq![(x % 256) as u8] + rest);
        assert((seq![(x % 256) as u8] + rest)[0] == (x % 256) as u8);
        assert((seq![(x % 256) as u8] + rest).drop_first() =~= rest);
        assert(x / 256 < pow256((n - 1) as nat)) by {
            assert(pow256(n) == 256 * pow256((n - 1) as nat));
        }
        lemma_le_round_trip(x / 256, (n - 1) as nat);
        assert(x == 256 * (x / 256) + x % 256);
    }
}

/// `256^16` is one more than the largest `u128`.
pub proof fn lemma_pow256_16()
    ensures
        pow256(16) == 0x1_0000_0000_0000_0000_0000_0000_0000_0000,
{
    reveal_with_fuel(pow256, 17);
}

/// The little-endian bytes of a `u128`.
pub open spec fn spec_enc_u128(x: u128) -> Seq<u8> {
    le_bytes(x as nat, 16)
}

pub fn enc_u128(x: u128) -> (r: Vec<u8>)
    ensures
        r@ == spec_enc_u128(x),
        r@.len() == 16,
{
    let mut v: Vec<u8> = Vec::new();
    let mut cur: u128 = x;
    let mut i: usize = 0;
    proof {
        assert(v@ + le_bytes(x as nat, 16) =~= le_bytes(x as nat, 16));
    }
    while i < 16
        invariant
            i <= 16,
            v@.len() == i,
            v@ + le_bytes(cur as nat, (16 - i) as nat) == le_bytes(x as nat, 16),
        decreases 16 - i,
    {
        let b: u8 = (cur % 256) as u8;
        proof {
            assert(le_bytes(cur as nat, (16 - i) as nat) == seq![b]
                + le_bytes(cur as nat / 256, (16 - i - 1) as nat));
            assert(v@.push(b) + le_bytes(cur as nat / 256, (16 - i - 1) as nat) =~= v@ + (seq![b]
                + le_bytes(cur as nat / 256, (16 - i - 1) as nat)));
        }
        v.push(b);
        cur = cur / 256;
        i = i + 1;
    }
    proof {
        assert(v@ + le_bytes(cur as nat, 0) =~= v@);
        lemma_le_bytes_len(x as nat, 16);
    }
    v
}

/// Reads the 16-byte little-endian number stored at `off`.
pub fn dec_u128_at(b: &Vec<u8>, off: usize) -> (r: u128)
    requires
        off + 16 <= b@.len(),
    ensures
        r as nat == le_val(b@.subrange(off as int, off as int + 16)),
{
    let mut acc: u128 = 0;
    let mut k: usize = 16;
    proof {
        lemma_pow256_16();
        assert(b@.subrange(off + 16, off + 16).len() == 0);
    }
    while k > 0
        invariant
            k <= 16,
            off + 16 <= b@.len(),
            acc as nat == le_val(b@.subrange(off + k, off as int + 16)),
            (acc as nat) < pow256((16 - k) as nat),
            pow256(16) == 0x1_0000_0000_0000_0000_0000_0000_0000_0000,
        decreases k,
    {
        proof {
            assert(b@.len() <= usize::MAX) by {
                assert(b.len() == b@.len());
            }
        }
        let byte = b[off + k - 1];
        proof {
            let tail = b@.subrange(off + k, off as int + 16);
            let whole = b@.subrange(off + k - 1, off as int + 16);
            assert(whole[0] == b@[off + k - 1]);
            assert(whole.drop_first() =~= tail);
            assert(pow256((16 - k + 1) as nat) == 256 * pow256((16 - k) as nat));
            assert((acc as nat) * 256 <= (pow256((16 - k) as nat) - 1) * 256) by (nonlinear_arith)
                requires
                    acc as nat <= pow256((16 - k) as nat) - 1,
            ;
            assert(pow256((16 - k + 1) as nat) <= pow256(16)) by {
                lemma_pow256_increases((16 - k + 1) as nat, 16);
            }
        }
        acc = acc * 256 + (byte as u128);
        k = k - 1;
    }
    proof {
        assert(b@.subrange(off as int, off as int + 16) =~= b@.subrange(
            off + 0,
            off as int + 16,
        ));
    }
    acc
}

pub proof fn lemma_pow256_increases(m: nat, n: nat)
    requires
        m <= n,
    ensures
        pow256(m) <= pow256(n),
    decreases n,
{
    if m < n {
        lemma_pow256_increases(m, (n - 1) as nat);
        assert(pow256(n) == 256 * pow256((n - 1) as nat));
    }
}

/// The stored form of a decimal: its atomic parts.
pub open spec fn spec_enc_decimal(d: Decimal) -> Seq<u8> {
    spec_enc_u128(d.atomics)
}

pub open spec fn spec_dec_decimal(b: Seq<u8>) -> Option<Decimal> {
    if b.len() == 16 {
        Some(Decimal { atomics: le_val(b) as u128 })
    } else {
        None
    }
}

pub proof fn lemma_decimal_round_trip(d: Decimal)
    ensures
        spec_dec_decimal(spec_enc_decimal(d)) == Some(d),
{
    lemma_le_bytes_len(d.atomics as nat, 16);
    lemma_pow256_16();
    lemma_le_round_trip(d.atomics as nat, 16);
}

pub fn enc_decimal(d: &Decimal) -> (r: Vec<u8>)
    ensures
        r@ == spec_enc_decimal(*d),
        r@.len() > 0,
{
    enc_u128(d.atomics)
}

pub fn dec_decimal(b: &Vec<u8>) -> (r: Option<Decimal>)
    ensures
        r == spec_dec_decimal(b@),
{
    if b.len() == 16 {
        proof {
            lemma_le_val_bound(b@.subrange(0, 16));
            lemma_pow256_16();
            assert(b@.subrange(0, 16) =~= b@);
        }
        Some(Decimal { atomics: dec_u128_at(b, 0) })
    } else {
        None
    }
}

/// The stored form of a ledger entry: balance, then spendable.
pub open spec fn spec_enc_borrower_info(bi: BorrowerInfo) -> Seq<u8> {
    spec_enc_u128(bi.balance) + spec_enc_u128(bi.spendable)
}

pub open spec fn spec_dec_borrower_info(b: Seq<u8>) -> Option<BorrowerInfo> {
    if b.len() == 32 {
        Some(
            BorrowerInfo {
                balance: le_val(b.subrange(0, 16)) as u128,
                spendable: le_val(b.subrange(16, 32)) as u128,
            },
        )
    } else {
        None
    }
}

pub proof fn lemma_borrower_info_round_trip(bi: BorrowerInfo)
    ensures
        spec_dec_borrower_info(spec_enc_borrower_info(bi)) == Some(bi),
{
    let e = spec_enc_borrower_info(bi);
    lemma_le_bytes_len(bi.balance as nat, 16);
    lemma_le_bytes_len(bi.spendable as nat, 16);
    assert(e.subrange(0, 16) =~= spec_enc_u128(bi.balance));
    assert(e.subrange(16, 32) =~= spec_enc_u128(bi.spendable));
    lemma_pow256_16();
    lemma_le_round_trip(bi.balance as nat, 16);
    lemma_le_round_trip(bi.spendable as nat, 16);
}

pub fn enc_borrower_info(bi: &BorrowerInfo) -> (r: Vec<u8>)
    ensures
        r@ == spec_enc_borrower_info(*bi),
        r@.len() > 0,
{
    let mut v = enc_u128(bi.balance);
    let mut w = enc_u128(bi.spendable);
    v.append(&mut w);
    v
}

pub fn dec_borrower_info(b: &Vec<u8>) -> (r: Option<BorrowerInfo>)
    ensures
        r == spec_dec_borrower_info(b@),
{
    if b.len() == 32 {
        proof {
            lemma_le_val_bound(b@.subrange(0, 16));
            lemma_le_val_bound(b@.subrange(16, 32));
            lemma_pow256_16();
        }
        Some(BorrowerInfo { balance: dec_u128_at(b, 0), spendable: dec_u128_at(b, 16) })
    } else {
        None
    }
}

/// The stored form of a reward record: the snapshot index, then the
/// accrued rewards.
pub open spec fn spec_enc_user_rewards(u: UserRewards) -> Seq<u8> {
    spec_enc_u128(u.user_index.atomics) + spec_enc_u128(u.rewards)
}

pub open spec fn spec_dec_user_rewards(b: Seq<u8>) -> Option<UserRewards> {
    if b.len() == 32 {
        Some(
            UserRewards {
                user_index: Decimal { atomics: le_val(b.subrange(0, 16)) as u128 },
                rewards: le_val(b.subrange(16, 32)) as u128,
            },
        )
    } else {
        None
    }
}

pub proof fn lemma_user_rewards_round_trip(u: UserRewards)
    ensures
        spec_dec_user_rewards(spec_enc_user_rewards(u)) == Some(u),
{
    let e = spec_enc_user_rewards(u);
    lemma_le_bytes_len(u.user_index.atomics as nat, 16);
    lemma_le_bytes_len(u.rewards as nat, 16);
    assert(e.subrange(0, 16) =~= spec_enc_u128(u.user_index.atomics));
    assert(e.subrange(16, 32) =~= spec_enc_u128(u.rewards));
    lemma_pow256_16();
    lemma_le_round_trip(u.user_index.atomics as nat, 16);
    lemma_le_round_trip(u.rewards as nat, 16);
}

pub fn enc_user_rewards(u: &UserRewards) -> (r: Vec<u8>)
    ensures
        r@ == spec_enc_user_rewards(*u),
        r@.len() > 0,
{
    let mut v = enc_u128(u.user_index.atomics);
    let mut w = enc_u128(u.rewards);
    v.append(&mut w);
    v
}

pub fn dec_user_rewards(b: &Vec<u8>) -> (r: Option<UserRewards>)
    ensures
        r == spec_dec_user_rewards(b@),
{
    if b.len() == 32 {
        proof {
            lemma_le_val_bound(b@.subrange(0, 16));
            lemma_le_val_bound(b@.subrange(16, 32));
            lemma_pow256_16();
        }
        Some(
            UserRewards {
                user_index: Decimal { atomics: dec_u128_at(b, 0) },
                rewards: dec_u128_at(b, 16),
            },
        )
    } else {
        None
    }
}

/// A length-prefixed byte string: its length as two little-endian
/// bytes, then the bytes themselves.
pub open spec fn lp(b: Seq<u8>) -> Seq<u8> {
    le_bytes(b.len(), 2) + b
}

/// The stored form of the configuration: the six fixed-length
/// addresses, three length-prefixed UTF-8 texts, and the decimals
/// byte.
pub open spec fn spec_enc_config(c: ConfigV) -> Seq<u8> {
    c.owner + c.collateral_token + c.overseer_contract + c.market_contract + c.reward_contract
        + c.liquidation_contract + lp(encode_utf8(c.stable_denom)) + lp(
        encode_utf8(c.basset_info.name),
    ) + lp(encode_utf8(c.basset_info.symbol)) + seq![c.basset_info.decimals]
}

pub open spec fn spec_dec_config(b: Seq<u8>) -> Option<ConfigV> {
    if b.len() < 127 {
        None
    } else {
        let dlen = le_val(b.subrange(120, 122)) as int;
        if 122 + dlen + 2 > b.len() {
            None
        } else {
            let dbytes = b.subrange(122, 122 + dlen);
            let off1 = 122 + dlen;
            let nlen = le_val(b.subrange(off1, off1 + 2)) as int;
            if off1 + 2 + nlen + 2 > b.len() {
                None
            } else {
                let nbytes = b.subrange(off1 + 2, off1 + 2 + nlen);
                let off2 = off1 + 2 + nlen;
                let slen = le_val(b.subrange(off2, off2 + 2)) as int;
                if off2 + 2 + slen + 1 != b.len() {
                    None
                } else {
                    let sbytes = b.subrange(off2 + 2, off2 + 2 + slen);
                    if !valid_utf8(dbytes) || !valid_utf8(nbytes) || !valid_utf8(sbytes) {
                        None
                    } else {
                        Some(
                            ConfigV {
                                owner: b.subrange(0, 20),
                                collateral_token: b.subrange(20, 40),
                                overseer_contract: b.subrange(40, 60),
                                market_contract: b.subrange(60, 80),
                                reward_contract: b.subrange(80, 100),
                                liquidation_contract: b.subrange(100, 120),
                                stable_denom: decode_utf8(dbytes),
                                basset_info: BAssetInfoV {
                                    name: decode_utf8(nbytes),
                                    symbol: decode_utf8(sbytes),
                                    decimals: b[b.len() - 1],
                                },
                            },
                        )
                    }
                }
            }
        }
    }
}

/// A well-formed configuration decodes back to itself.
#[verifier::rlimit(50)]
pub proof fn lemma_config_round_trip(c: ConfigV)
    requires
        config_wf(c),
    ensures
        spec_dec_config(spec_enc_config(c)) == Some(c),
{
    let d = encode_utf8(c.stable_denom);
    let n = encode_utf8(c.basset_info.name);
    let s = encode_utf8(c.basset_info.symbol);
    let e = spec_enc_config(c);
    lemma_le_bytes_len(d.len(), 2);
    lemma_le_bytes_len(n.len(), 2);
    lemma_le_bytes_len(s.len(), 2);
    let dl = d.len() as int;
    let nl = n.len() as int;
    let sl = s.len() as int;
    assert(e.len() == 120 + 2 + dl + 2 + nl + 2 + sl + 1);
    assert(pow256(2) == 65536) by {
        reveal_with_fuel(pow256, 3);
    }
    lemma_le_round_trip(d.len(), 2);
    lemma_le_round_trip(n.len(), 2);
    lemma_le_round_trip(s.len(), 2);
    assert(e.subrange(0, 20) =~= c.owner);
    assert(e.subrange(20, 40) =~= c.collateral_token);
    assert(e.subrange(40, 60) =~= c.overseer_contract);
    assert(e.subrange(60, 80) =~= c.market_contract);
    assert(e.subrange(80, 100) =~= c.reward_contract);
    assert(e.subrange(100, 120) =~= c.liquidation_contract);
    assert(e.subrange(120, 122) =~= le_bytes(d.len(), 2));
    assert(e.subrange(122, 122 + dl) =~= d);
    let off1 = 122 + dl;
    assert(e.subrange(off1, off1 + 2) =~= le_bytes(n.len(), 2));
    assert(e.subrange(off1 + 2, off1 + 2 + nl) =~= n);
    let off2 = off1 + 2 + nl;
    assert(e.subrange(off2, off2 + 2) =~= le_bytes(s.len(), 2));
    assert(e.subrange(off2 + 2, off2 + 2 + sl) =~= s);
    assert(e[e.len() - 1] == c.basset_info.decimals);
    encode_utf8_valid_utf8(c.stable_denom);
    encode_utf8_valid_utf8(c.basset_info.name);
    encode_utf8_valid_utf8(c.basset_info.symbol);
    encode_utf8_decode_utf8(c.stable_denom);
    encode_utf8_decode_utf8(c.basset_info.name);
    encode_utf8_decode_utf8(c.basset_info.symbol);
}

/// Relies on `String::from_utf8`: succeeds exactly on valid UTF-8, and
/// the returned string's bytes are the given bytes.
#[verifier::external_body]
fn bytes_to_string(v: Vec<u8>) -> (r: Option<String>)
    ensures
        match r {
            Some(s) => valid_utf8(v@) && encode_utf8(s@) == v@,
            None => !valid_utf8(v@),
        },
{
    match String::from_utf8(v) {
        Ok(s) => Some(s),
        Err(_) => None,
    }
}

pub(crate) fn append_bytes_to(dst: &mut Vec<u8>, src: &Vec<u8>)
    ensures
        final(dst)@ == old(dst)@ + src@,
{
    let mut i: usize = 0;
    proof {
        assert(dst@ + src@.take(0) =~= dst@);
    }
    while i < src.len()
        invariant
            i <= src@.len(),
            dst@ == old(dst)@ + src@.take(i as int),
        decreases src@.len() - i,
    {
        let b = src[i];
        proof {
            assert((old(dst)@ + src@.take(i as int)).push(b) =~= old(dst)@ + src@.take(i + 1));
        }
        dst.push(b);
        i = i + 1;
    }
    proof {
        assert(src@.take(src@.len() as int) =~= src@);
    }
}

pub(crate) fn slice_range(v: &Vec<u8>, from: usize, to: usize) -> (r: Vec<u8>)
    requires
        from <= to <= v@.len(),
    ensures
        r@ == v@.subrange(from as int, to as int),
{
    let mut r: Vec<u8> = Vec::new();
    let mut i: usize = from;
    while i < to
        invariant
            from <= i <= to <= v@.len(),
            r@ == v@.subrange(from as int, i as int),
        decreases to - i,
    {
        let b = v[i];
        proof {
            assert(v@.subrange(from as int, i as int).push(b) =~= v@.subrange(from as int, i + 1));
        }
        r.push(b);
        i = i + 1;
    }
    r
}

fn enc_len2(x: usize) -> (r: Vec<u8>)
    requires
        x < 65536,
    ensures
        r@ == le_bytes(x as nat, 2),
{
    let mut v: Vec<u8> = Vec::new();
    v.push((x % 256) as u8);
    v.push((x / 256) as u8);
    proof {
        assert(le_bytes(x as nat, 2) == seq![(x % 256) as u8] + le_bytes(x as nat / 256, 1));
        assert(le_bytes(x as nat / 256, 1) == seq![((x as nat / 256) % 256) as u8] + le_bytes(
            x as nat / 256 / 256,
            0,
        ));
        assert((x as nat / 256) % 256 == x as nat / 256);
        assert(v@ =~= le_bytes(x as nat, 2));
    }
    v
}

fn dec_len2_at(b: &Vec<u8>, off: usize) -> (r: usize)
    requires
        off + 2 <= b@.len(),
    ensures
        r as nat == le_val(b@.subrange(off as int, off + 2)),
        r < 65536,
{
    proof {
        assert(b@.len() <= usize::MAX) by {
            assert(b.len() == b@.len());
        }
    }
    let lo = b[off];
    let hi = b[off + 1];
    proof {
        let s = b@.subrange(off as int, off + 2);
        let t = b@.subrange(off + 1, off + 2);
        let u = b@.subrange(off + 2, off + 2);
        assert(u.len() == 0);
        assert(le_val(u) == 0);
        assert(t.drop_first() =~= u);
        assert(t[0] == b@[off + 1]);
        assert(le_val(t) == t[0] + 256 * le_val(t.drop_first()));
        assert(s.drop_first() =~= t);
        assert(s[0] == b@[off as int]);
        assert(le_val(s) == s[0] + 256 * le_val(s.drop_first()));
        assert(le_val(s) == b@[off as int] + 256 * b@[off + 1]);
    }
    (lo as usize) + 256 * (hi as usize)
}

/// Encodes the configuration record.
pub fn enc_config(c: &Config) -> (r: Vec<u8>)
    requires
        c.wf(),
    ensures
        r@ == spec_enc_config(c@),
        r@.len() > 0,
{
    let mut v: Vec<u8> = Vec::new();
    append_bytes_to(&mut v, &c.owner.bytes);
    append_bytes_to(&mut v, &c.collateral_token.bytes);
    append_bytes_to(&mut v, &c.overseer_contract.bytes);
    append_bytes_to(&mut v, &c.market_contract.bytes);
    append_bytes_to(&mut v, &c.reward_contract.bytes);
    append_bytes_to(&mut v, &c.liquidation_contract.bytes);
    let d = c.stable_denom.as_str().as_bytes_vec();
    let dlp = enc_len2(d.len());
    append_bytes_to(&mut v, &dlp);
    append_bytes_to(&mut v, &d);
    let n = c.basset_info.name.as_str().as_bytes_vec();
    let nlp = enc_len2(n.len());
    append_bytes_to(&mut v, &nlp);
    append_bytes_to(&mut v, &n);
    let s = c.basset_info.symbol.as_str().as_bytes_vec();
    let slp = enc_len2(s.len());
    append_bytes_to(&mut v, &slp);
    append_bytes_to(&mut v, &s);
    v.push(c.basset_info.decimals);
    proof {
        assert(v@ =~= spec_enc_config(c@));
    }
    v
}

/// Decodes a stored configuration, if the bytes are one.
pub fn dec_config(b: &Vec<u8>) -> (r: Option<Config>)
    ensures
        match r {
            Some(c) => spec_dec_config(b@) == Some(c@),
            None => spec_dec_config(b@) is None,
        },
{
    if b.len() < 127 {
        return None;
    }
    let dlen = dec_len2_at(b, 120);
    if 122 + dlen + 2 > b.len() {
        return None;
    }
    let off1 = 122 + dlen;
    let nlen = dec_len2_at(b, off1);
    if off1 + 2 + nlen + 2 > b.len() {
        return None;
    }
    let off2 = off1 + 2 + nlen;
    let slen = dec_len2_at(b, off2);
    if off2 + 2 + slen + 1 != b.len() {
        return None;
    }
    let dbytes = slice_range(b, 122, 122 + dlen);
    let nbytes = slice_range(b, off1 + 2, off1 + 2 + nlen);
    let sbytes = slice_range(b, off2 + 2, off2 + 2 + slen);
    let ghost gd = dbytes@;
    let ghost gn = nbytes@;
    let ghost gs = sbytes@;
    let denom = match bytes_to_string(dbytes) {
        Some(s) => s,
        None => {
            return None;
        },
    };
    let name = match bytes_to_string(nbytes) {
        Some(s) => s,
        None => {
            return None;
        },
    };
    let symbol = match bytes_to_string(sbytes) {
        Some(s) => s,
        None => {
            return None;
        },
    };
    proof {
        encode_utf8_decode_utf8(denom@);
        encode_utf8_decode_utf8(name@);
        encode_utf8_decode_utf8(symbol@);
    }
    let decimals = b[b.len() - 1];
    Some(
        Config {
            owner: Addr::new(slice_range(b, 0, 20)),
            collateral_token: Addr::new(slice_range(b, 20, 40)),
            overseer_contract: Addr::new(slice_range(b, 40, 60)),
            market_contract: Addr::new(slice_range(b, 60, 80)),
            reward_contract: Addr::new(slice_range(b, 80, 100)),
            liquidation_contract: Addr::new(slice_range(b, 100, 120)),
            stable_denom: denom,
            basset_info: BAssetInfo { name, symbol, decimals },
        },
    )
}

} // verus!
