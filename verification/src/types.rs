//! The record families of the custody ledger and the module's error type.

use vstd::prelude::*;

verus! {

/// Number of bytes in a canonical (raw) address. All addresses handled by
/// this module are fixed-length; the pagination cursor relies on that.
pub const ADDR_LENGTH: usize = 20;

/// Scaling factor of [`Decimal`]: one whole unit in atomic parts.
pub const DECIMAL_FRACTIONAL: u128 = 1_000_000_000_000_000_000;

/// A canonical address: the fixed-length raw-byte form of an identity.
#[derive(Clone, Debug, PartialEq, Eq)]
pub struct Addr {
    pub bytes: Vec<u8>,
}

impl View for Addr {
    type V = Seq<u8>;

    open spec fn view(&self) -> Seq<u8> {
        self.bytes@
    }
}

impl Addr {
    /// A canonical address is well formed when it has the fixed length.
    pub open spec fn wf(&self) -> bool {
        self@.len() == ADDR_LENGTH
    }

    pub fn new(bytes: Vec<u8>) -> (r: Addr)
        ensures
            r@ == bytes@,
    {
        Addr { bytes }
    }
}

/// A non-negative fixed-point number with eighteen fractional decimal
/// digits, held as its count of atomic parts: the represented value is
/// `atomics / DECIMAL_FRACTIONAL`.
#[derive(Clone, Copy, Debug, PartialEq, Eq, Structural)]
pub struct Decimal {
    pub atomics: u128,
}

impl Decimal {
    pub fn zero() -> (r: Decimal)
        ensures
            r.atomics == 0,
    {
        Decimal { atomics: 0 }
    }

    /// The decimal representing the whole number `n`.
    pub fn from_whole(n: u64) -> (r: Decimal)
        ensures
            r.atomics == n * DECIMAL_FRACTIONAL,
    {
        Decimal { atomics: (n as u128) * DECIMAL_FRACTIONAL }
    }

    pub fn new(atomics: u128) -> (r: Decimal)
        ensures
            r.atomics == atomics,
    {
        Decimal { atomics }
    }
}

/// Per-borrower custody ledger entry.
#[derive(Clone, Copy, Debug, PartialEq, Eq, Structural)]
pub struct BorrowerInfo {
    /// Total collateral units held in custody for this borrower.
    pub balance: u128,
    /// The part of `balance` not currently locked against borrowing.
    pub spendable: u128,
}

impl BorrowerInfo {
    /// The locked part can never exceed the holding.
    pub open spec fn wf(&self) -> bool {
        self.spendable <= self.balance
    }

    pub fn zero() -> (r: BorrowerInfo)
        ensures
            r == (BorrowerInfo { balance: 0, spendable: 0 }),
    {
        BorrowerInfo { balance: 0, spendable: 0 }
    }
}

/// Per-borrower reward-accrual state.
#[derive(Clone, Copy, Debug, PartialEq, Eq, Structural)]
pub struct UserRewards {
    /// Snapshot of the global index at the borrower's last settlement.
    pub user_index: Decimal,
    /// Accumulated, not yet claimed reward units owed to the borrower.
    pub rewards: u128,
}

impl UserRewards {
    pub fn zero() -> (r: UserRewards)
        ensures
            r == (UserRewards { user_index: Decimal { atomics: 0 }, rewards: 0 }),
    {
        UserRewards { user_index: Decimal { atomics: 0 }, rewards: 0 }
    }
}

/// Descriptor of the collateral asset variant being custodied.
#[derive(Clone, Debug, PartialEq, Eq)]
pub struct BAssetInfo {
    pub name: String,
    pub symbol: String,
    pub decimals: u8,
}

/// The mathematical value of a [`BAssetInfo`].
pub struct BAssetInfoV {
    pub name: Seq<char>,
    pub symbol: Seq<char>,
    pub decimals: u8,
}

impl View for BAssetInfo {
    type V = BAssetInfoV;

    open spec fn view(&self) -> BAssetInfoV {
        BAssetInfoV { name: self.name@, symbol: self.symbol@, decimals: self.decimals }
    }
}

/// The singleton configuration record.
#[derive(Clone, Debug, PartialEq, Eq)]
pub struct Config {
    pub owner: Addr,
    pub collateral_token: Addr,
    pub overseer_contract: Addr,
    pub market_contract: Addr,
    pub reward_contract: Addr,
    pub liquidation_contract: Addr,
    pub stable_denom: String,
    pub basset_info: BAssetInfo,
}

/// The mathematical value of a [`Config`].
pub struct ConfigV {
    pub owner: Seq<u8>,
    pub collateral_token: Seq<u8>,
    pub overseer_contract: Seq<u8>,
    pub market_contract: Seq<u8>,
    pub reward_contract: Seq<u8>,
    pub liquidation_contract: Seq<u8>,
    pub stable_denom: Seq<char>,
    pub basset_info: BAssetInfoV,
}

impl View for Config {
    type V = ConfigV;

    open spec fn view(&self) -> ConfigV {
        ConfigV {
            owner: self.owner@,
            collateral_token: self.collateral_token@,
            overseer_contract: self.overseer_contract@,
            market_contract: self.market_contract@,
            reward_contract: self.reward_contract@,
            liquidation_contract: self.liquidation_contract@,
            stable_denom: self.stable_denom@,
            basset_info: self.basset_info@,
        }
    }
}

impl Config {
    /// A configuration is well formed when every identity field is a
    /// fixed-length canonical address and each text field fits its
    /// two-byte stored length.
    pub open spec fn wf(&self) -> bool {
        config_wf(self@)
    }
}

/// Well-formedness of a configuration value.
pub open spec fn config_wf(c: ConfigV) -> bool {
    &&& c.owner.len() == ADDR_LENGTH
    &&& c.collateral_token.len() == ADDR_LENGTH
    &&& c.overseer_contract.len() == ADDR_LENGTH
    &&& c.market_contract.len() == ADDR_LENGTH
    &&& c.reward_contract.len() == ADDR_LENGTH
    &&& c.liquidation_contract.len() == ADDR_LENGTH
    &&& vstd::utf8::encode_utf8(c.stable_denom).len() < 65536
    &&& vstd::utf8::encode_utf8(c.basset_info.name).len() < 65536
    &&& vstd::utf8::encode_utf8(c.basset_info.symbol).len() < 65536
}

/// One entry of a borrower enumeration page.
#[derive(Clone, Debug, PartialEq, Eq)]
pub struct BorrowerResponse {
    pub borrower: Addr,
    pub balance: u128,
    pub spendable: u128,
}

/// Result of an accrued-rewards query.
#[derive(Clone, Copy, Debug, PartialEq, Eq, Structural)]
pub struct BLunaAccruedRewardsResponse {
    pub rewards: u128,
}

impl Default for BLunaAccruedRewardsResponse {
    fn default() -> (r: Self)
        ensures
            r.rewards == 0,
    {
        BLunaAccruedRewardsResponse { rewards: 0 }
    }
}

/// Failures of the ledger accessors and the accrual engine.
#[derive(Clone, Copy, Debug, PartialEq, Eq, Structural)]
pub enum StateError {
    /// A record with no safe default was read before it was written.
    NotFound,
    /// Stored bytes failed to decode back into a record.
    Corrupt,
    /// The global index ran behind a user snapshot, or reward
    /// accumulation overflowed: a bug elsewhere in the system.
    InvariantViolation,
}

} // verus!
