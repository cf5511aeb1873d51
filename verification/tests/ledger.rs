use cosmwasm_std::{MemoryStorage, Storage};

use custody_bluna::rewards::{
    read_global_index, read_user_rewards, save_global_index, save_user_rewards, settle_rewards,
};
use custody_bluna::state::{
    calc_range_start, read_borrower_info, read_borrowers, read_config, remove_borrower_info,
    store_borrower_info, store_config,
};
use custody_bluna::types::{
    Addr, BAssetInfo, BLunaAccruedRewardsResponse, BorrowerInfo, Config, Decimal, StateError,
    UserRewards, ADDR_LENGTH, DECIMAL_FRACTIONAL,
};

fn addr(byte: u8) -> Addr {
    Addr::new(vec![byte; ADDR_LENGTH])
}

fn sample_config() -> Config {
    Config {
        owner: addr(1),
        collateral_token: addr(2),
        overseer_contract: addr(3),
        market_contract: addr(4),
        reward_contract: addr(5),
        liquidation_contract: addr(6),
        stable_denom: String::from("uusd"),
        basset_info: BAssetInfo {
            name: String::from("Bonded Luna"),
            symbol: String::from("BLUNA"),
            decimals: 6,
        },
    }
}

#[test]
fn unwritten_borrower_reads_zero() {
    let store = MemoryStorage::new();
    let info = read_borrower_info(&store, &addr(9)).unwrap();
    assert_eq!(info, BorrowerInfo { balance: 0, spendable: 0 });
}

#[test]
fn unwritten_user_rewards_read_zero() {
    let store = MemoryStorage::new();
    let rewards = read_user_rewards(&store, &addr(9)).unwrap();
    assert_eq!(rewards.user_index, Decimal::zero());
    assert_eq!(rewards.rewards, 0);
}

#[test]
fn unwritten_global_index_reads_zero() {
    let store = MemoryStorage::new();
    assert_eq!(read_global_index(&store).unwrap(), Decimal::zero());
}

#[test]
fn stored_borrower_info_keeps_invariant() {
    let mut store = MemoryStorage::new();
    let info = BorrowerInfo { balance: 100, spendable: 40 };
    store_borrower_info(&mut store, &addr(7), &info).unwrap();
    let back = read_borrower_info(&store, &addr(7)).unwrap();
    assert_eq!(back, info);
    assert!(back.spendable <= back.balance);
}

#[test]
fn borrower_info_round_trip() {
    let mut store = MemoryStorage::new();
    let info = BorrowerInfo { balance: u128::MAX, spendable: u128::MAX };
    store_borrower_info(&mut store, &addr(8), &info).unwrap();
    assert_eq!(read_borrower_info(&store, &addr(8)).unwrap(), info);
}

#[test]
fn remove_borrower_info_twice_is_noop() {
    let mut store = MemoryStorage::new();
    let a = addr(5);
    store_borrower_info(&mut store, &a, &BorrowerInfo { balance: 10, spendable: 10 }).unwrap();
    remove_borrower_info(&mut store, &a);
    let after_once = read_borrower_info(&store, &a).unwrap();
    let page_once = read_borrowers(&store, None, None).unwrap();
    remove_borrower_info(&mut store, &a);
    let after_twice = read_borrower_info(&store, &a).unwrap();
    let page_twice = read_borrowers(&store, None, None).unwrap();
    assert_eq!(after_once, BorrowerInfo { balance: 0, spendable: 0 });
    assert_eq!(after_once, after_twice);
    assert_eq!(page_once, page_twice);
}

#[test]
fn global_index_round_trip() {
    let mut store = MemoryStorage::new();
    let d = Decimal::new(123_456_789_000_000_000_000_000_001);
    save_global_index(&mut store, &d).unwrap();
    assert_eq!(read_global_index(&store).unwrap(), d);
}

#[test]
fn global_index_never_decreases_over_credits() {
    let mut store = MemoryStorage::new();
    let mut last = read_global_index(&store).unwrap();
    for step in [0u64, 1, 1, 3, 7, 7, 20] {
        let next = Decimal::new(last.atomics + (step as u128) * DECIMAL_FRACTIONAL);
        save_global_index(&mut store, &next).unwrap();
        let seen = read_global_index(&store).unwrap();
        assert!(seen.atomics >= last.atomics);
        last = seen;
    }
}

#[test]
fn user_rewards_round_trip() {
    let mut store = MemoryStorage::new();
    let u = UserRewards { user_index: Decimal::from_whole(3), rewards: 77 };
    save_user_rewards(&mut store, &addr(4), &u).unwrap();
    assert_eq!(read_user_rewards(&store, &addr(4)).unwrap(), u);
}

#[test]
fn config_round_trip() {
    let mut store = MemoryStorage::new();
    let cfg = sample_config();
    store_config(&mut store, &cfg).unwrap();
    assert_eq!(read_config(&store).unwrap(), cfg);
}

#[test]
fn config_missing_is_not_found() {
    let store = MemoryStorage::new();
    assert_eq!(read_config(&store).unwrap_err(), StateError::NotFound);
}

#[test]
fn config_corrupt_bytes_error() {
    let mut store = MemoryStorage::new();
    store.set(b"config", b"not a config record");
    assert_eq!(read_config(&store).unwrap_err(), StateError::Corrupt);
}

#[test]
fn settlement_credits_and_resnapshots() {
    let user = UserRewards { user_index: Decimal::zero(), rewards: 0 };
    let g1 = Decimal::from_whole(2);
    let settled = settle_rewards(&user, 100, g1).unwrap();
    assert_eq!(settled.rewards, 200);
    assert_eq!(settled.user_index, g1);
    let settled_again = settle_rewards(&settled, 100, g1).unwrap();
    assert_eq!(settled_again, settled);
}

#[test]
fn settlement_rounds_down() {
    let user = UserRewards { user_index: Decimal::zero(), rewards: 0 };
    let half = Decimal::new(DECIMAL_FRACTIONAL / 2);
    let settled = settle_rewards(&user, 3, half).unwrap();
    assert_eq!(settled.rewards, 1);
}

#[test]
fn settlement_rejects_backward_index() {
    let user = UserRewards { user_index: Decimal::from_whole(5), rewards: 0 };
    let behind = Decimal::from_whole(4);
    assert_eq!(
        settle_rewards(&user, 100, behind).unwrap_err(),
        StateError::InvariantViolation
    );
}

#[test]
fn settlement_rejects_overflow() {
    let user = UserRewards { user_index: Decimal::zero(), rewards: 0 };
    let g = Decimal::new(u128::MAX);
    assert_eq!(
        settle_rewards(&user, u128::MAX, g).unwrap_err(),
        StateError::InvariantViolation
    );
}

#[test]
fn calc_range_start_appends_sentinel() {
    let mut expected = vec![9u8; ADDR_LENGTH];
    expected.push(1);
    assert_eq!(calc_range_start(Some(addr(9))), Some(expected));
    assert_eq!(calc_range_start(None), None);
}

#[test]
fn pagination_starts_strictly_after_cursor() {
    let mut store = MemoryStorage::new();
    let (a, b, c) = (addr(1), addr(2), addr(3));
    store_borrower_info(&mut store, &a, &BorrowerInfo { balance: 10, spendable: 1 }).unwrap();
    store_borrower_info(&mut store, &b, &BorrowerInfo { balance: 20, spendable: 2 }).unwrap();
    store_borrower_info(&mut store, &c, &BorrowerInfo { balance: 30, spendable: 3 }).unwrap();
    let page = read_borrowers(&store, Some(a), Some(10)).unwrap();
    assert_eq!(page.len(), 2);
    assert_eq!(page[0].borrower, b);
    assert_eq!(page[0].balance, 20);
    assert_eq!(page[0].spendable, 2);
    assert_eq!(page[1].borrower, c);
    assert_eq!(page[1].balance, 30);
    assert_eq!(page[1].spendable, 3);
}

#[test]
fn pagination_clamps_limit_to_thirty() {
    let mut store = MemoryStorage::new();
    for i in 0..35u8 {
        store_borrower_info(
            &mut store,
            &addr(i),
            &BorrowerInfo { balance: i as u128, spendable: 0 },
        )
        .unwrap();
    }
    let page = read_borrowers(&store, None, Some(100)).unwrap();
    assert_eq!(page.len(), 30);
}

#[test]
fn pagination_defaults_to_ten() {
    let mut store = MemoryStorage::new();
    for i in 0..12u8 {
        store_borrower_info(
            &mut store,
            &addr(i),
            &BorrowerInfo { balance: 1, spendable: 1 },
        )
        .unwrap();
    }
    let page = read_borrowers(&store, None, None).unwrap();
    assert_eq!(page.len(), 10);
    for (i, entry) in page.iter().enumerate() {
        assert_eq!(entry.borrower, addr(i as u8));
    }
}

#[test]
fn pagination_ascends_in_byte_order() {
    let mut store = MemoryStorage::new();
    for i in [9u8, 3, 12, 7] {
        store_borrower_info(
            &mut store,
            &addr(i),
            &BorrowerInfo { balance: i as u128, spendable: 0 },
        )
        .unwrap();
    }
    let page = read_borrowers(&store, None, None).unwrap();
    let got: Vec<u8> = page.iter().map(|e| e.borrower.bytes[0]).collect();
    assert_eq!(got, vec![3, 7, 9, 12]);
}

#[test]
fn pagination_corrupt_value_aborts_page() {
    let mut store = MemoryStorage::new();
    let mut key = b"borrower".to_vec();
    key.extend_from_slice(&[4u8; ADDR_LENGTH]);
    store.set(&key, b"garbage");
    assert_eq!(
        read_borrowers(&store, None, None).unwrap_err(),
        StateError::Corrupt
    );
}

#[test]
fn record_families_do_not_collide() {
    let mut store = MemoryStorage::new();
    let a = addr(11);
    store_config(&mut store, &sample_config()).unwrap();
    save_global_index(&mut store, &Decimal::from_whole(9)).unwrap();
    let info = BorrowerInfo { balance: 50, spendable: 25 };
    let rewards = UserRewards { user_index: Decimal::from_whole(9), rewards: 5 };
    store_borrower_info(&mut store, &a, &info).unwrap();
    save_user_rewards(&mut store, &a, &rewards).unwrap();
    assert_eq!(read_config(&store).unwrap(), sample_config());
    assert_eq!(read_global_index(&store).unwrap(), Decimal::from_whole(9));
    assert_eq!(read_borrower_info(&store, &a).unwrap(), info);
    assert_eq!(read_user_rewards(&store, &a).unwrap(), rewards);
}

#[test]
fn accrued_rewards_response_defaults_to_zero() {
    let r = BLunaAccruedRewardsResponse::default();
    assert_eq!(r.rewards, 0);
}

#[test]
fn borrower_corrupt_bytes_error() {
    let mut store = MemoryStorage::new();
    let mut key = b"borrower".to_vec();
    key.extend_from_slice(&[6u8; ADDR_LENGTH]);
    store.set(&key, b"garbage");
    assert_eq!(
        read_borrower_info(&store, &addr(6)).unwrap_err(),
        StateError::Corrupt
    );
}

#[test]
fn global_index_corrupt_bytes_error() {
    let mut store = MemoryStorage::new();
    store.set(b"global_index", b"garbage");
    assert_eq!(read_global_index(&store).unwrap_err(), StateError::Corrupt);
}

#[test]
fn user_rewards_corrupt_bytes_error() {
    let mut store = MemoryStorage::new();
    let mut key = b"user_reward".to_vec();
    key.extend_from_slice(&[6u8; ADDR_LENGTH]);
    store.set(&key, b"garbage");
    assert_eq!(
        read_user_rewards(&store, &addr(6)).unwrap_err(),
        StateError::Corrupt
    );
}

#[test]
fn settlement_survives_wide_intermediate() {
    let user = UserRewards { user_index: Decimal::zero(), rewards: 0 };
    let one = Decimal::new(DECIMAL_FRACTIONAL);
    let settled = settle_rewards(&user, 1u128 << 127, one).unwrap();
    assert_eq!(settled.rewards, 1u128 << 127);
    assert_eq!(settled.user_index, one);
}

#[test]
fn settlement_wide_intermediate_rounds_down() {
    let user = UserRewards { user_index: Decimal::zero(), rewards: 0 };
    let one_and_a_half = Decimal::new(DECIMAL_FRACTIONAL + DECIMAL_FRACTIONAL / 2);
    let settled = settle_rewards(&user, (1u128 << 100) + 1, one_and_a_half).unwrap();
    assert_eq!(settled.rewards, (1u128 << 100) + (1u128 << 99) + 1);
}
