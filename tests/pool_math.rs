use phoenix_dex::error::ContractError;
use phoenix_dex::math::{isqrt, MAX_AMOUNT};
use phoenix_dex::pool::Pool;
use phoenix_dex::shares::ShareLedger;

const ALICE: u64 = 1;
const BOB: u64 = 2;

fn pool_with(fee: u16, slippage: u16, spread: u16, a: i128, b: i128) -> Pool {
    let mut pool = Pool::new(10, 20, 30, fee, slippage, spread).unwrap();
    pool.provide_liquidity(ALICE, Some(a), None, Some(b), None, None, 0).unwrap();
    pool
}

#[test]
fn new_pool_orders_assets_and_checks_parameters() {
    let pool = Pool::new(20, 10, 30, 30, 100, 100).unwrap();
    assert_eq!((pool.asset_a(), pool.asset_b()), (10, 20));
    assert!(matches!(Pool::new(10, 10, 30, 0, 0, 0), Err(ContractError::AssetMismatch)));
    assert!(matches!(Pool::new(10, 20, 30, 10_001, 0, 0), Err(ContractError::InvalidAmount)));
}

#[test]
fn swap_without_fee_exact_amount() {
    let mut pool = pool_with(0, 1_000, 1_000, 1_000_000, 1_000_000);
    assert_eq!(pool.swap(10, 1_000), Ok(1_000));
    assert_eq!((pool.reserve_a(), pool.reserve_b()), (1_001_000, 999_000));
}

#[test]
fn swap_with_fee_exact_amount_and_product_grows() {
    let mut pool = pool_with(30, 1_000, 1_000, 1_000_000, 1_000_000);
    assert_eq!(pool.swap(10, 10_000), Ok(9_872));
    assert_eq!((pool.reserve_a(), pool.reserve_b()), (1_010_000, 990_128));
    assert!(pool.reserve_a() * pool.reserve_b() > 1_000_000 * 1_000_000);
}

#[test]
fn swap_offering_asset_b() {
    let mut pool = pool_with(0, 1_000, 1_000, 1_000_000, 1_000_000);
    assert_eq!(pool.swap(20, 1_000), Ok(1_000));
    assert_eq!((pool.reserve_a(), pool.reserve_b()), (999_000, 1_001_000));
}

#[test]
fn swap_errors_leave_pool_unchanged() {
    let mut pool = pool_with(0, 1_000, 0, 1_000_000, 1_000_000);
    assert_eq!(pool.swap(99, 1_000), Err(ContractError::AssetMismatch));
    assert_eq!(pool.swap(10, 0), Err(ContractError::InvalidAmount));
    assert_eq!(pool.swap(10, -5), Err(ContractError::InvalidAmount));
    assert_eq!(pool.swap(10, MAX_AMOUNT + 1), Err(ContractError::InvalidAmount));
    assert_eq!(pool.swap(10, 100_000), Err(ContractError::SpreadExceeded));
    assert_eq!((pool.reserve_a(), pool.reserve_b()), (1_000_000, 1_000_000));
    let mut empty = Pool::new(10, 20, 30, 0, 0, 0).unwrap();
    assert_eq!(empty.swap(10, 1_000), Err(ContractError::EmptyPool));
}

#[test]
fn spread_within_bound_passes() {
    let mut pool = pool_with(0, 1_000, 1_000, 1_000_000, 1_000_000);
    // deviation of 100_000 against 1_000_000 is about 9.1%, under 10%
    assert_eq!(pool.swap(10, 100_000), Ok(90_910));
}

#[test]
fn provide_errors() {
    let mut pool = pool_with(0, 5_000, 500, 1_000, 1_000);
    assert_eq!(
        pool.provide_liquidity(BOB, Some(10), None, Some(10), None, Some(5), 6),
        Err(ContractError::Expired)
    );
    assert_eq!(
        pool.provide_liquidity(BOB, None, None, None, None, None, 0),
        Err(ContractError::InvalidAmount)
    );
    assert_eq!(
        pool.provide_liquidity(BOB, Some(-1), None, Some(10), None, None, 0),
        Err(ContractError::InvalidAmount)
    );
    assert_eq!(
        pool.provide_liquidity(BOB, Some(100), Some(101), None, None, None, 0),
        Err(ContractError::SlippageExceeded)
    );
    assert_eq!(
        pool.provide_liquidity(BOB, Some(100), None, None, Some(101), None, 0),
        Err(ContractError::SlippageExceeded)
    );
    assert_eq!((pool.reserve_a(), pool.reserve_b(), pool.total_shares()), (1_000, 1_000, 1_000));
    assert_eq!(pool.share_balance(BOB), 0);
}

#[test]
fn provide_at_deadline_is_accepted() {
    let mut pool = pool_with(0, 5_000, 500, 1_000, 1_000);
    assert_eq!(
        pool.provide_liquidity(BOB, Some(10), None, Some(10), None, Some(5), 5),
        Ok((10, 10, 10))
    );
}

#[test]
fn provide_both_sides_uses_the_limiting_side() {
    let mut pool = pool_with(0, 5_000, 500, 1_000, 2_000);
    // 100 of A matches 200 of B, more than the 150 offered: B limits, A = 75
    assert_eq!(
        pool.provide_liquidity(BOB, Some(100), None, Some(150), None, None, 0),
        Ok((75, 150, 106))
    );
    assert_eq!((pool.reserve_a(), pool.reserve_b()), (1_075, 2_150));
}

#[test]
fn initial_shares_are_the_geometric_mean() {
    let pool = pool_with(0, 0, 0, 1_000, 4_000);
    assert_eq!(pool.total_shares(), 2_000);
    assert_eq!(pool.share_balance(ALICE), 2_000);
}

#[test]
fn withdraw_errors() {
    let mut pool = pool_with(0, 5_000, 500, 100, 100);
    assert_eq!(pool.withdraw_liquidity(ALICE, 0, 0, 0), Err(ContractError::InvalidAmount));
    assert_eq!(pool.withdraw_liquidity(ALICE, 101, 0, 0), Err(ContractError::InsufficientBalance));
    assert_eq!(pool.withdraw_liquidity(BOB, 1, 0, 0), Err(ContractError::InsufficientBalance));
    assert_eq!(pool.withdraw_liquidity(ALICE, 50, 51, 0), Err(ContractError::SlippageExceeded));
    assert_eq!((pool.reserve_a(), pool.reserve_b(), pool.total_shares()), (100, 100, 100));
}

#[test]
fn withdraw_rounds_down() {
    let mut pool = pool_with(0, 5_000, 500, 1_000, 3_000);
    assert_eq!(pool.total_shares(), 1_732);
    assert_eq!(pool.withdraw_liquidity(ALICE, 1, 0, 0), Ok((0, 1)));
}

#[test]
fn round_trip_on_funded_pool_returns_no_more_than_deposited() {
    let mut pool = pool_with(0, 5_000, 500, 1_000, 3_000);
    let (a, b, s) = pool.provide_liquidity(BOB, Some(100), None, None, None, None, 0).unwrap();
    assert_eq!((a, b, s), (100, 300, 173));
    assert_eq!(pool.withdraw_liquidity(BOB, s, 0, 0), Ok((99, 299)));
    assert_eq!((pool.reserve_a(), pool.reserve_b(), pool.total_shares()), (1_001, 3_001, 1_732));
    assert_eq!(pool.share_balance(BOB), 0);
}

#[test]
fn round_trip_on_empty_pool_is_exact() {
    let mut pool = Pool::new(10, 20, 30, 0, 0, 0).unwrap();
    let (a, b, s) = pool.provide_liquidity(BOB, Some(700), None, Some(300), None, None, 0).unwrap();
    assert_eq!(pool.withdraw_liquidity(BOB, s, 0, 0), Ok((a, b)));
    assert_eq!((pool.reserve_a(), pool.reserve_b(), pool.total_shares()), (0, 0, 0));
}

#[test]
fn drained_pool_can_be_reseeded() {
    let mut pool = pool_with(0, 5_000, 500, 100, 100);
    assert_eq!(pool.withdraw_liquidity(ALICE, 100, 100, 100), Ok((100, 100)));
    assert_eq!((pool.reserve_a(), pool.reserve_b(), pool.total_shares()), (0, 0, 0));
    assert_eq!(
        pool.provide_liquidity(BOB, Some(9), None, Some(16), None, None, 0),
        Ok((9, 16, 12))
    );
}

#[test]
fn balances_add_up_to_total_shares() {
    let mut pool = pool_with(0, 5_000, 500, 1_000, 1_000);
    pool.provide_liquidity(BOB, Some(500), None, Some(500), None, None, 0).unwrap();
    pool.withdraw_liquidity(ALICE, 300, 0, 0).unwrap();
    assert_eq!(pool.share_balance(ALICE) + pool.share_balance(BOB), pool.total_shares());
    assert_eq!((pool.share_balance(ALICE), pool.share_balance(BOB)), (700, 500));
}

#[test]
fn reserves_never_exceed_the_cap() {
    let mut pool = pool_with(0, 5_000, 500, MAX_AMOUNT, MAX_AMOUNT);
    assert_eq!(
        pool.provide_liquidity(BOB, Some(1), None, Some(1), None, None, 0),
        Err(ContractError::InvalidAmount)
    );
}

#[test]
fn ledger_mint_and_burn() {
    let mut ledger = ShareLedger::new();
    assert_eq!(ledger.mint(ALICE, 0), Err(ContractError::InvalidAmount));
    assert_eq!(ledger.mint(ALICE, 40), Ok(()));
    assert_eq!(ledger.mint(BOB, 2), Ok(()));
    assert_eq!(ledger.mint(ALICE, 2), Ok(()));
    assert_eq!((ledger.balance_of(ALICE), ledger.total_shares()), (42, 44));
    assert_eq!(ledger.burn(BOB, 3), Err(ContractError::InsufficientBalance));
    assert_eq!(ledger.burn(BOB, -1), Err(ContractError::InvalidAmount));
    assert_eq!(ledger.burn(BOB, 2), Ok(()));
    assert_eq!((ledger.balance_of(BOB), ledger.total_shares()), (0, 42));
    assert_eq!(ledger.mint(BOB, MAX_AMOUNT), Err(ContractError::InvalidAmount));
}

#[test]
fn integer_square_root() {
    assert_eq!(isqrt(0), 0);
    assert_eq!(isqrt(10), 3);
    assert_eq!(isqrt(16), 4);
    assert_eq!(isqrt(MAX_AMOUNT * MAX_AMOUNT), MAX_AMOUNT);
}

#[test]
fn zero_fee_rounding_favours_the_trader() {
    let mut pool = pool_with(0, 1_000, 1_000, 1_000_000, 1_000_000);
    assert_eq!(pool.swap(10, 50), Ok(50));
    // 10^12 / 1_000_050 leaves a remainder, which no fee covers
    assert_eq!(pool.reserve_a() * pool.reserve_b(), 999_999_997_500);
}
