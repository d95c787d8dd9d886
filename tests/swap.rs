use phoenix_dex::error::ContractError;
use phoenix_dex::multihop::{swap, Registry, Swap};
use phoenix_dex::pool::Pool;

const USER: u64 = 9;

fn funded_pool(x: u64, y: u64, share_token: u64, slippage: u16, spread: u16) -> Pool {
    let mut pool = Pool::new(x, y, share_token, 0, slippage, spread).unwrap();
    pool.provide_liquidity(USER, Some(1_000_000), None, Some(1_000_000), None, None, 0)
        .unwrap();
    pool
}

fn three_pools(middle_spread: u16) -> Registry {
    let mut registry = Registry::new();
    assert!(registry.add_pool(funded_pool(1, 2, 101, 5_000, 500)));
    assert!(registry.add_pool(funded_pool(2, 3, 102, 4_000, middle_spread)));
    assert!(registry.add_pool(funded_pool(3, 4, 103, 4_000, 400)));
    registry
}

fn reserves(registry: &Registry) -> Vec<(i128, i128)> {
    let mut out = Vec::new();
    for i in 0..registry.len() {
        let p = registry.pool(i);
        out.push((p.reserve_a(), p.reserve_b()));
    }
    out
}

fn route() -> Vec<Swap> {
    vec![
        Swap { offer_asset: 1, ask_asset: 2 },
        Swap { offer_asset: 2, ask_asset: 3 },
        Swap { offer_asset: 3, ask_asset: 4 },
    ]
}

#[test]
fn swap_three_equal_pools_no_fees() {
    let mut registry = three_pools(400);
    assert_eq!(swap(&mut registry, &route(), 50), Ok(50));
    assert_eq!(
        reserves(&registry),
        vec![(1_000_050, 999_950), (1_000_050, 999_950), (1_000_050, 999_950)]
    );
}

#[test]
fn swap_panics_with_no_operations() {
    let mut registry = Registry::new();
    assert_eq!(swap(&mut registry, &vec![], 50), Err(ContractError::OperationsEmpty));
}

#[test]
fn empty_route_changes_nothing() {
    let mut registry = three_pools(400);
    let before = reserves(&registry);
    assert_eq!(swap(&mut registry, &vec![], 50), Err(ContractError::OperationsEmpty));
    assert_eq!(reserves(&registry), before);
}

#[test]
fn failing_middle_hop_rolls_back_every_pool() {
    let mut registry = three_pools(0);
    let before = reserves(&registry);
    assert_eq!(swap(&mut registry, &route(), 100_000), Err(ContractError::SpreadExceeded));
    assert_eq!(reserves(&registry), before);
}

#[test]
fn broken_chain_is_an_invalid_route() {
    let mut registry = three_pools(400);
    let legs = vec![Swap { offer_asset: 1, ask_asset: 2 }, Swap { offer_asset: 3, ask_asset: 4 }];
    assert_eq!(swap(&mut registry, &legs, 50), Err(ContractError::InvalidRoute));
}

#[test]
fn unserved_pair_is_not_found() {
    let mut registry = three_pools(400);
    let before = reserves(&registry);
    let legs = vec![Swap { offer_asset: 1, ask_asset: 2 }, Swap { offer_asset: 2, ask_asset: 4 }];
    assert_eq!(swap(&mut registry, &legs, 50), Err(ContractError::PoolNotFound));
    assert_eq!(reserves(&registry), before);
}

#[test]
fn reverse_route_and_reversed_pair_order() {
    let mut registry = three_pools(400);
    let legs = vec![Swap { offer_asset: 4, ask_asset: 3 }, Swap { offer_asset: 3, ask_asset: 2 }];
    assert_eq!(swap(&mut registry, &legs, 50), Ok(50));
    assert_eq!(registry.resolve(2, 1), Some(0));
    assert_eq!(registry.resolve(1, 2), Some(0));
    assert_eq!(registry.resolve(1, 3), None);
}

#[test]
fn registry_refuses_a_second_pool_for_a_pair() {
    let mut registry = three_pools(400);
    assert!(!registry.add_pool(funded_pool(2, 1, 104, 100, 100)));
    assert_eq!(registry.len(), 3);
}

#[test]
fn single_hop_route_matches_pool_swap() {
    let mut registry = three_pools(400);
    let mut pool = funded_pool(1, 2, 101, 5_000, 500);
    let direct = pool.swap(1, 1_000).unwrap();
    assert_eq!(swap(&mut registry, &vec![Swap { offer_asset: 1, ask_asset: 2 }], 1_000), Ok(direct));
    assert_eq!(direct, 1_000);
}
