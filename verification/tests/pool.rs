//! Scenarios of the pool: bootstrap, swaps, quotes, proportional deposits and
//! withdrawals, and each refusal.

use ootleswap::address::ResourceId;
use ootleswap::pool::{Funds, LiquidityMint, Pool, PoolError, MINIMUM_LIQUIDITY};
use ootleswap::soon_token::SoonToken;

fn resource(tag: u8) -> ResourceId {
    let mut bytes = [0u8; 32];
    bytes[0] = tag;
    bytes[31] = tag;
    ResourceId { bytes }
}

fn same(x: ResourceId, y: ResourceId) -> bool {
    x.bytes == y.bytes
}

/// Two faucet tokens standing in for resources A and B, a pool over them,
/// and one faucet drip of each deposited as the first liquidity.
fn pool_with_initial_liquidity() -> (Pool, SoonToken, SoonToken) {
    let mut token_a = SoonToken::new(resource(1));
    let mut token_b = SoonToken::new(resource(2));
    let mut pool = Pool::new(resource(1), resource(2), resource(9)).unwrap();
    let a = token_a.faucet().unwrap();
    let b = token_b.faucet().unwrap();
    pool.add_liquidity(
        Funds { resource: token_a.resource_address(), amount: a },
        Funds { resource: token_b.resource_address(), amount: b },
    )
    .unwrap();
    (pool, token_a, token_b)
}

#[test]
fn bootstrap_sets_reserves_and_lp_supply() {
    let (pool, _, _) = pool_with_initial_liquidity();
    let reserves = pool.get_reserves();
    assert_eq!(reserves[0], 100_000_000u128);
    assert_eq!(reserves[1], 100_000_000u128);
    // sqrt(100e6 * 100e6) = 100e6, minus MINIMUM_LIQUIDITY=1000 burned
    assert_eq!(pool.get_total_lp_supply(), 100_000_000u128 - 1000);
}

#[test]
fn swap_preserves_k_with_fee() {
    let (mut pool, mut token_a, _) = pool_with_initial_liquidity();
    let before = pool.get_reserves();
    let k_before = before[0].checked_mul(before[1]).unwrap();

    let input = token_a.faucet().unwrap();
    pool.swap(Funds { resource: token_a.resource_address(), amount: input }).unwrap();

    let after = pool.get_reserves();
    let k_after = after[0].checked_mul(after[1]).unwrap();
    assert_eq!(
        after[0],
        before[0].checked_add(100_000_000u128).unwrap(),
        "reserve A should increase by input amount"
    );
    assert!(after[1] < before[1]);
    assert!(k_after >= k_before, "k must not decrease: before={} after={}", k_before, k_after);
}

#[test]
fn quote_swap_matches_actual_output() {
    let (mut pool, mut token_a, _) = pool_with_initial_liquidity();
    let quoted = pool.quote_swap(resource(1), 100_000_000u128).unwrap();
    let before = pool.get_reserves();
    let input = token_a.faucet().unwrap();
    pool.swap(Funds { resource: token_a.resource_address(), amount: input }).unwrap();
    let after = pool.get_reserves();
    let actual_out = before[1].checked_sub(after[1]).unwrap();
    assert_eq!(quoted, actual_out, "quote_swap output must match actual swap output");
}

#[test]
fn add_liquidity_proportional_doubles_reserves_and_lp() {
    let (mut pool, mut token_a, mut token_b) = pool_with_initial_liquidity();
    assert_eq!(pool.get_total_lp_supply(), 100_000_000u128 - 1000);

    let a2 = token_a.faucet().unwrap();
    let b2 = token_b.faucet().unwrap();
    let minted = pool
        .add_liquidity(
            Funds { resource: resource(1), amount: a2 },
            Funds { resource: resource(2), amount: b2 },
        )
        .unwrap();
    assert_eq!(minted.lp_to_provider, 99_999_000);

    let reserves = pool.get_reserves();
    assert_eq!(reserves[0], 200_000_000u128);
    assert_eq!(reserves[1], 200_000_000u128);
    // 99_999_000 (bootstrap) + 99_999_000 (proportional add) = 199_998_000
    assert_eq!(pool.get_total_lp_supply(), 199_998_000u128);
}

#[test]
fn remove_liquidity_returns_proportional_shares() {
    let (mut pool, _, _) = pool_with_initial_liquidity();
    let lp_resource = pool.get_lp_resource();
    // amount_out = 50_000_000 * 100_000_000 / 99_999_000 = 50_000_500 (floor).
    let burn_amount = 50_000_000u128;
    let expected_out = 50_000_500u128;
    let withdrawn =
        pool.remove_liquidity(Funds { resource: lp_resource, amount: burn_amount }).unwrap();
    assert_eq!(withdrawn, (expected_out, expected_out));

    let reserves = pool.get_reserves();
    assert_eq!(reserves[0], 100_000_000u128.checked_sub(expected_out).unwrap());
    assert_eq!(reserves[1], 100_000_000u128.checked_sub(expected_out).unwrap());
    assert_eq!(
        pool.get_total_lp_supply(),
        (100_000_000u128 - 1000).checked_sub(burn_amount).unwrap()
    );
}

#[test]
fn rejects_foreign_resource_on_swap() {
    let (mut pool, _, _) = pool_with_initial_liquidity();
    let mut foreign = SoonToken::new(resource(7));
    let amount = foreign.faucet().unwrap();
    let before = pool.get_reserves();
    let res = pool.swap(Funds { resource: foreign.resource_address(), amount });
    assert_eq!(res, Err(PoolError::UnknownResource));
    assert_eq!(pool.get_reserves(), before);
}

#[test]
fn new_pool_is_empty_and_keeps_its_resources() {
    let pool = Pool::new(resource(1), resource(2), resource(9)).unwrap();
    assert_eq!(pool.get_reserves(), vec![0u128, 0u128]);
    assert_eq!(pool.get_total_lp_supply(), 0);
    assert!(same(pool.get_resource_a(), resource(1)));
    assert!(same(pool.get_resource_b(), resource(2)));
    assert!(same(pool.get_lp_resource(), resource(9)));
}

#[test]
fn new_pool_rejects_same_resource_twice() {
    assert_eq!(Pool::new(resource(1), resource(1), resource(9)).err(), Some(PoolError::SameResource));
}

#[test]
fn add_liquidity_accepts_buckets_in_either_order() {
    let mut pool = Pool::new(resource(1), resource(2), resource(9)).unwrap();
    let minted = pool
        .add_liquidity(
            Funds { resource: resource(2), amount: 4_000_000 },
            Funds { resource: resource(1), amount: 1_000_000 },
        )
        .unwrap();
    // sqrt(1e6 * 4e6) = 2e6
    assert_eq!(
        minted,
        LiquidityMint {
            x_is_a: false,
            lp_minted: 2_000_000,
            lp_locked: MINIMUM_LIQUIDITY,
            lp_to_provider: 2_000_000 - MINIMUM_LIQUIDITY,
        }
    );
    assert_eq!(pool.get_reserves(), vec![1_000_000u128, 4_000_000u128]);
    assert_eq!(pool.get_total_lp_supply(), 2_000_000 - MINIMUM_LIQUIDITY);
}

#[test]
fn add_liquidity_bootstrap_rounds_the_root_down() {
    let mut pool = Pool::new(resource(1), resource(2), resource(9)).unwrap();
    // 3e6 * 5e6 = 15e12; sqrt = 3872983.34...
    let minted = pool
        .add_liquidity(
            Funds { resource: resource(1), amount: 3_000_000 },
            Funds { resource: resource(2), amount: 5_000_000 },
        )
        .unwrap();
    assert_eq!(minted.lp_minted, 3_872_983);
    assert_eq!(pool.get_total_lp_supply(), 3_872_983 - 1000);
}

#[test]
fn add_liquidity_keeps_unmatched_excess() {
    let (mut pool, _, _) = pool_with_initial_liquidity();
    // Double A but only half of B's ratio: minted follows the smaller side.
    let minted = pool
        .add_liquidity(
            Funds { resource: resource(1), amount: 100_000_000 },
            Funds { resource: resource(2), amount: 50_000_000 },
        )
        .unwrap();
    // min(100e6 * 99_999_000 / 100e6, 50e6 * 99_999_000 / 100e6) = 49_999_500
    assert_eq!(minted.lp_minted, 49_999_500);
    assert_eq!(minted.lp_locked, 0);
    assert_eq!(pool.get_reserves(), vec![200_000_000u128, 150_000_000u128]);
}

#[test]
fn add_liquidity_refusals() {
    let mut pool = Pool::new(resource(1), resource(2), resource(9)).unwrap();
    let res = pool.add_liquidity(
        Funds { resource: resource(1), amount: 10 },
        Funds { resource: resource(3), amount: 10 },
    );
    assert_eq!(res, Err(PoolError::BucketsMismatch));
    let res = pool.add_liquidity(
        Funds { resource: resource(1), amount: 0 },
        Funds { resource: resource(2), amount: 10 },
    );
    assert_eq!(res, Err(PoolError::ZeroDepositA));
    let res = pool.add_liquidity(
        Funds { resource: resource(2), amount: 0 },
        Funds { resource: resource(1), amount: 10 },
    );
    assert_eq!(res, Err(PoolError::ZeroDepositB));
    // sqrt(1000 * 1000) = 1000 is not more than MINIMUM_LIQUIDITY.
    let res = pool.add_liquidity(
        Funds { resource: resource(1), amount: 1000 },
        Funds { resource: resource(2), amount: 1000 },
    );
    assert_eq!(res, Err(PoolError::InsufficientInitialLiquidity));
    let res = pool.add_liquidity(
        Funds { resource: resource(1), amount: u128::MAX },
        Funds { resource: resource(2), amount: 2 },
    );
    assert_eq!(res, Err(PoolError::Overflow));
    // u128::MAX = 3 * 113427455640312821154458202477256070485.
    let res = pool.add_liquidity(
        Funds { resource: resource(1), amount: 3 },
        Funds { resource: resource(2), amount: 113427455640312821154458202477256070485 },
    );
    assert_eq!(res, Err(PoolError::Overflow));
    assert_eq!(pool.get_reserves(), vec![0u128, 0u128]);
    assert_eq!(pool.get_total_lp_supply(), 0);
}

#[test]
fn add_liquidity_refuses_a_deposit_minting_nothing() {
    let (mut pool, _, _) = pool_with_initial_liquidity();
    let res = pool.add_liquidity(
        Funds { resource: resource(1), amount: 1 },
        Funds { resource: resource(2), amount: 1 },
    );
    // 1 * 99_999_000 / 100_000_000 = 0
    assert_eq!(res, Err(PoolError::InsufficientLiquidityMinted));
}

#[test]
fn add_liquidity_against_an_empty_side_divides_by_zero() {
    let mut pool = Pool {
        resource_a: resource(1),
        resource_b: resource(2),
        lp_resource: resource(9),
        reserve_a: 0,
        reserve_b: 10,
        lp_total_supply: 10,
    };
    let res = pool.add_liquidity(
        Funds { resource: resource(1), amount: 5 },
        Funds { resource: resource(2), amount: 5 },
    );
    assert_eq!(res, Err(PoolError::DivisionByZero));
}

#[test]
fn remove_liquidity_refusals() {
    let (mut pool, _, _) = pool_with_initial_liquidity();
    assert_eq!(
        pool.remove_liquidity(Funds { resource: resource(1), amount: 10 }),
        Err(PoolError::NotLpToken)
    );
    assert_eq!(
        pool.remove_liquidity(Funds { resource: resource(9), amount: 0 }),
        Err(PoolError::ZeroBurn)
    );
    assert_eq!(
        pool.remove_liquidity(Funds { resource: resource(9), amount: 100_000_000 }),
        Err(PoolError::BurnExceedsSupply)
    );
    assert_eq!(pool.get_total_lp_supply(), 99_999_000);
}

#[test]
fn remove_liquidity_refuses_a_burn_paying_nothing() {
    let mut pool = Pool {
        resource_a: resource(1),
        resource_b: resource(2),
        lp_resource: resource(9),
        reserve_a: 10,
        reserve_b: 1_000_000,
        lp_total_supply: 1_000,
    };
    // 1 * 10 / 1000 = 0 of A.
    assert_eq!(
        pool.remove_liquidity(Funds { resource: resource(9), amount: 1 }),
        Err(PoolError::WithdrawsNothing)
    );
}

#[test]
fn remove_all_liquidity_empties_the_pool() {
    let (mut pool, _, _) = pool_with_initial_liquidity();
    let supply = pool.get_total_lp_supply();
    let out = pool.remove_liquidity(Funds { resource: resource(9), amount: supply }).unwrap();
    assert_eq!(out, (100_000_000, 100_000_000));
    assert_eq!(pool.get_reserves(), vec![0u128, 0u128]);
    assert_eq!(pool.get_total_lp_supply(), 0);
}

#[test]
fn swap_pays_the_fee_formula_in_both_directions() {
    let (mut pool, _, _) = pool_with_initial_liquidity();
    // 100e6 * 997 * 100e6 / (100e6 * 1000 + 100e6 * 997) = 49_924_887
    let out = pool.swap(Funds { resource: resource(2), amount: 100_000_000 }).unwrap();
    assert_eq!(out, 49_924_887);
    assert_eq!(pool.get_reserves(), vec![100_000_000 - 49_924_887, 200_000_000u128]);
}

#[test]
fn swap_refusals() {
    let mut empty = Pool::new(resource(1), resource(2), resource(9)).unwrap();
    assert_eq!(
        empty.swap(Funds { resource: resource(1), amount: 10 }),
        Err(PoolError::NotBootstrapped)
    );
    let (mut pool, _, _) = pool_with_initial_liquidity();
    assert_eq!(pool.swap(Funds { resource: resource(1), amount: 0 }), Err(PoolError::ZeroInput));
    // 1 * 997 * 100e6 / (100e6 * 1000 + 997) = 0
    assert_eq!(
        pool.swap(Funds { resource: resource(1), amount: 1 }),
        Err(PoolError::InsufficientOutput)
    );
    assert_eq!(
        pool.swap(Funds { resource: resource(1), amount: u128::MAX / 2 }),
        Err(PoolError::Overflow)
    );
    assert_eq!(pool.get_reserves(), vec![100_000_000u128, 100_000_000u128]);
}

#[test]
fn quote_swap_cases() {
    let empty = Pool::new(resource(1), resource(2), resource(9)).unwrap();
    assert_eq!(empty.quote_swap(resource(1), 5), Ok(0));
    assert_eq!(empty.quote_swap(resource(3), 5), Err(PoolError::UnknownResource));
    let (pool, _, _) = pool_with_initial_liquidity();
    assert_eq!(pool.quote_swap(resource(2), 100_000_000), Ok(49_924_887));
    assert_eq!(pool.quote_swap(resource(2), u128::MAX), Err(PoolError::Overflow));
}

#[test]
fn deposit_then_withdraw_returns_no_more_than_deposited() {
    let (mut pool, _, _) = pool_with_initial_liquidity();
    // A skewed second deposit: the excess of A stays in the pool.
    let minted = pool
        .add_liquidity(
            Funds { resource: resource(1), amount: 30_000_000 },
            Funds { resource: resource(2), amount: 10_000_000 },
        )
        .unwrap();
    let (out_a, out_b) = pool
        .remove_liquidity(Funds { resource: resource(9), amount: minted.lp_to_provider })
        .unwrap();
    assert!(out_a <= 30_000_000);
    assert!(out_b <= 10_000_000);
    // The provider minted 9_999_900 of 109_998_900 LP against 130e6 / 110e6.
    assert_eq!(minted.lp_to_provider, 9_999_900);
    assert_eq!((out_a, out_b), (11_818_181, 10_000_000));
}
