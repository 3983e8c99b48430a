//! Engine scenarios: pool creation, liquidity accounting and swaps.

use amm_core::amm::{Amm, AmmFees, MINIMUM_LIQUIDITY};
use amm_core::errors::AmmError;
use amm_core::ids::{get_lp_asset_id, AssetId, ContractId, PoolId, SubId};

fn default_fees() -> AmmFees {
    AmmFees {
        lp_fee_volatile: 30,
        lp_fee_stable: 5,
        protocol_fee_volatile: 0,
        protocol_fee_stable: 0,
    }
}

fn amm_contract() -> ContractId {
    ContractId { hi: 7, lo: 9 }
}

fn token_contract() -> ContractId {
    ContractId { hi: 7, lo: 9 }
}

fn sub_id_0() -> SubId {
    SubId { hi: 0, lo: 1 }
}

fn sub_id_1() -> SubId {
    SubId { hi: 0, lo: 2 }
}

fn setup() -> Amm {
    Amm::new(amm_contract(), default_fees())
}

fn make_pool(amm: &mut Amm, is_stable: bool) -> PoolId {
    amm.create_pool(
        token_contract(),
        sub_id_0(),
        token_contract(),
        sub_id_1(),
        is_stable,
        9,
        9,
    )
    .unwrap()
}

#[test]
fn creates_pool() {
    let mut amm = setup();
    let pool_id = make_pool(&mut amm, false);
    assert!(pool_id.asset_0.hi < pool_id.asset_1.hi || (pool_id.asset_0.hi == pool_id.asset_1.hi && pool_id.asset_0.lo < pool_id.asset_1.lo));
    assert_eq!(pool_id.is_stable, false);

    let meta = amm.pool_metadata(&pool_id);
    assert_ne!(meta, None);
    let meta = meta.unwrap();
    assert_eq!(meta.reserve_0, 0);
    assert_eq!(meta.reserve_1, 0);
    assert_eq!(meta.decimals_0, 9);
    assert_eq!(meta.decimals_1, 9);
    assert_eq!(meta.liquidity.amount, 0);
    assert_eq!(meta.liquidity.id, get_lp_asset_id(&amm_contract(), &pool_id));
}

#[test]
fn creates_stable_pool() {
    let mut amm = setup();
    let pool_id = make_pool(&mut amm, true);
    assert_eq!(pool_id.is_stable, true);

    let meta = amm.pool_metadata(&pool_id);
    assert_ne!(meta, None);
    let meta = meta.unwrap();
    assert_eq!(meta.reserve_0, 0);
    assert_eq!(meta.reserve_1, 0);
    assert_eq!(meta.decimals_0, 9);
    assert_eq!(meta.decimals_1, 9);
}

#[test]
fn creates_both_pool_variants_for_one_pair() {
    let mut amm = setup();
    let volatile = make_pool(&mut amm, false);
    let stable = make_pool(&mut amm, true);
    assert_ne!(volatile, stable);
    assert!(amm.pool_metadata(&volatile).is_some());
    assert!(amm.pool_metadata(&stable).is_some());
}

#[test]
fn fails_to_create_pool_with_identical_assets() {
    let mut amm = setup();
    let r = amm.create_pool(
        token_contract(),
        sub_id_0(),
        token_contract(),
        sub_id_0(),
        false,
        9,
        9,
    );
    assert_eq!(r, Err(AmmError::IdenticalAssets));
}

#[test]
fn fails_to_create_duplicate_pool() {
    let mut amm = setup();
    make_pool(&mut amm, false);
    let r = amm.create_pool(
        token_contract(),
        sub_id_1(),
        token_contract(),
        sub_id_0(),
        false,
        9,
        9,
    );
    assert_eq!(r, Err(AmmError::PoolAlreadyExists));
}

#[test]
fn test_mint() {
    let mut amm = setup();
    let pool_id = make_pool(&mut amm, false);
    let min_liquidity = 1000;

    let minted = amm.mint(pool_id, 10201, 100).unwrap();
    let expected_lp_1 = 10; // sqrt(10201 * 100) - min_liquidity
    assert_eq!(minted.amount, expected_lp_1);
    assert_eq!(minted.id, get_lp_asset_id(&amm_contract(), &pool_id));
    let meta = amm.pool_metadata(&pool_id).unwrap();
    assert_eq!(meta.reserve_0, 10201);
    assert_eq!(meta.reserve_1, 100);
    assert_eq!(meta.liquidity.amount, min_liquidity + expected_lp_1);

    let minted_2 = amm.mint(pool_id, 10201, 100).unwrap();
    let expected_lp_2 = 1010; // sqrt(10201 * 100)
    assert_eq!(minted_2.amount, expected_lp_2);
    let meta = amm.pool_metadata(&pool_id).unwrap();
    assert_eq!(meta.reserve_0, 20402);
    assert_eq!(meta.reserve_1, 200);
    assert_eq!(meta.liquidity.amount, expected_lp_1 + expected_lp_2 + min_liquidity);
}

#[test]
fn mint_test_no_pool() {
    let mut amm = setup();
    let pool_id = PoolId {
        asset_0: AssetId { hi: 1, lo: 1 },
        asset_1: AssetId { hi: 1, lo: 2 },
        is_stable: false,
    };
    assert_eq!(amm.mint(pool_id, 10, 10), Err(AmmError::PoolDoesNotExist));
}

#[test]
fn mint_test_no_liquidity() {
    let mut amm = setup();
    let pool_id = make_pool(&mut amm, false);
    assert_eq!(
        amm.mint(pool_id, 0, 0),
        Err(AmmError::CannotAddLessThanMinimumLiquidity)
    );
}

#[test]
fn test_min_liquidity() {
    let mut amm = setup();
    let pool_id = make_pool(&mut amm, false);
    // sqrt(1000 * 1000) == MINIMUM_LIQUIDITY exactly, still too little
    assert_eq!(
        amm.mint(pool_id, 1000, 1000),
        Err(AmmError::CannotAddLessThanMinimumLiquidity)
    );
    assert_eq!(MINIMUM_LIQUIDITY, 1000);
}

#[test]
fn test_burn() {
    let mut amm = setup();
    let pool_id = make_pool(&mut amm, false);
    let minted = amm.mint(pool_id, 1_020_100, 10_000).unwrap();
    assert_eq!(minted.amount, 100_000);

    let burn_amount = 60_000;
    let (asset_0_out, asset_1_out) = amm.burn(pool_id, minted.id, burn_amount).unwrap();
    // total_liquidity = 101000
    // expected_token_0 = 60_000 * 1_020_100 / 101000 = 606_000
    // expected_token_1 = 60_000 * 10_000 / 101000 ~ 5940
    assert_eq!(asset_0_out, 606_000);
    assert_eq!(asset_1_out, 5940);
    let meta = amm.pool_metadata(&pool_id).unwrap();
    assert_eq!(meta.reserve_0, 414_100);
    assert_eq!(meta.reserve_1, 4060);
    assert_eq!(meta.liquidity.amount, 41_000);
}

#[test]
fn test_burn_all() {
    let mut amm = setup();
    let pool_id = make_pool(&mut amm, false);
    let minted = amm.mint(pool_id, 1_020_100, 10_000).unwrap();
    assert_eq!(minted.amount, 100_000);

    let burn_amount = 100_000;
    let (asset_0_out, asset_1_out) = amm.burn(pool_id, minted.id, burn_amount).unwrap();
    // total_liquidity = 101000
    // expected_token_0 = 100_000 * 1_020_100 / 101000 = 1_010_000
    // expected_token_1 = 100_000 * 10_000 / 101000 ~ 9900
    assert_eq!(asset_0_out, 1_010_000);
    assert_eq!(asset_1_out, 9900);
    let meta = amm.pool_metadata(&pool_id).unwrap();
    assert_eq!(meta.reserve_0, 10_100);
    assert_eq!(meta.reserve_1, 100);
    assert_eq!(meta.liquidity.amount, 1000);
}

#[test]
fn test_invalid_asset() {
    let mut amm = setup();
    let token_0 = AssetId { hi: 1, lo: 1 };
    let token_1 = AssetId { hi: 1, lo: 2 };
    let pool_id = PoolId { asset_0: token_0, asset_1: token_1, is_stable: false };
    // handing back the pool's own first asset, not its liquidity receipt
    assert_eq!(amm.burn(pool_id, token_0, 10), Err(AmmError::InvalidAsset));
}

#[test]
fn test_burn_zero_amount() {
    let mut amm = setup();
    let pool_id = make_pool(&mut amm, false);
    let minted = amm.mint(pool_id, 1_020_100, 10_000).unwrap();
    assert_eq!(
        amm.burn(pool_id, minted.id, 0),
        Err(AmmError::ZeroInputAmount)
    );
}

#[test]
fn test_burn_revert() {
    let mut amm = setup();
    let pool_id = make_pool(&mut amm, false);
    let minted = amm.mint(pool_id, 10201, 100).unwrap();
    assert_eq!(minted.amount, 10);
    // total_liquidity = 1010, burning all 10 issued receipts
    // expected_token_0 = 10 * 10201 / 1010 = 101
    // expected_token_1 = 10 * 100 / 1010 ~ 0.99 = 0 => TransferZeroCoins
    assert_eq!(
        amm.burn(pool_id, minted.id, 10),
        Err(AmmError::TransferZeroCoins)
    );
}

#[test]
fn test_swap_volatile() {
    let mut amm = setup();
    let pool_id = make_pool(&mut amm, false);
    amm.mint(pool_id, 1_020_100, 10_000).unwrap();
    let before = amm.pool_metadata(&pool_id).unwrap();

    let requested_0 = 78;
    let requested_1 = 9;
    // 1000 of asset 0 arrived to fund the swap
    amm.swap(pool_id, requested_0, requested_1, 1000, 0).unwrap();

    let after = amm.pool_metadata(&pool_id).unwrap();
    assert_eq!(after.reserve_0, before.reserve_0 + 1000 - requested_0);
    assert_eq!(after.reserve_1, before.reserve_1 - requested_1);
    assert_eq!(after.liquidity, before.liquidity);
}

#[test]
fn test_swap_stable() {
    let mut amm = setup();
    let pool_id = make_pool(&mut amm, true);
    amm.mint(pool_id, 1_020_100, 10_000).unwrap();
    let before = amm.pool_metadata(&pool_id).unwrap();

    let requested_1 = 29;
    amm.swap(pool_id, 0, requested_1, 1000, 0).unwrap();

    let after = amm.pool_metadata(&pool_id).unwrap();
    assert_eq!(after.reserve_0, before.reserve_0 + 1000);
    assert_eq!(after.reserve_1, before.reserve_1 - requested_1);
    assert_eq!(after.liquidity, before.liquidity);
}

#[test]
fn swap_test_no_pool() {
    let mut amm = setup();
    let pool_id = PoolId {
        asset_0: AssetId { hi: 1, lo: 1 },
        asset_1: AssetId { hi: 1, lo: 2 },
        is_stable: false,
    };
    assert_eq!(amm.swap(pool_id, 10, 10, 0, 0), Err(AmmError::PoolDoesNotExist));
}

#[test]
fn swap_test_no_liquidity() {
    let mut amm = setup();
    let pool_id = make_pool(&mut amm, false);
    assert_eq!(
        amm.swap(pool_id, 10, 10, 0, 0),
        Err(AmmError::InsufficientLiquidity)
    );
}

#[test]
fn test_zero_input_amount() {
    let mut amm = setup();
    let pool_id = make_pool(&mut amm, false);
    amm.mint(pool_id, 1_020_100, 10_000).unwrap();
    assert_eq!(amm.swap(pool_id, 0, 0, 0, 0), Err(AmmError::ZeroInputAmount));
}

#[test]
fn test_swap_violate_curve() {
    let mut amm = setup();
    let pool_id = make_pool(&mut amm, false);
    amm.mint(pool_id, 1_020_100, 10_000).unwrap();
    // 1000 of asset 0 arrived, but 10 of asset 1 out is more than the
    // post-fee product allows
    assert_eq!(
        amm.swap(pool_id, 0, 10, 1000, 0),
        Err(AmmError::CurveInvariantViolation)
    );
}

#[test]
fn test_multiple_pool_swap_violate_curve() {
    let mut amm = setup();
    let pool_a = make_pool(&mut amm, false);
    let pool_b = amm
        .create_pool(
            token_contract(),
            sub_id_1(),
            token_contract(),
            SubId { hi: 0, lo: 3 },
            false,
            9,
            9,
        )
        .unwrap();
    amm.mint(pool_a, 1_020_100, 10_000).unwrap();
    amm.mint(pool_b, 1_020_100, 10_000).unwrap();
    assert_eq!(
        amm.swap(pool_a, 0, 10, 1000, 0),
        Err(AmmError::CurveInvariantViolation)
    );
    // the other pool is untouched
    let b = amm.pool_metadata(&pool_b).unwrap();
    assert_eq!(b.reserve_0, 1_020_100);
    assert_eq!(b.reserve_1, 10_000);
}

#[test]
fn test_swap_stable_violate_curve() {
    let mut amm = setup();
    let pool_id = make_pool(&mut amm, true);
    amm.mint(pool_id, 1_020_100, 10_000).unwrap();
    assert_eq!(
        amm.swap(pool_id, 0, 30, 1000, 0),
        Err(AmmError::CurveInvariantViolation)
    );
}

#[test]
fn test_swap_insufficient_liquidity() {
    let mut amm = setup();
    let pool_id = make_pool(&mut amm, false);
    amm.mint(pool_id, 1_020_100, 10_000).unwrap();
    assert_eq!(
        amm.swap(pool_id, 0, 10_001, 1000, 0),
        Err(AmmError::InsufficientLiquidity)
    );
    // requesting exactly the whole reserve passes the reserve check but
    // cannot keep the product from collapsing
    assert_eq!(
        amm.swap(pool_id, 0, 10_000, 1000, 0),
        Err(AmmError::CurveInvariantViolation)
    );
}

#[test]
fn swap_both_sides_out() {
    // both outputs non-zero in one trade is unusual but valid when the
    // invariant check passes
    let mut amm = setup();
    let pool_id = make_pool(&mut amm, false);
    amm.mint(pool_id, 1_020_100, 10_000).unwrap();
    amm.swap(pool_id, 78, 9, 1000, 0).unwrap();
    let meta = amm.pool_metadata(&pool_id).unwrap();
    assert_eq!(meta.reserve_0, 1_020_100 + 1000 - 78);
    assert_eq!(meta.reserve_1, 10_000 - 9);
}

#[test]
fn fees_are_returned_as_configured() {
    let amm = setup();
    assert_eq!(amm.fees(), (30, 5, 0, 0));
    assert_eq!(amm.id(), amm_contract());
}

#[test]
fn volatile_product_never_decreases_across_swaps() {
    let mut amm = setup();
    let pool_id = make_pool(&mut amm, false);
    amm.mint(pool_id, 1_020_100, 10_000).unwrap();
    let meta = amm.pool_metadata(&pool_id).unwrap();
    let mut product = meta.reserve_0 as u128 * meta.reserve_1 as u128;
    // a few swaps in both directions
    let swaps = [
        (78u64, 0u64, 1000u64, 0u64),
        (0, 9, 1000, 0),
        (48_000, 0, 0, 500),
        (30, 2, 5000, 0),
    ];
    for (out0, out1, in0, in1) in swaps {
        amm.swap(pool_id, out0, out1, in0, in1).unwrap();
        let meta = amm.pool_metadata(&pool_id).unwrap();
        let next = meta.reserve_0 as u128 * meta.reserve_1 as u128;
        assert!(next >= product);
        product = next;
    }
}

#[test]
fn mint_then_burn_returns_no_more_than_deposited() {
    for (d0, d1) in [(10_000u64, 10_000u64), (1_020_100, 10_000), (3_333, 7_777)] {
        let mut amm = setup();
        let pool_id = make_pool(&mut amm, false);
        amm.mint(pool_id, 1_000_000, 1_000_000).unwrap();
        let minted = amm.mint(pool_id, d0, d1).unwrap();
        let (o0, o1) = amm.burn(pool_id, minted.id, minted.amount).unwrap();
        assert!(o0 <= d0, "burn of {} returned {} of asset 0", d0, o0);
        assert!(o1 <= d1, "burn of {} returned {} of asset 1", d1, o1);
    }
    // the very first deposit additionally leaves the locked minimum behind
    let mut amm = setup();
    let pool_id = make_pool(&mut amm, false);
    let minted = amm.mint(pool_id, 1_020_100, 10_000).unwrap();
    let (o0, o1) = amm.burn(pool_id, minted.id, minted.amount).unwrap();
    assert!(o0 <= 1_020_100);
    assert!(o1 <= 10_000);
    let meta = amm.pool_metadata(&pool_id).unwrap();
    assert_eq!(meta.liquidity.amount, MINIMUM_LIQUIDITY);
    assert!(meta.reserve_0 > 0 && meta.reserve_1 > 0);
}

#[test]
fn router_quote_is_executable_on_the_pool() {
    // what the router quotes for an input is exactly what the pool's own
    // invariant check still accepts; one unit more is refused
    let mut amm = setup();
    let pool_id = make_pool(&mut amm, false);
    amm.mint(pool_id, 1_000_000, 1_000_000).unwrap();
    let quoted = 996;
    assert_eq!(
        amm.swap(pool_id, 0, quoted + 1, 1000, 0),
        Err(AmmError::CurveInvariantViolation)
    );
    amm.swap(pool_id, 0, quoted, 1000, 0).unwrap();
    let meta = amm.pool_metadata(&pool_id).unwrap();
    assert_eq!(meta.reserve_0, 1_001_000);
    assert_eq!(meta.reserve_1, 1_000_000 - quoted);
}
