//! Router quotes over pool snapshots, and the fee arithmetic they use.

use amm_core::amm::{AmmFees, Asset, PoolMetadata};
use amm_core::curve::{add_fee, get_amount_in, get_amount_out, subtract_fee};
use amm_core::errors::RouterError;
use amm_core::ids::{AssetId, PoolId};
use amm_core::math::pow_decimals;
use amm_core::router::{get_amounts_in, get_amounts_out};

fn default_fees() -> AmmFees {
    AmmFees {
        lp_fee_volatile: 30,
        lp_fee_stable: 5,
        protocol_fee_volatile: 0,
        protocol_fee_stable: 0,
    }
}

fn asset(n: u128) -> AssetId {
    AssetId { hi: 0, lo: n }
}

fn pool(a: u128, b: u128, stable: bool) -> PoolId {
    PoolId { asset_0: asset(a), asset_1: asset(b), is_stable: stable }
}

fn meta(reserve_0: u64, reserve_1: u64, decimals: u8) -> PoolMetadata {
    PoolMetadata {
        reserve_0,
        reserve_1,
        liquidity: Asset { id: asset(99), amount: 1 },
        decimals_0: decimals,
        decimals_1: decimals,
    }
}

#[test]
fn swap_between_two_volatile_tokens() {
    let fees = default_fees();
    let pool_id = pool(1, 2, false);
    let snapshot = vec![(pool_id, meta(1_000_000, 1_000_000, 9))];
    let amounts = get_amounts_out(&fees, 1000, asset(1), &vec![pool_id], &snapshot).unwrap();
    assert_eq!(amounts, vec![(1000, asset(1)), (996, asset(2))]);
}

#[test]
fn swap_between_three_volatile_tokens() {
    let fees = default_fees();
    let pool_a = pool(1, 2, false);
    let pool_b = pool(2, 3, false);
    let snapshot = vec![
        (pool_a, meta(1_000_000, 1_000_000, 9)),
        (pool_b, meta(1_000_000, 1_000_000, 9)),
    ];
    let path = vec![pool_a, pool_b];
    let amounts = get_amounts_out(&fees, 1000, asset(1), &path, &snapshot).unwrap();
    assert_eq!(
        amounts,
        vec![(1000, asset(1)), (996, asset(2)), (992, asset(3))]
    );
}

#[test]
fn amounts_out_empty_path() {
    let fees = default_fees();
    let r = get_amounts_out(&fees, 1000, asset(1), &vec![], &vec![]);
    assert_eq!(r, Err(RouterError::InvalidPath));
}

#[test]
fn amounts_out_missing_pool() {
    let fees = default_fees();
    let pool_id = pool(1, 2, false);
    let r = get_amounts_out(&fees, 1000, asset(1), &vec![pool_id], &vec![]);
    assert_eq!(r, Err(RouterError::PoolNotPresent));
}

#[test]
fn amounts_out_zero_input() {
    let fees = default_fees();
    let pool_id = pool(1, 2, false);
    let snapshot = vec![(pool_id, meta(1_000_000, 1_000_000, 9))];
    let r = get_amounts_out(&fees, 0, asset(1), &vec![pool_id], &snapshot);
    assert_eq!(r, Err(RouterError::ZeroInputAmount));
}

#[test]
fn amounts_out_stable_pool() {
    let fees = default_fees();
    let pool_id = pool(1, 2, true);
    let snapshot = vec![(pool_id, meta(1_020_100, 10_000, 9))];
    let amounts = get_amounts_out(&fees, 1000, asset(1), &vec![pool_id], &snapshot).unwrap();
    assert_eq!(amounts, vec![(1000, asset(1)), (29, asset(2))]);
}

#[test]
fn amounts_in_stable_pool() {
    let fees = default_fees();
    let pool_id = pool(1, 2, true);
    let snapshot = vec![(pool_id, meta(1_020_100, 10_000, 9))];
    let amounts = get_amounts_in(&fees, 29, asset(2), &vec![pool_id], &snapshot).unwrap();
    assert_eq!(amounts, vec![(29, asset(2)), (990, asset(1))]);
}

#[test]
fn amounts_in_empty_path() {
    let fees = default_fees();
    let r = get_amounts_in(&fees, 1000, asset(1), &vec![], &vec![]);
    assert_eq!(r, Err(RouterError::InvalidPath));
}

#[test]
fn amounts_in_zero_output() {
    let fees = default_fees();
    let pool_id = pool(1, 2, false);
    let snapshot = vec![(pool_id, meta(1_000_000, 1_000_000, 9))];
    let r = get_amounts_in(&fees, 0, asset(2), &vec![pool_id], &snapshot);
    assert_eq!(r, Err(RouterError::ZeroOutputAmount));
}

#[test]
fn amounts_in_output_exceeds_reserve() {
    let fees = default_fees();
    let pool_id = pool(1, 2, false);
    let snapshot = vec![(pool_id, meta(1_000_000, 1_000_000, 9))];
    let r = get_amounts_in(&fees, 1_000_000, asset(2), &vec![pool_id], &snapshot);
    assert_eq!(r, Err(RouterError::InvalidOutputAmount));
}

#[test]
fn quotes_are_inverse_within_one_unit_per_hop() {
    // a forward quote, quoted back over the same volatile path, returns the
    // original input to within one unit per hop
    let fees = default_fees();
    let pool_a = pool(1, 2, false);
    let pool_b = pool(2, 3, false);
    let snapshot = vec![
        (pool_a, meta(1_000_000, 1_000_000, 9)),
        (pool_b, meta(1_000_000, 1_000_000, 9)),
    ];
    let path = vec![pool_a, pool_b];
    for amount_in in [1000u64, 12_345, 250_000] {
        let out = get_amounts_out(&fees, amount_in, asset(1), &path, &snapshot).unwrap();
        let got_out = out.last().unwrap().0;
        let back = get_amounts_in(&fees, got_out, asset(3), &path, &snapshot).unwrap();
        let needed_in = back.last().unwrap().0;
        assert_eq!(back.last().unwrap().1, asset(1));
        let diff = if needed_in > amount_in {
            needed_in - amount_in
        } else {
            amount_in - needed_in
        };
        assert!(diff <= 2, "round trip for {} drifted to {}", amount_in, needed_in);
    }
}

#[test]
fn single_hop_round_trip_exact() {
    let fees = default_fees();
    let pool_id = pool(1, 2, false);
    let snapshot = vec![(pool_id, meta(1_000_000, 1_000_000, 9))];
    let path = vec![pool_id];
    let out = get_amounts_out(&fees, 1000, asset(1), &path, &snapshot).unwrap();
    assert_eq!(out.last().unwrap().0, 996);
    let back = get_amounts_in(&fees, 996, asset(2), &path, &snapshot).unwrap();
    assert_eq!(back, vec![(996, asset(2)), (1000, asset(1))]);
}

#[test]
fn get_amount_out_volatile_formula() {
    // 997 * 1_000_000 / (1_000_000 + 997) = 996
    let r = get_amount_out(false, 1_000_000, 1_000_000, pow_decimals(9), pow_decimals(9), 997);
    assert_eq!(r, Ok(996));
}

#[test]
fn get_amount_out_zero_input() {
    let r = get_amount_out(false, 1_000_000, 1_000_000, pow_decimals(9), pow_decimals(9), 0);
    assert_eq!(r, Err(RouterError::ZeroInputAmount));
}

#[test]
fn get_amount_in_volatile_formula() {
    // ceil(996 * 1_000_000 / (1_000_000 - 996)) = 997
    let r = get_amount_in(false, 1_000_000, 1_000_000, pow_decimals(9), pow_decimals(9), 996);
    assert_eq!(r, Ok(997));
}

#[test]
fn get_amount_in_rejects_draining_output() {
    let r = get_amount_in(false, 1_000_000, 1_000_000, pow_decimals(9), pow_decimals(9), 1_000_000);
    assert_eq!(r, Err(RouterError::InvalidOutputAmount));
    let r = get_amount_in(false, 1_000_000, 1_000_000, pow_decimals(9), pow_decimals(9), 0);
    assert_eq!(r, Err(RouterError::ZeroOutputAmount));
}

#[test]
fn subtract_fee_rounds_the_fee_up() {
    assert_eq!(subtract_fee(1000, 30), 997);
    assert_eq!(subtract_fee(1000, 5), 999);
    // 1 * 30 / 10_000 rounds up to a whole unit of fee
    assert_eq!(subtract_fee(1, 30), 0);
    assert_eq!(subtract_fee(0, 30), 0);
    assert_eq!(subtract_fee(1000, 0), 1000);
}

#[test]
fn add_fee_rounds_the_fee_up() {
    // 989 * 5 / 9995 rounds up to 1
    assert_eq!(add_fee(989, 5), 990);
    // 997 * 30 / 9970 = 3 exactly
    assert_eq!(add_fee(997, 30), 1000);
    assert_eq!(add_fee(0, 30), 0);
    // grossing up then withholding the nominal fee never loses value
    for amount in [1u64, 7, 996, 12_345] {
        for fee in [1u64, 5, 30, 100] {
            assert!(subtract_fee(add_fee(amount, fee), fee) >= amount);
        }
    }
}

#[test]
fn stable_solver_sweep_is_total_and_bounded() {
    // across reserve ratios and decimals combinations the stable quote
    // either answers with an amount the reserve can pay, or reports the
    // solver's failure; it never diverges within the iteration bound
    let reserves: [(u64, u64); 6] = [
        (1_000_000, 1_000_000),
        (1_020_100, 10_000),
        (5000, 4_000_000),
        (123_456_789, 987_654_321),
        (1_000_000_000_000, 1_000_000_000_000),
        (2000, 2000),
    ];
    let decimals: [(u8, u8); 6] = [(9, 9), (6, 9), (0, 0), (18, 18), (9, 6), (0, 18)];
    for (rin, rout) in reserves {
        for (din, dout) in decimals {
            for amount in [1u64, 1000, 123_456] {
                let net = subtract_fee(amount, 5);
                if net == 0 {
                    continue;
                }
                let r = get_amount_out(true, rin, rout, pow_decimals(din), pow_decimals(dout), net);
                match r {
                    Ok(q) => assert!(q <= rout),
                    Err(e) => assert_eq!(e, RouterError::GetYFailed),
                }
            }
        }
    }
}
