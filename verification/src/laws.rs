//! Laws of the engine, stated and proved against the contracts of the
//! operations themselves.

use vstd::prelude::*;
use vstd::arithmetic::div_mod::{lemma_div_is_ordered, lemma_div_multiples_vanish_fancy, lemma_fundamental_div_mod, lemma_multiply_divide_le};
use vstd::arithmetic::mul::{lemma_mul_inequality, lemma_mul_nonnegative};
use crate::amm::{
    AmmFees, MINIMUM_LIQUIDITY, PoolMetadata, spec_after_mint, spec_after_swap, spec_burn_out,
    spec_mint_amount, spec_swap_ok, spec_total_fee,
};
use crate::curve::{lemma_fee_to_subtract_bounds, spec_fee_to_add, spec_fee_to_subtract};
use crate::ids::{AssetId, PoolId};
use crate::math::{is_sqrt, lemma_sqrt_exists, lemma_sqrt_unique, spec_isqrt};
use crate::curve::{spec_get_amount_in};
use crate::math::pow10;
use crate::router::{fees_wf, spec_hop_in, spec_hop_out};

verus! {

/// Pool state `q` is reachable from `p` by one successful swap: some
/// requested outputs within the reserves and some funding deposits pass the
/// post-fee invariant check, and `q` holds the resulting balances.
pub open spec fn swap_step(fees: AmmFees, id: PoolId, p: PoolMetadata, q: PoolMetadata) -> bool {
    exists|o0: u64, o1: u64, d0: u64, d1: u64|
        {
            &&& o0 <= p.reserve_0
            &&& o1 <= p.reserve_1
            &&& p.reserve_0 - o0 + d0 <= u64::MAX
            &&& p.reserve_1 - o1 + d1 <= u64::MAX
            &&& #[trigger] spec_swap_ok(fees, id, p, o0 as int, o1 as int, d0 as int, d1 as int)
            &&& q == spec_after_swap(p, o0, o1, d0, d1)
        }
}

/// One successful swap on a volatile pool never decreases the product of
/// the reserves: the fee-adjusted balances already beat the old product,
/// and the true balances are no smaller than the adjusted ones.
pub proof fn lemma_volatile_swap_product(
    fees: AmmFees,
    id: PoolId,
    p: PoolMetadata,
    o0: u64,
    o1: u64,
    d0: u64,
    d1: u64,
)
    requires
        !id.is_stable,
        fees_wf(fees),
        o0 <= p.reserve_0,
        o1 <= p.reserve_1,
        p.reserve_0 - o0 + d0 <= u64::MAX,
        p.reserve_1 - o1 + d1 <= u64::MAX,
        spec_swap_ok(fees, id, p, o0 as int, o1 as int, d0 as int, d1 as int),
    ensures
        (spec_after_swap(p, o0, o1, d0, d1).reserve_0 as int) * (spec_after_swap(
            p,
            o0,
            o1,
            d0,
            d1,
        ).reserve_1 as int) >= (p.reserve_0 as int) * (p.reserve_1 as int),
{
    let fee = spec_total_fee(fees, id.is_stable);
    let b0 = p.reserve_0 - o0 + d0;
    let b1 = p.reserve_1 - o1 + d1;
    let b0a = b0 - spec_fee_to_subtract(d0 as int, fee);
    let b1a = b1 - spec_fee_to_subtract(d1 as int, fee);
    lemma_fee_to_subtract_bounds(d0 as int, fee);
    lemma_fee_to_subtract_bounds(d1 as int, fee);
    assert(0 <= b0a <= b0);
    assert(0 <= b1a <= b1);
    lemma_mul_inequality(b0a, b0, b1a);
    lemma_mul_inequality(b1a, b1, b0);
    assert(b0a * b1a <= b0 * b1) by (nonlinear_arith)
        requires
            0 <= b0a <= b0,
            0 <= b1a <= b1,
    ;
}

/// Across any sequence of successful swaps on a volatile pool, the product
/// of the reserves never decreases.
pub proof fn lemma_volatile_swaps_product_nondecreasing(
    fees: AmmFees,
    id: PoolId,
    states: Seq<PoolMetadata>,
)
    requires
        !id.is_stable,
        fees_wf(fees),
        states.len() >= 1,
        forall|i: int|
            0 <= i < states.len() - 1 ==> #[trigger] swap_step(fees, id, states[i], states[i + 1]),
    ensures
        (states.last().reserve_0 as int) * (states.last().reserve_1 as int) >= (
        states.first().reserve_0 as int) * (states.first().reserve_1 as int),
    decreases states.len(),
{
    if states.len() == 1 {
    } else {
        let front = states.drop_last();
        assert forall|i: int| 0 <= i < front.len() - 1 implies #[trigger] swap_step(
            fees,
            id,
            front[i],
            front[i + 1],
        ) by {
            assert(swap_step(fees, id, states[i], states[i + 1]));
        }
        lemma_volatile_swaps_product_nondecreasing(fees, id, front);
        let n = states.len() as int;
        assert(swap_step(fees, id, states[n - 2], states[(n - 2) + 1]));
        let (o0, o1, d0, d1) = choose|o0: u64, o1: u64, d0: u64, d1: u64|
            {
                &&& o0 <= states[n - 2].reserve_0
                &&& o1 <= states[n - 2].reserve_1
                &&& states[n - 2].reserve_0 - o0 + d0 <= u64::MAX
                &&& states[n - 2].reserve_1 - o1 + d1 <= u64::MAX
                &&& #[trigger] spec_swap_ok(
                    fees,
                    id,
                    states[n - 2],
                    o0 as int,
                    o1 as int,
                    d0 as int,
                    d1 as int,
                )
                &&& states[n - 1] == spec_after_swap(states[n - 2], o0, o1, d0, d1)
            };
        lemma_volatile_swap_product(fees, id, states[n - 2], o0, o1, d0, d1);
        assert(front.last() == states[n - 2]);
        assert(front.first() == states.first());
    }
}

/// A successful `swap` call is one `swap_step`: the states a well-formed
/// engine moves a volatile pool through are exactly the states the
/// product-monotonicity law ranges over.
pub proof fn lemma_swap_is_swap_step(
    fees: AmmFees,
    id: PoolId,
    p: PoolMetadata,
    amount_0_out: u64,
    amount_1_out: u64,
    deposit_0: u64,
    deposit_1: u64,
)
    requires
        amount_0_out <= p.reserve_0,
        amount_1_out <= p.reserve_1,
        p.reserve_0 - amount_0_out + deposit_0 <= u64::MAX,
        p.reserve_1 - amount_1_out + deposit_1 <= u64::MAX,
        spec_swap_ok(
            fees,
            id,
            p,
            amount_0_out as int,
            amount_1_out as int,
            deposit_0 as int,
            deposit_1 as int,
        ),
    ensures
        swap_step(fees, id, p, spec_after_swap(p, amount_0_out, amount_1_out, deposit_0, deposit_1)),
{
    let q = spec_after_swap(p, amount_0_out, amount_1_out, deposit_0, deposit_1);
    assert({
        &&& amount_0_out <= p.reserve_0
        &&& amount_1_out <= p.reserve_1
        &&& p.reserve_0 - amount_0_out + deposit_0 <= u64::MAX
        &&& p.reserve_1 - amount_1_out + deposit_1 <= u64::MAX
        &&& spec_swap_ok(
            fees,
            id,
            p,
            amount_0_out as int,
            amount_1_out as int,
            deposit_0 as int,
            deposit_1 as int,
        )
        &&& q == spec_after_swap(p, amount_0_out, amount_1_out, deposit_0, deposit_1)
    });
}

/// Minting against a pool and immediately burning everything that mint
/// issued pays back at most the amounts deposited: every rounding step
/// favors the pool, and on a first deposit the locked minimum stays behind
/// on top of that.
pub proof fn lemma_mint_burn_returns_no_more(p: PoolMetadata, d0: u64, d1: u64)
    requires
        p.liquidity.amount > 0 ==> p.reserve_0 > 0 && p.reserve_1 > 0,
        p.liquidity.amount == 0 ==> p.reserve_0 == 0 && p.reserve_1 == 0 && spec_isqrt(
            (d0 * d1) as nat,
        ) > MINIMUM_LIQUIDITY,
        p.reserve_0 + d0 <= u64::MAX,
        p.reserve_1 + d1 <= u64::MAX,
        p.liquidity.amount + spec_mint_amount(p, d0 as int, d1 as int) <= u64::MAX,
    ensures
        spec_burn_out(
            spec_after_mint(p, d0, d1),
            spec_mint_amount(p, d0 as int, d1 as int),
        ).0 <= d0,
        spec_burn_out(
            spec_after_mint(p, d0, d1),
            spec_mint_amount(p, d0 as int, d1 as int),
        ).1 <= d1,
{
    let m = spec_mint_amount(p, d0 as int, d1 as int);
    let p2 = spec_after_mint(p, d0, d1);
    if p.liquidity.amount == 0 {
        let root = spec_isqrt((d0 * d1) as nat) as int;
        lemma_sqrt_exists((d0 * d1) as nat);
        let w = choose|r: nat| #[trigger] is_sqrt((d0 * d1) as nat, r);
        lemma_sqrt_unique((d0 * d1) as nat, w, spec_isqrt((d0 * d1) as nat));
        // root^2 <= d0*d1 <= max^2, so root itself is a ledger amount
        assert(root * root <= (d0 as int) * (d1 as int));
        assert(root <= u64::MAX) by (nonlinear_arith)
            requires
                root >= 0,
                root * root <= (d0 as int) * (d1 as int),
                d0 <= u64::MAX,
                d1 <= u64::MAX,
        ;
        assert(m == root - MINIMUM_LIQUIDITY);
        assert(p2.liquidity.amount == root);
        assert(p2.reserve_0 == d0 && p2.reserve_1 == d1);
        // m * d0 <= root * d0, so the floored share is at most d0
        lemma_mul_inequality(m, root, d0 as int);
        lemma_multiply_divide_le(m * (d0 as int), root, d0 as int);
        lemma_mul_inequality(m, root, d1 as int);
        lemma_multiply_divide_le(m * (d1 as int), root, d1 as int);
        assert(root * (d0 as int) == (d0 as int) * root) by (nonlinear_arith);
        assert(root * (d1 as int) == (d1 as int) * root) by (nonlinear_arith);
    } else {
        let ll = p.liquidity.amount as int;
        let r0 = p.reserve_0 as int;
        let r1 = p.reserve_1 as int;
        let l0 = (d0 as int) * ll / r0;
        let l1 = (d1 as int) * ll / r1;
        assert(m <= l0 && m <= l1);
        assert(m >= 0) by {
            lemma_mul_nonnegative(d0 as int, ll);
            lemma_mul_nonnegative(d1 as int, ll);
            vstd::arithmetic::div_mod::lemma_div_pos_is_pos((d0 as int) * ll, r0);
            vstd::arithmetic::div_mod::lemma_div_pos_is_pos((d1 as int) * ll, r1);
        }
        // the limiting share never exceeds its deposit's value: m * r0 <= d0 * ll
        assert(m * r0 <= (d0 as int) * ll) by {
            lemma_fundamental_div_mod((d0 as int) * ll, r0);
            assert(m * r0 <= l0 * r0) by (nonlinear_arith)
                requires
                    m <= l0,
                    r0 > 0,
            ;
            assert(l0 * r0 <= (d0 as int) * ll) by (nonlinear_arith)
                requires
                    (d0 as int) * ll == r0 * l0 + ((d0 as int) * ll) % r0,
                    ((d0 as int) * ll) % r0 >= 0,
            ;
        }
        assert(m * r1 <= (d1 as int) * ll) by {
            lemma_fundamental_div_mod((d1 as int) * ll, r1);
            assert(m * r1 <= l1 * r1) by (nonlinear_arith)
                requires
                    m <= l1,
                    r1 > 0,
            ;
            assert(l1 * r1 <= (d1 as int) * ll) by (nonlinear_arith)
                requires
                    (d1 as int) * ll == r1 * l1 + ((d1 as int) * ll) % r1,
                    ((d1 as int) * ll) % r1 >= 0,
            ;
        }
        // hence m * (r0 + d0) <= d0 * (ll + m), and the floored share is at
        // most d0; the same on the other side
        assert(m * (r0 + d0) <= (d0 as int) * (ll + m)) by (nonlinear_arith)
            requires
                m * r0 <= (d0 as int) * ll,
                m >= 0,
                d0 >= 0,
        ;
        assert(m * (r1 + d1) <= (d1 as int) * (ll + m)) by (nonlinear_arith)
            requires
                m * r1 <= (d1 as int) * ll,
                m >= 0,
                d1 >= 0,
        ;
        assert(p2.liquidity.amount == ll + m);
        assert(p2.reserve_0 == r0 + d0 && p2.reserve_1 == r1 + d1);
        assert((ll + m) * (d0 as int) == (d0 as int) * (ll + m)) by (nonlinear_arith);
        assert((ll + m) * (d1 as int) == (d1 as int) * (ll + m)) by (nonlinear_arith);
        lemma_multiply_divide_le(m * (r0 + d0), ll + m, d0 as int);
        lemma_multiply_divide_le(m * (r1 + d1), ll + m, d1 as int);
    }
}

/// Grossing the nominal fee up on top of a fee-reduced amount never exceeds
/// the original amount: the two roundings cancel in the pool's favor.
pub proof fn lemma_fee_round_trip_le(x: int, fee: int)
    requires
        0 <= x,
        0 <= fee <= 9_999,
    ensures
        ({
            let n = x - spec_fee_to_subtract(x, fee);
            n + spec_fee_to_add(n, fee) <= x
        }),
{
    let phi = spec_fee_to_subtract(x, fee);
    let n = x - phi;
    lemma_fee_to_subtract_bounds(x, fee);
    // phi * 10^4 >= x * fee, since phi is the fee rounded up
    assert(10_000 * phi >= x * fee) by {
        lemma_fundamental_div_mod(x * fee + 9_999, 10_000);
        assert((x * fee + 9_999) % 10_000 < 10_000) by {
            vstd::arithmetic::div_mod::lemma_mod_division_less_than_divisor(
                x * fee + 9_999,
                10_000,
            );
            lemma_mul_nonnegative(x, fee);
            vstd::arithmetic::div_mod::lemma_mod_decreases((x * fee + 9_999) as nat, 10_000);
        }
    }
    // hence n * fee <= phi * (10^4 - fee), so the grossed-up fee is at most phi
    assert(n * fee <= phi * (10_000 - fee)) by (nonlinear_arith)
        requires
            n == x - phi,
            10_000 * phi >= x * fee,
            0 <= fee <= 9_999,
            phi >= 0,
    ;
    assert(spec_fee_to_add(n, fee) <= phi) by {
        lemma_mul_nonnegative(n, fee);
        lemma_div_is_ordered(
            n * fee + (10_000 - fee) - 1,
            phi * (10_000 - fee) + (10_000 - fee) - 1,
            10_000 - fee,
        );
        lemma_div_multiples_vanish_fancy(phi, 10_000 - fee - 1, 10_000 - fee);
        assert(phi * (10_000 - fee) == (10_000 - fee) * phi) by (nonlinear_arith);
    }
}

/// On a volatile hop, a forward quote followed by a backward quote of the
/// quoted output never charges more than the original input: the floor on
/// the way out and the ceilings on the way back all favor the pool, never
/// the trader.
pub proof fn lemma_volatile_round_trip_le(reserve_in: int, reserve_out: int, fee: int, x: int)
    requires
        0 <= reserve_in,
        0 < reserve_out,
        0 <= fee <= 9_999,
        0 < x,
        0 < x - spec_fee_to_subtract(x, fee),
        ({
            let n = x - spec_fee_to_subtract(x, fee);
            let out = n * reserve_out / (reserve_in + n);
            0 < out < reserve_out
        }),
    ensures
        ({
            let n = x - spec_fee_to_subtract(x, fee);
            let out = n * reserve_out / (reserve_in + n);
            let vin = crate::math::ceil_div(out * reserve_in, reserve_out - out);
            vin + spec_fee_to_add(vin, fee) <= x
        }),
{
    let phi = spec_fee_to_subtract(x, fee);
    let n = x - phi;
    lemma_fee_to_subtract_bounds(x, fee);
    let out = n * reserve_out / (reserve_in + n);
    let vin = crate::math::ceil_div(out * reserve_in, reserve_out - out);
    // the floored output satisfies out * (reserve_in + n) <= n * reserve_out
    assert(out * (reserve_in + n) <= n * reserve_out) by {
        lemma_fundamental_div_mod(n * reserve_out, reserve_in + n);
        vstd::arithmetic::div_mod::lemma_mod_division_less_than_divisor(
            n * reserve_out,
            reserve_in + n,
        );
        lemma_mul_nonnegative(n, reserve_out);
        vstd::arithmetic::div_mod::lemma_div_pos_is_pos(n * reserve_out, reserve_in + n);
        assert((reserve_in + n) * out <= n * reserve_out ==> out * (reserve_in + n) <= n
            * reserve_out) by (nonlinear_arith);
    }
    // rearranged: out * reserve_in <= n * (reserve_out - out)
    assert(out * reserve_in <= n * (reserve_out - out)) by (nonlinear_arith)
        requires
            out * (reserve_in + n) <= n * reserve_out,
    ;
    // so the backward ceiling is at most n
    assert(vin <= n) by {
        lemma_mul_nonnegative(out, reserve_in);
        lemma_div_is_ordered(
            out * reserve_in + (reserve_out - out) - 1,
            n * (reserve_out - out) + (reserve_out - out) - 1,
            reserve_out - out,
        );
        lemma_div_multiples_vanish_fancy(n, reserve_out - out - 1, reserve_out - out);
        assert(n * (reserve_out - out) == (reserve_out - out) * n) by (nonlinear_arith);
    }
    // vin >= 0
    assert(0 <= vin) by {
        lemma_mul_nonnegative(out, reserve_in);
        vstd::arithmetic::div_mod::lemma_div_pos_is_pos(
            out * reserve_in + (reserve_out - out) - 1,
            reserve_out - out,
        );
    }
    // grossing the fee back up on at most n stays at most x
    lemma_fee_round_trip_le(x, fee);
    assert(vin * fee <= n * fee) by (nonlinear_arith)
        requires
            0 <= vin <= n,
            fee >= 0,
    ;
    lemma_div_is_ordered(
        vin * fee + (10_000 - fee) - 1,
        n * fee + (10_000 - fee) - 1,
        10_000 - fee,
    );
}

/// Withholding the nominal fee from a grossed-up amount still covers the
/// original amount: a trader quoted with the fee added on top never
/// under-pays through rounding.
pub proof fn lemma_fee_gross_up_covers(x: int, fee: int)
    requires
        0 <= x,
        0 <= fee <= 9_999,
    ensures
        ({
            let total = x + spec_fee_to_add(x, fee);
            total - spec_fee_to_subtract(total, fee) >= x
        }),
{
    let g = spec_fee_to_add(x, fee);
    let total = x + g;
    // g * (10^4 - fee) >= x * fee, since g is the grossed fee rounded up
    assert((10_000 - fee) * g >= x * fee) by {
        lemma_fundamental_div_mod(x * fee + (10_000 - fee) - 1, 10_000 - fee);
        vstd::arithmetic::div_mod::lemma_mod_division_less_than_divisor(
            x * fee + (10_000 - fee) - 1,
            10_000 - fee,
        );
        lemma_mul_nonnegative(x, fee);
        vstd::arithmetic::div_mod::lemma_div_pos_is_pos(
            x * fee + (10_000 - fee) - 1,
            10_000 - fee,
        );
    }
    // hence (x + g) * fee <= g * 10^4, so the withheld fee is at most g
    assert(total * fee <= g * 10_000) by (nonlinear_arith)
        requires
            total == x + g,
            (10_000 - fee) * g >= x * fee,
            0 <= fee <= 9_999,
            g >= 0,
    ;
    assert(spec_fee_to_subtract(total, fee) <= g) by {
        lemma_mul_nonnegative(total, fee);
        lemma_div_is_ordered(total * fee + 9_999, g * 10_000 + 9_999, 10_000);
        lemma_div_multiples_vanish_fancy(g, 9_999, 10_000);
        assert(g * 10_000 == 10_000 * g) by (nonlinear_arith);
    }
}

/// One direction of quote inversion on a volatile hop, over the router's
/// own hop functions: when a forward quote pays out something that leaves
/// the paying reserve non-empty, the backward quote of exactly that output
/// succeeds, names the original input asset, and never charges more than
/// the original input.  (The other direction fails on extreme reserve
/// ratios, where a unit of rounding on one side is worth many on the
/// other.)
pub proof fn lemma_volatile_hop_round_trip(
    fees: AmmFees,
    pool_id: PoolId,
    p: PoolMetadata,
    x: int,
    asset_in: AssetId,
)
    requires
        !pool_id.is_stable,
        fees_wf(fees),
        pool_id.asset_0 != pool_id.asset_1,
        asset_in == pool_id.asset_0 || asset_in == pool_id.asset_1,
        0 < x <= u64::MAX,
        ({
            &&& spec_hop_out(fees, pool_id, p, x, asset_in) matches Ok(next)
            &&& 0 < next.0 < (if asset_in == pool_id.asset_0 {
                p.reserve_1 as int
            } else {
                p.reserve_0 as int
            })
        }),
    ensures
        ({
            &&& spec_hop_out(fees, pool_id, p, x, asset_in) matches Ok(next)
            &&& spec_hop_in(fees, pool_id, p, next.0, next.1) matches Ok(back)
            &&& back.0 <= x
            &&& back.1 == asset_in
        }),
{
    let fee = spec_total_fee(fees, pool_id.is_stable);
    let net = x - spec_fee_to_subtract(x, fee);
    let reserve_in = if asset_in == pool_id.asset_0 {
        p.reserve_0 as int
    } else {
        p.reserve_1 as int
    };
    let reserve_out = if asset_in == pool_id.asset_0 {
        p.reserve_1 as int
    } else {
        p.reserve_0 as int
    };
    let next = spec_hop_out(fees, pool_id, p, x, asset_in)->Ok_0;
    let out = next.0;
    // the forward quote succeeded, so the net input was positive
    assert(net > 0);
    assert(out == net * reserve_out / (reserve_in + net));
    assert(reserve_in >= 0);
    assert(reserve_out > 0);
    let vin = crate::math::ceil_div(out * reserve_in, reserve_out - out);
    lemma_fee_to_subtract_bounds(x, fee);
    lemma_volatile_round_trip_le(reserve_in, reserve_out, fee, x);
    assert(vin + spec_fee_to_add(vin, fee) <= x);
    assert(0 <= vin) by {
        lemma_mul_nonnegative(out, reserve_in);
        vstd::arithmetic::div_mod::lemma_div_pos_is_pos(
            out * reserve_in + (reserve_out - out) - 1,
            reserve_out - out,
        );
    }
    assert(0 <= spec_fee_to_add(vin, fee)) by {
        lemma_mul_nonnegative(vin, fee);
        vstd::arithmetic::div_mod::lemma_div_pos_is_pos(
            vin * fee + (10_000 - fee) - 1,
            10_000 - fee,
        );
    }
    assert(spec_get_amount_in(
        false,
        reserve_in,
        reserve_out,
        pow10(p.decimals_0 as nat) as int,
        pow10(p.decimals_1 as nat) as int,
        out,
    ) == Ok::<int, crate::errors::RouterError>(vin));
    assert(spec_get_amount_in(
        false,
        reserve_in,
        reserve_out,
        pow10(p.decimals_1 as nat) as int,
        pow10(p.decimals_0 as nat) as int,
        out,
    ) == Ok::<int, crate::errors::RouterError>(vin));
}

/// The other composition order on a volatile hop: a trader who supplies the
/// backward-quoted input, fee included, is forward-quoted at least the
/// output they asked for.  The ceilings on the way in and the floor on the
/// way out cannot eat into the requested amount.
pub proof fn lemma_volatile_quote_covers_output(reserve_in: int, reserve_out: int, fee: int, y: int)
    requires
        0 < reserve_in,
        0 < y < reserve_out,
        0 <= fee <= 9_999,
    ensures
        ({
            let vin = crate::math::ceil_div(y * reserve_in, reserve_out - y);
            let total = vin + spec_fee_to_add(vin, fee);
            let net = total - spec_fee_to_subtract(total, fee);
            net * reserve_out / (reserve_in + net) >= y
        }),
{
    let vin = crate::math::ceil_div(y * reserve_in, reserve_out - y);
    let total = vin + spec_fee_to_add(vin, fee);
    let net = total - spec_fee_to_subtract(total, fee);
    // the ceiling covers the exact requirement: vin * (reserve_out - y) >= y * reserve_in
    assert(vin * (reserve_out - y) >= y * reserve_in) by {
        lemma_fundamental_div_mod(y * reserve_in + (reserve_out - y) - 1, reserve_out - y);
        vstd::arithmetic::div_mod::lemma_mod_division_less_than_divisor(
            y * reserve_in + (reserve_out - y) - 1,
            reserve_out - y,
        );
    }
    assert(0 <= vin) by {
        lemma_mul_nonnegative(y, reserve_in);
        vstd::arithmetic::div_mod::lemma_div_pos_is_pos(
            y * reserve_in + (reserve_out - y) - 1,
            reserve_out - y,
        );
    }
    // withholding the fee from the grossed-up total leaves at least vin
    lemma_fee_gross_up_covers(vin, fee);
    assert(net >= vin);
    lemma_fee_to_subtract_bounds(total, fee);
    // vin * reserve_out >= y * (reserve_in + vin), so the floored quote is at least y
    assert(vin * reserve_out >= y * (reserve_in + vin)) by (nonlinear_arith)
        requires
            vin * (reserve_out - y) >= y * reserve_in,
    ;
    // and the quote only grows with the input
    assert(net * reserve_out >= y * (reserve_in + net)) by (nonlinear_arith)
        requires
            vin * reserve_out >= y * (reserve_in + vin),
            net >= vin,
            0 < y < reserve_out,
    ;
    assert(net * reserve_out / (reserve_in + net) >= y) by {
        assert(reserve_in + net > 0);
        assert((reserve_in + net) * y <= net * reserve_out) by (nonlinear_arith)
            requires
                net * reserve_out >= y * (reserve_in + net),
        ;
        vstd::arithmetic::div_mod::lemma_div_multiples_vanish_fancy(y, 0, reserve_in + net);
        lemma_div_is_ordered((reserve_in + net) * y, net * reserve_out, reserve_in + net);
    }
}

} // verus!
