//! The pricing curves and the fee model.  The volatile curve is the constant
//! product; the stable curve works on reserves normalized to 18 decimals and
//! is solved by bounded Newton iteration.  Fees are basis points of a trade,
//! always rounded against the trader.

use vstd::prelude::*;
use vstd::arithmetic::div_mod::{
    lemma_div_basics_2,
    lemma_div_is_ordered,
    lemma_div_is_ordered_by_denominator,
    lemma_div_multiples_vanish_fancy,
    lemma_fundamental_div_mod,
};
use vstd::arithmetic::mul::{lemma_mul_inequality, lemma_mul_upper_bound};
use crate::math::{ceil_div, rounding_up_division};
use crate::errors::RouterError;
use crate::wide::{Wide, wide_max, wide_checked_mul, wide_div};

verus! {

/// Fee rates are parts of this denominator: basis points.
pub const BASIS_POINTS: u64 = 10_000;

/// The fixed-point scale the stable curve normalizes reserves to.
pub const ONE_E_18: u64 = 1_000_000_000_000_000_000;

/// The fee withheld from an amount entering a pool, rounded up.
pub open spec fn spec_fee_to_subtract(amount: int, fee_bp: int) -> int {
    ceil_div(amount * fee_bp, 10_000)
}

/// The fee grossed up on top of a required input, rounded up.
pub open spec fn spec_fee_to_add(amount: int, fee_bp: int) -> int {
    ceil_div(amount * fee_bp, 10_000 - fee_bp)
}

/// Ceiling division grows no faster than its nominator.
proof fn lemma_ceil_div_ordered(a: int, b: int, d: int)
    requires
        0 <= a <= b,
        0 < d,
    ensures
        ceil_div(a, d) <= ceil_div(b, d),
{
    lemma_div_is_ordered(a + d - 1, b + d - 1, d);
}

/// The withheld fee is never negative and never exceeds the amount, for any
/// rate within the basis-point denominator.
pub proof fn lemma_fee_to_subtract_bounds(amount: int, fee_bp: int)
    requires
        0 <= amount,
        0 <= fee_bp <= 10_000,
    ensures
        0 <= spec_fee_to_subtract(amount, fee_bp) <= amount,
{
    vstd::arithmetic::mul::lemma_mul_nonnegative(amount, fee_bp);
    lemma_div_is_ordered(0, amount * fee_bp + 9_999, 10_000);
    assert(amount * fee_bp <= amount * 10_000) by (nonlinear_arith)
        requires
            0 <= amount,
            fee_bp <= 10_000,
    ;
    lemma_ceil_div_ordered(amount * fee_bp, amount * 10_000, 10_000);
    lemma_div_multiples_vanish_fancy(amount, 9_999, 10_000);
    assert(amount * 10_000 == 10_000 * amount) by (nonlinear_arith);
}

/// The fee withheld from `amount` at `fee_bp` basis points.
pub fn calculate_fee_to_subtract(amount: u64, fee_bp: u64) -> (r: u64)
    requires
        fee_bp <= 10_000,
    ensures
        r == spec_fee_to_subtract(amount as int, fee_bp as int),
        r <= amount,
{
    proof {
        lemma_mul_upper_bound(amount as int, u64::MAX as int, fee_bp as int, 10_000);
    }
    let nominator = amount as u128 * fee_bp as u128;
    let fee = rounding_up_division(nominator, BASIS_POINTS as u128);
    proof {
        assert(amount as int * fee_bp as int <= amount as int * 10_000) by (nonlinear_arith)
            requires
                0 <= amount as int,
                fee_bp as int <= 10_000,
        ;
        lemma_ceil_div_ordered(nominator as int, amount as int * 10_000, 10_000);
        lemma_div_multiples_vanish_fancy(amount as int, 9_999, 10_000);
        assert(amount as int * 10_000 == 10_000 * amount as int) by (nonlinear_arith);
    }
    fee as u64
}

/// The amount left after the fee is withheld.
pub fn subtract_fee(amount: u64, fee: u64) -> (r: u64)
    requires
        fee <= 10_000,
    ensures
        r == amount - spec_fee_to_subtract(amount as int, fee as int),
        r <= amount,
{
    amount - calculate_fee_to_subtract(amount, fee)
}

/// The fee grossed up on top of `amount` at `fee_bp` basis points, so that
/// withholding the nominal fee from the grossed-up value still covers
/// `amount`.
pub fn calculate_fee_to_add(amount: u64, fee_bp: u64) -> (r: u64)
    requires
        fee_bp < 10_000,
        spec_fee_to_add(amount as int, fee_bp as int) <= u64::MAX,
    ensures
        r == spec_fee_to_add(amount as int, fee_bp as int),
{
    proof {
        lemma_mul_upper_bound(amount as int, u64::MAX as int, fee_bp as int, 10_000);
    }
    let nominator = amount as u128 * fee_bp as u128;
    let denominator = (BASIS_POINTS - fee_bp) as u128;
    let fee = rounding_up_division(nominator, denominator);
    fee as u64
}

/// The amount a trader must supply so that the pool keeps `amount` after
/// fees.
pub fn add_fee(amount: u64, fee: u64) -> (r: u64)
    requires
        fee < 10_000,
        amount + spec_fee_to_add(amount as int, fee as int) <= u64::MAX,
    ensures
        r == amount + spec_fee_to_add(amount as int, fee as int),
{
    proof {
        if amount > 0 {
            lemma_div_is_ordered(0, amount as int * fee as int + (10_000 - fee) - 1, 10_000 - fee);
        } else {
            lemma_div_is_ordered(0, (10_000 - fee) - 1, 10_000 - fee);
            assert(0int * fee as int == 0) by (nonlinear_arith);
        }
        vstd::arithmetic::mul::lemma_mul_nonnegative(amount as int, fee as int);
    }
    amount + calculate_fee_to_add(amount, fee)
}

/// 10^18 as an integer, the stable normalization scale.
pub open spec fn e18() -> int {
    1_000_000_000_000_000_000
}

/// A reserve normalized to 18 decimals: `amount * 10^18 / 10^decimals`.
pub open spec fn spec_adjust(amount: int, pd: int) -> int {
    amount * e18() / pd
}

/// Normalizes an amount to the 18-decimal fixed-point scale.
pub fn adjust(amount: u64, pow_decimals: u64) -> (r: u128)
    requires
        pow_decimals >= 1,
    ensures
        r == spec_adjust(amount as int, pow_decimals as int),
        r <= amount as int * e18(),
        r <= u64::MAX as int * e18(),
{
    proof {
        lemma_mul_upper_bound(amount as int, u64::MAX as int, ONE_E_18 as int, ONE_E_18 as int);
    }
    let scaled = amount as u128 * ONE_E_18 as u128;
    let r = scaled / pow_decimals as u128;
    proof {
        lemma_div_is_ordered_by_denominator(scaled as int, 1, pow_decimals as int);
        lemma_div_basics_2(scaled as int);
        lemma_mul_inequality(amount as int, u64::MAX as int, ONE_E_18 as int);
    }
    r
}

/// One side of the stable curve, `f(x0, y) = x0*y^3/1e36 + x0^3/1e36*y`, in
/// the exact evaluation and truncation order of the executable code; `None`
/// where an intermediate product leaves the 256-bit range.
#[verifier::opaque]
pub open spec fn spec_f(x0: int, y: int) -> Option<int> {
    let y2 = y * y;
    if y2 > wide_max() {
        Option::None
    } else {
        let t1 = (y2 / e18()) * y;
        if t1 > wide_max() {
            Option::None
        } else {
            let a = x0 * (t1 / e18());
            if a > wide_max() {
                Option::None
            } else {
                let x2 = x0 * x0;
                if x2 > wide_max() {
                    Option::None
                } else {
                    let t2 = (x2 / e18()) * x0;
                    if t2 > wide_max() {
                        Option::None
                    } else {
                        let b = (t2 / e18()) * y;
                        if b > wide_max() {
                            Option::None
                        } else if a + b > wide_max() {
                            Option::None
                        } else {
                            Option::Some(a + b)
                        }
                    }
                }
            }
        }
    }
}

/// The derivative-like step size of the stable solver,
/// `d(x0, y) = 3*x0*y^2/1e36 + x0^3/1e36`, in the executable order.
#[verifier::opaque]
pub open spec fn spec_d(x0: int, y: int) -> Option<int> {
    let y2 = y * y;
    if y2 > wide_max() {
        Option::None
    } else {
        let t3 = 3 * x0;
        if t3 > wide_max() {
            Option::None
        } else {
            let m = t3 * (y2 / e18());
            if m > wide_max() {
                Option::None
            } else {
                let x2 = x0 * x0;
                if x2 > wide_max() {
                    Option::None
                } else {
                    let t2 = (x2 / e18()) * x0;
                    if t2 > wide_max() {
                        Option::None
                    } else if m / e18() + t2 / e18() > wide_max() {
                        Option::None
                    } else {
                        Option::Some(m / e18() + t2 / e18())
                    }
                }
            }
        }
    }
}

/// Evaluates `spec_f` on wide values.
fn f(x0: Wide, y: Wide) -> (r: Option<Wide>)
    ensures
        match r {
            Option::Some(w) => spec_f(x0.val() as int, y.val() as int) == Option::Some(
                w.val() as int,
            ),
            Option::None => spec_f(x0.val() as int, y.val() as int) is None,
        },
{
    proof {
        reveal(spec_f);
    }
    let e = Wide::from_u64(ONE_E_18);
    let y2 = match wide_checked_mul(&y, &y) {
        Option::Some(v) => v,
        Option::None => { return Option::None; },
    };
    let t1 = match wide_checked_mul(&wide_div(&y2, &e), &y) {
        Option::Some(v) => v,
        Option::None => { return Option::None; },
    };
    let a = match wide_checked_mul(&x0, &wide_div(&t1, &e)) {
        Option::Some(v) => v,
        Option::None => { return Option::None; },
    };
    let x2 = match wide_checked_mul(&x0, &x0) {
        Option::Some(v) => v,
        Option::None => { return Option::None; },
    };
    let t2 = match wide_checked_mul(&wide_div(&x2, &e), &x0) {
        Option::Some(v) => v,
        Option::None => { return Option::None; },
    };
    let b = match wide_checked_mul(&wide_div(&t2, &e), &y) {
        Option::Some(v) => v,
        Option::None => { return Option::None; },
    };
    a.checked_add(b)
}

/// Evaluates `spec_d` on wide values.
fn d(x0: Wide, y: Wide) -> (r: Option<Wide>)
    ensures
        match r {
            Option::Some(w) => spec_d(x0.val() as int, y.val() as int) == Option::Some(
                w.val() as int,
            ),
            Option::None => spec_d(x0.val() as int, y.val() as int) is None,
        },
{
    proof {
        reveal(spec_d);
    }
    let e = Wide::from_u64(ONE_E_18);
    let three = Wide::from_u64(3);
    let y2 = match wide_checked_mul(&y, &y) {
        Option::Some(v) => v,
        Option::None => { return Option::None; },
    };
    let t3 = match wide_checked_mul(&three, &x0) {
        Option::Some(v) => v,
        Option::None => { return Option::None; },
    };
    let m = match wide_checked_mul(&t3, &wide_div(&y2, &e)) {
        Option::Some(v) => v,
        Option::None => { return Option::None; },
    };
    let x2 = match wide_checked_mul(&x0, &x0) {
        Option::Some(v) => v,
        Option::None => { return Option::None; },
    };
    let t2 = match wide_checked_mul(&wide_div(&x2, &e), &x0) {
        Option::Some(v) => v,
        Option::None => { return Option::None; },
    };
    wide_div(&m, &e).checked_add(wide_div(&t2, &e))
}

/// The stable invariant `x*y*(x^2 + y^2)` over normalized reserves, with the
/// executable truncation order; `None` where the final product leaves the
/// 256-bit range.  The intermediate products cannot, for ledger amounts.
pub open spec fn spec_stable_k(x: int, y: int, pdx: int, pdy: int) -> Option<int> {
    let xa = spec_adjust(x, pdx);
    let ya = spec_adjust(y, pdy);
    let a = xa * ya / e18();
    let b = xa * xa / e18() + ya * ya / e18();
    if a * b > wide_max() {
        Option::None
    } else {
        Option::Some(a * b)
    }
}

/// The invariant a pool's curve preserves: the plain product for the
/// volatile curve, the normalized `x*y*(x^2 + y^2)` for the stable one.
pub open spec fn spec_k(is_stable: bool, x: int, y: int, pdx: int, pdy: int) -> Option<int> {
    if is_stable {
        spec_stable_k(x, y, pdx, pdy)
    } else {
        Option::Some(x * y)
    }
}

/// Products and sums of adjusted `u64` reserves stay inside 256 bits.
proof fn lemma_adjusted_product_fits(xa: int, ya: int)
    requires
        0 <= xa <= u64::MAX as int * e18(),
        0 <= ya <= u64::MAX as int * e18(),
    ensures
        xa * ya <= wide_max(),
        xa + ya <= wide_max(),
{
    lemma_mul_upper_bound(xa, u64::MAX as int * e18(), ya, u64::MAX as int * e18());
    assert((u64::MAX as int * e18()) * (u64::MAX as int * e18()) <= wide_max()) by (nonlinear_arith);
}

/// Evaluates the curve invariant of a pool.
pub fn k(is_stable: bool, x: u64, y: u64, pow_decimals_x: u64, pow_decimals_y: u64) -> (r: Option<
    Wide,
>)
    requires
        pow_decimals_x >= 1,
        pow_decimals_y >= 1,
    ensures
        match r {
            Option::Some(w) => spec_k(
                is_stable,
                x as int,
                y as int,
                pow_decimals_x as int,
                pow_decimals_y as int,
            ) == Option::Some(w.val() as int),
            Option::None => spec_k(
                is_stable,
                x as int,
                y as int,
                pow_decimals_x as int,
                pow_decimals_y as int,
            ) is None,
        },
{
    if is_stable {
        let e = Wide::from_u64(ONE_E_18);
        let xa = adjust(x, pow_decimals_x);
        let ya = adjust(y, pow_decimals_y);
        let xw = Wide::from_u128(xa);
        let yw = Wide::from_u128(ya);
        proof {
            lemma_adjusted_product_fits(xa as int, ya as int);
            lemma_adjusted_product_fits(xa as int, xa as int);
            lemma_adjusted_product_fits(ya as int, ya as int);
        }
        let xy = match wide_checked_mul(&xw, &yw) {
            Option::Some(v) => v,
            Option::None => { return Option::None; },
        };
        let a = wide_div(&xy, &e);
        let xx = match wide_checked_mul(&xw, &xw) {
            Option::Some(v) => v,
            Option::None => { return Option::None; },
        };
        let yy = match wide_checked_mul(&yw, &yw) {
            Option::Some(v) => v,
            Option::None => { return Option::None; },
        };
        proof {
            lemma_div_is_ordered(xx.val() as int, wide_max() as int, e18());
            lemma_div_is_ordered(yy.val() as int, wide_max() as int, e18());
        }
        let b = match wide_div(&xx, &e).checked_add(wide_div(&yy, &e)) {
            Option::Some(v) => v,
            Option::None => { return Option::None; },
        };
        wide_checked_mul(&a, &b)
    } else {
        proof {
            lemma_mul_upper_bound(x as int, u64::MAX as int, y as int, u64::MAX as int);
        }
        Option::Some(Wide::from_u128(x as u128 * y as u128))
    }
}


/// The bounded Newton iteration of the stable solver.  Each step moves `y`
/// by `|xy - f(x0,y)| / d(x0,y)` toward the target invariant `xy`, stops as
/// soon as a step moves `y` by at most one unit, and after 255 steps returns
/// the last iterate.  `None` is a degenerate or out-of-domain state: a zero
/// step size, or a value outside the 256-bit range.
pub open spec fn spec_get_y(x0: int, xy: int, y: int, fuel: nat) -> Option<int>
    decreases fuel,
{
    if fuel == 0 {
        Option::Some(y)
    } else {
        match spec_f(x0, y) {
            Option::None => Option::None,
            Option::Some(fy) => match spec_d(x0, y) {
                Option::None => Option::None,
                Option::Some(dy) => {
                    if dy == 0 {
                        Option::None
                    } else if fy < xy {
                        let y_next = y + (xy - fy) / dy;
                        if y_next > wide_max() {
                            Option::None
                        } else if y_next - y <= 1 {
                            Option::Some(y_next)
                        } else {
                            spec_get_y(x0, xy, y_next, (fuel - 1) as nat)
                        }
                    } else {
                        let y_next = y - (fy - xy) / dy;
                        if y_next < 0 {
                            Option::None
                        } else if y - y_next <= 1 {
                            Option::Some(y_next)
                        } else {
                            spec_get_y(x0, xy, y_next, (fuel - 1) as nat)
                        }
                    }
                },
            },
        }
    }
}

/// Solves the stable curve for the post-trade output reserve: the `y` with
/// `f(x0, y)` closest to the target `xy`, by bounded Newton iteration.
#[verifier::rlimit(100)]
pub fn get_y(x0: Wide, xy: Wide, y_start: Wide) -> (r: Result<Wide, RouterError>)
    ensures
        match r {
            Ok(w) => spec_get_y(x0.val() as int, xy.val() as int, y_start.val() as int, 255)
                == Option::Some(w.val() as int),
            Err(e) => e == RouterError::GetYFailed && spec_get_y(
                x0.val() as int,
                xy.val() as int,
                y_start.val() as int,
                255,
            ) is None,
        },
{
    let one = Wide::from_u64(1);
    let mut y = y_start;
    let mut i: u32 = 0;
    while i < 255
        invariant
            i <= 255,
            one.val() == 1,
            spec_get_y(x0.val() as int, xy.val() as int, y.val() as int, (255 - i) as nat)
                == spec_get_y(x0.val() as int, xy.val() as int, y_start.val() as int, 255),
        decreases 255 - i,
    {
        proof {
            reveal_with_fuel(spec_get_y, 2);
        }
        let fy = match f(x0, y) {
            Option::Some(v) => v,
            Option::None => { return Err(RouterError::GetYFailed); },
        };
        let dv = match d(x0, y) {
            Option::Some(v) => v,
            Option::None => { return Err(RouterError::GetYFailed); },
        };
        if dv.is_zero() {
            return Err(RouterError::GetYFailed);
        }
        if fy.lt(xy) {
            let diff = match xy.checked_sub(fy) {
                Option::Some(v) => v,
                Option::None => { return Err(RouterError::GetYFailed); },
            };
            let dy = wide_div(&diff, &dv);
            let y_next = match y.checked_add(dy) {
                Option::Some(v) => v,
                Option::None => { return Err(RouterError::GetYFailed); },
            };
            proof {
                y_next.lemma_val_below_max();
            }
            if dy.le(one) {
                return Ok(y_next);
            }
            y = y_next;
        } else {
            let diff = match fy.checked_sub(xy) {
                Option::Some(v) => v,
                Option::None => { return Err(RouterError::GetYFailed); },
            };
            let dy = wide_div(&diff, &dv);
            let y_next = match y.checked_sub(dy) {
                Option::Some(v) => v,
                Option::None => { return Err(RouterError::GetYFailed); },
            };
            if dy.le(one) {
                return Ok(y_next);
            }
            y = y_next;
        }
        i = i + 1;
    }
    Ok(y)
}

/// Division of wide values rounded up.
fn wide_rounding_up_division(a: Wide, b: Wide) -> (r: Wide)
    requires
        b.val() >= 2,
    ensures
        r.val() == ceil_div(a.val() as int, b.val() as int),
{
    let q = wide_div(&a, &b);
    proof {
        lemma_fundamental_div_mod(a.val() as int, b.val() as int);
        assert((b.val() as int) * (q.val() as int) == (q.val() as int) * (b.val() as int))
            by (nonlinear_arith);
        a.lemma_val_below_max();
    }
    let prod = match wide_checked_mul(&q, &b) {
        Option::Some(v) => v,
        Option::None => { return q; },
    };
    if a.le(prod) {
        proof {
            assert((a.val() + b.val() - 1) / (b.val() as int) == q.val()) by (nonlinear_arith)
                requires
                    a.val() == (b.val() as int) * (q.val() as int),
                    b.val() >= 2,
                    q.val() == a.val() as int / b.val() as int,
            ;
        }
        q
    } else {
        proof {
            lemma_div_is_ordered_by_denominator(a.val() as int, 2, b.val() as int);
            assert((a.val() + b.val() - 1) / (b.val() as int) == q.val() + 1) by (nonlinear_arith)
                requires
                    b.val() >= 2,
                    q.val() == a.val() as int / b.val() as int,
                    a.val() % b.val() != 0,
            ;
        }
        let one = Wide::from_u64(1);
        match q.checked_add(one) {
            Option::Some(v) => v,
            Option::None => { return q; },
        }
    }
}

/// What one hop pays out: the exact forward quote of a pool for an input
/// already net of fees.  The volatile curve is the closed constant-product
/// form; the stable curve solves `get_y` on normalized reserves.
pub open spec fn spec_get_amount_out(
    is_stable: bool,
    reserve_in: int,
    reserve_out: int,
    pd_in: int,
    pd_out: int,
    input_amount: int,
) -> Result<int, RouterError> {
    if input_amount <= 0 {
        Err(RouterError::ZeroInputAmount)
    } else if !is_stable {
        Ok(input_amount * reserve_out / (reserve_in + input_amount))
    } else {
        match spec_stable_k(reserve_in, reserve_out, pd_in, pd_out) {
            Option::None => Err(RouterError::GetYFailed),
            Option::Some(xy) => {
                let in_adj = spec_adjust(input_amount, pd_in);
                let rin_adj = spec_adjust(reserve_in, pd_in);
                let rout_adj = spec_adjust(reserve_out, pd_out);
                match spec_get_y(in_adj + rin_adj, xy, rout_adj, 255) {
                    Option::None => Err(RouterError::GetYFailed),
                    Option::Some(yv) => {
                        if yv > rout_adj {
                            Err(RouterError::GetYFailed)
                        } else {
                            Ok((rout_adj - yv) * pd_out / e18())
                        }
                    },
                }
            },
        }
    }
}

/// A value below an adjusted amount scales back to at most the amount.
proof fn lemma_unadjust_le(amount: int, pd: int, v: int)
    requires
        pd >= 1,
        amount >= 0,
        0 <= v <= spec_adjust(amount, pd),
    ensures
        v * pd / e18() <= amount,
{
    let q = spec_adjust(amount, pd);
    lemma_mul_inequality(v, q, pd);
    lemma_fundamental_div_mod(amount * e18(), pd);
    assert(pd * q == q * pd) by (nonlinear_arith);
    lemma_div_is_ordered(v * pd, amount * e18(), e18());
    vstd::arithmetic::div_mod::lemma_div_by_multiple(amount, e18());
}

/// The forward quote of one pool.
pub fn get_amount_out(
    is_stable: bool,
    reserve_in: u64,
    reserve_out: u64,
    pow_decimals_in: u64,
    pow_decimals_out: u64,
    input_amount: u64,
) -> (r: Result<u64, RouterError>)
    requires
        pow_decimals_in >= 1,
        pow_decimals_out >= 1,
    ensures
        match r {
            Ok(v) => spec_get_amount_out(
                is_stable,
                reserve_in as int,
                reserve_out as int,
                pow_decimals_in as int,
                pow_decimals_out as int,
                input_amount as int,
            ) == Ok::<int, RouterError>(v as int),
            Err(e) => spec_get_amount_out(
                is_stable,
                reserve_in as int,
                reserve_out as int,
                pow_decimals_in as int,
                pow_decimals_out as int,
                input_amount as int,
            ) == Err::<int, RouterError>(e),
        },
{
    if input_amount == 0 {
        return Err(RouterError::ZeroInputAmount);
    }
    if is_stable {
        let e = Wide::from_u64(ONE_E_18);
        let xy = match k(true, reserve_in, reserve_out, pow_decimals_in, pow_decimals_out) {
            Option::Some(v) => v,
            Option::None => { return Err(RouterError::GetYFailed); },
        };
        let in_adj = adjust(input_amount, pow_decimals_in);
        let rin_adj = adjust(reserve_in, pow_decimals_in);
        let rout_adj = adjust(reserve_out, pow_decimals_out);
        let x0 = Wide::from_u128(in_adj + rin_adj);
        let rout_adj_w = Wide::from_u128(rout_adj);
        let y_res = match get_y(x0, xy, rout_adj_w) {
            Ok(v) => v,
            Err(e2) => { return Err(e2); },
        };
        let diff = match rout_adj_w.checked_sub(y_res) {
            Option::Some(v) => v,
            Option::None => { return Err(RouterError::GetYFailed); },
        };
        let pd_out_w = Wide::from_u64(pow_decimals_out);
        proof {
            lemma_adjusted_product_fits(diff.val() as int, rout_adj as int);
            lemma_mul_upper_bound(
                diff.val() as int,
                u64::MAX as int * e18(),
                pd_out_w.val() as int,
                u64::MAX as int,
            );
            assert((u64::MAX as int * e18()) * (u64::MAX as int) <= wide_max())
                by (nonlinear_arith);
        }
        let prod = match wide_checked_mul(&diff, &pd_out_w) {
            Option::Some(v) => v,
            Option::None => { return Err(RouterError::GetYFailed); },
        };
        let out_w = wide_div(&prod, &e);
        proof {
            lemma_mul_inequality(
                diff.val() as int,
                rout_adj as int,
                pow_decimals_out as int,
            );
            lemma_unadjust_le(reserve_out as int, pow_decimals_out as int, diff.val() as int);
        }
        match out_w.to_u64() {
            Option::Some(v) => Ok(v),
            Option::None => Err(RouterError::InvalidAmountOut),
        }
    } else {
        proof {
            lemma_mul_upper_bound(
                input_amount as int,
                u64::MAX as int,
                reserve_out as int,
                u64::MAX as int,
            );
        }
        let numerator = input_amount as u128 * reserve_out as u128;
        let denominator = reserve_in as u128 + input_amount as u128;
        let q = numerator / denominator;
        proof {
            lemma_mul_inequality(
                input_amount as int,
                denominator as int,
                reserve_out as int,
            );
            assert(denominator as int * reserve_out as int
                == reserve_out as int * denominator as int) by (nonlinear_arith);
            lemma_div_is_ordered(
                numerator as int,
                denominator as int * reserve_out as int,
                denominator as int,
            );
            vstd::arithmetic::div_mod::lemma_div_by_multiple(
                reserve_out as int,
                denominator as int,
            );
        }
        Ok(q as u64)
    }
}

/// What one hop must be fed: the exact backward quote of a pool for a
/// desired output, before the fee is grossed up on top.
pub open spec fn spec_get_amount_in(
    is_stable: bool,
    reserve_in: int,
    reserve_out: int,
    pd_in: int,
    pd_out: int,
    output_amount: int,
) -> Result<int, RouterError> {
    if output_amount <= 0 {
        Err(RouterError::ZeroOutputAmount)
    } else if reserve_out <= output_amount {
        Err(RouterError::InvalidOutputAmount)
    } else if !is_stable {
        Ok(ceil_div(output_amount * reserve_in, reserve_out - output_amount))
    } else {
        match spec_stable_k(reserve_in, reserve_out, pd_in, pd_out) {
            Option::None => Err(RouterError::GetYFailed),
            Option::Some(xy) => {
                let out_adj = spec_adjust(output_amount, pd_out);
                let rin_adj = spec_adjust(reserve_in, pd_in);
                let rout_adj = spec_adjust(reserve_out, pd_out);
                match spec_get_y(rout_adj - out_adj, xy, rin_adj, 255) {
                    Option::None => Err(RouterError::GetYFailed),
                    Option::Some(yv) => {
                        if yv < rin_adj {
                            Err(RouterError::GetYFailed)
                        } else if (yv - rin_adj) * pd_in > wide_max() {
                            Err(RouterError::InvalidAmountIn)
                        } else {
                            let needed = ceil_div((yv - rin_adj) * pd_in, e18());
                            if needed > u128::MAX {
                                Err(RouterError::InvalidAmountIn)
                            } else {
                                Ok(needed)
                            }
                        }
                    },
                }
            },
        }
    }
}

/// The backward quote of one pool.
pub fn get_amount_in(
    is_stable: bool,
    reserve_in: u64,
    reserve_out: u64,
    pow_decimals_in: u64,
    pow_decimals_out: u64,
    output_amount: u64,
) -> (r: Result<u128, RouterError>)
    requires
        pow_decimals_in >= 1,
        pow_decimals_out >= 1,
    ensures
        match r {
            Ok(v) => spec_get_amount_in(
                is_stable,
                reserve_in as int,
                reserve_out as int,
                pow_decimals_in as int,
                pow_decimals_out as int,
                output_amount as int,
            ) == Ok::<int, RouterError>(v as int),
            Err(e) => spec_get_amount_in(
                is_stable,
                reserve_in as int,
                reserve_out as int,
                pow_decimals_in as int,
                pow_decimals_out as int,
                output_amount as int,
            ) == Err::<int, RouterError>(e),
        },
{
    if output_amount == 0 {
        return Err(RouterError::ZeroOutputAmount);
    }
    if reserve_out <= output_amount {
        return Err(RouterError::InvalidOutputAmount);
    }
    if is_stable {
        let e = Wide::from_u64(ONE_E_18);
        let xy = match k(true, reserve_in, reserve_out, pow_decimals_in, pow_decimals_out) {
            Option::Some(v) => v,
            Option::None => { return Err(RouterError::GetYFailed); },
        };
        let out_adj = adjust(output_amount, pow_decimals_out);
        let rin_adj = adjust(reserve_in, pow_decimals_in);
        let rout_adj = adjust(reserve_out, pow_decimals_out);
        proof {
            lemma_mul_inequality(output_amount as int, reserve_out as int, e18());
            lemma_div_is_ordered(
                output_amount as int * e18(),
                reserve_out as int * e18(),
                pow_decimals_out as int,
            );
        }
        let x0 = Wide::from_u128(rout_adj - out_adj);
        let rin_adj_w = Wide::from_u128(rin_adj);
        let y_res = match get_y(x0, xy, rin_adj_w) {
            Ok(v) => v,
            Err(e2) => { return Err(e2); },
        };
        let diff = match y_res.checked_sub(rin_adj_w) {
            Option::Some(v) => v,
            Option::None => { return Err(RouterError::GetYFailed); },
        };
        let pd_in_w = Wide::from_u64(pow_decimals_in);
        let prod = match wide_checked_mul(&diff, &pd_in_w) {
            Option::Some(v) => v,
            Option::None => { return Err(RouterError::InvalidAmountIn); },
        };
        let needed = wide_rounding_up_division(prod, e);
        match needed.to_u128() {
            Option::Some(v) => Ok(v),
            Option::None => Err(RouterError::InvalidAmountIn),
        }
    } else {
        proof {
            lemma_mul_upper_bound(
                output_amount as int,
                u64::MAX as int,
                reserve_in as int,
                u64::MAX as int,
            );
        }
        let numerator = output_amount as u128 * reserve_in as u128;
        let denominator = (reserve_out - output_amount) as u128;
        Ok(rounding_up_division(numerator, denominator))
    }
}

} // verus!
