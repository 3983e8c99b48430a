//! Shared integer arithmetic: ceiling division, powers of ten and the
//! integer square root used by the first liquidity deposit.

use vstd::prelude::*;
use vstd::arithmetic::div_mod::{lemma_fundamental_div_mod, lemma_div_is_ordered_by_denominator};
use vstd::arithmetic::mul::lemma_mul_upper_bound;

verus! {

/// The largest asset decimals the engine accepts: the stable curve
/// normalizes to 18 decimals, and a larger scale would truncate a positive
/// reserve to nothing.
pub const MAX_DECIMALS: u8 = 18;

/// `a / b` rounded towards positive infinity, over the unbounded integers.
pub open spec fn ceil_div(a: int, b: int) -> int
    recommends
        a >= 0,
        b > 0,
{
    (a + b - 1) / b
}

/// Division rounded up, the rounding convention of every fee computation.
pub fn rounding_up_division(nominator: u128, denominator: u128) -> (r: u128)
    requires
        denominator > 0,
    ensures
        r == ceil_div(nominator as int, denominator as int),
{
    let q = nominator / denominator;
    if nominator % denominator == 0 {
        proof {
            lemma_fundamental_div_mod(nominator as int, denominator as int);
            assert((nominator + denominator - 1) / (denominator as int) == q) by (nonlinear_arith)
                requires
                    nominator == (denominator as int) * (q as int),
                    denominator > 0,
                    q == nominator as int / denominator as int,
            ;
        }
        q
    } else {
        proof {
            lemma_fundamental_div_mod(nominator as int, denominator as int);
            // a divisor of 1 leaves no remainder, so here denominator >= 2
            assert(denominator >= 2);
            lemma_div_is_ordered_by_denominator(nominator as int, 2, denominator as int);
            assert((nominator + denominator - 1) / (denominator as int) == q + 1) by (nonlinear_arith)
                requires
                    denominator > 0,
                    q == nominator as int / denominator as int,
                    nominator % denominator != 0,
            ;
        }
        q + 1
    }
}

/// `10^e` over the unbounded integers.
pub open spec fn pow10(e: nat) -> nat
    decreases e,
{
    if e == 0 {
        1
    } else {
        10 * pow10((e - 1) as nat)
    }
}

/// `10^a` divides `10^b` whenever `a <= b`; in particular it is no larger.
pub proof fn lemma_pow10_le(a: nat, b: nat)
    requires
        a <= b,
    ensures
        pow10(a) <= pow10(b),
        pow10(a) > 0,
    decreases b,
{
    if b == 0 {
    } else if a == b {
        lemma_pow10_le((a - 1) as nat, (b - 1) as nat);
    } else {
        lemma_pow10_le(a, (b - 1) as nat);
    }
}

/// `10^decimals`, the scale of an asset's smallest unit.
pub fn pow_decimals(decimals: u8) -> (r: u64)
    requires
        decimals <= 19,
    ensures
        r == pow10(decimals as nat),
        r >= 1,
{
    let mut i: u8 = 0;
    let mut p: u64 = 1;
    proof {
        reveal_with_fuel(pow10, 20);
        assert(pow10(19) == 10_000_000_000_000_000_000);
    }
    while i < decimals
        invariant
            i <= decimals <= 19,
            p == pow10(i as nat),
            pow10(19) == 10_000_000_000_000_000_000,
        decreases decimals - i,
    {
        proof {
            lemma_pow10_le((i + 1) as nat, 19);
        }
        p = p * 10;
        i = i + 1;
    }
    proof {
        lemma_pow10_le(0, decimals as nat);
    }
    p
}

/// `r` is the integer square root of `n`.
pub open spec fn is_sqrt(n: nat, r: nat) -> bool {
    r * r <= n < (r + 1) * (r + 1)
}

/// The integer square root, as a spec-level function.
pub open spec fn spec_isqrt(n: nat) -> nat {
    choose|r: nat| #[trigger] is_sqrt(n, r)
}

/// Every natural number has an integer square root.
pub proof fn lemma_sqrt_exists(n: nat)
    ensures
        exists|r: nat| #[trigger] is_sqrt(n, r),
    decreases n,
{
    if n == 0 {
        assert(is_sqrt(0, 0)) by (nonlinear_arith);
    } else {
        lemma_sqrt_exists((n - 1) as nat);
        let r = choose|r: nat| #[trigger] is_sqrt((n - 1) as nat, r);
        if (r + 1) * (r + 1) <= n {
            // then n == (r+1)^2, whose root is r+1
            assert(is_sqrt(n, r + 1)) by (nonlinear_arith)
                requires
                    r * r <= n - 1 < (r + 1) * (r + 1),
                    (r + 1) * (r + 1) <= n,
            ;
        } else {
            assert(is_sqrt(n, r));
        }
    }
}

/// The integer square root is unique.
pub proof fn lemma_sqrt_unique(n: nat, a: nat, b: nat)
    requires
        is_sqrt(n, a),
        is_sqrt(n, b),
    ensures
        a == b,
{
    assert(a == b) by (nonlinear_arith)
        requires
            a * a <= n < (a + 1) * (a + 1),
            b * b <= n < (b + 1) * (b + 1),
    ;
}

/// Floor of the square root, exact over the whole `u128` range.
pub fn isqrt(n: u128) -> (r: u64)
    ensures
        is_sqrt(n as nat, r as nat),
        r == spec_isqrt(n as nat),
{
    let mut lo: u128 = 0;
    let mut hi: u128 = 0x1_0000_0000_0000_0000;
    if n < hi {
        hi = n + 1;
    }
    proof {
        assert((n as int + 1) * (n as int + 1) > n) by (nonlinear_arith);
        assert(0x1_0000_0000_0000_0000int * 0x1_0000_0000_0000_0000int > u128::MAX)
            by (nonlinear_arith);
    }
    while lo + 1 < hi
        invariant
            lo < hi <= 0x1_0000_0000_0000_0000,
            lo * lo <= n,
            (hi as int) * (hi as int) > n,
        decreases hi - lo,
    {
        let mid = lo + (hi - lo) / 2;
        proof {
            lemma_mul_upper_bound(mid as int, 0xffff_ffff_ffff_ffff, mid as int, 0xffff_ffff_ffff_ffff);
        }
        if mid * mid <= n {
            lo = mid;
        } else {
            hi = mid;
        }
    }
    proof {
        let witness = lo as nat;
        assert(is_sqrt(n as nat, witness));
        lemma_sqrt_unique(n as nat, witness, spec_isqrt(n as nat));
    }
    lo as u64
}

/// `numerator_1 * numerator_2 / denominator` over exact integers: the
/// pro-rata share used by liquidity previews.
pub fn proportional_value(numerator_1: u64, numerator_2: u64, denominator: u64) -> (r: u64)
    requires
        denominator > 0,
        (numerator_1 as int) * (numerator_2 as int) / (denominator as int) <= u64::MAX,
    ensures
        r == (numerator_1 as int) * (numerator_2 as int) / (denominator as int),
{
    proof {
        lemma_mul_upper_bound(numerator_1 as int, u64::MAX as int, numerator_2 as int, u64::MAX as int);
    }
    (numerator_1 as u128 * numerator_2 as u128 / denominator as u128) as u64
}

/// The liquidity a first deposit is worth, before the locked minimum is
/// withheld: the integer square root of the deposit product.
pub fn initial_liquidity(deposit_0: u64, deposit_1: u64) -> (r: u64)
    ensures
        r == spec_isqrt((deposit_0 * deposit_1) as nat),
{
    proof {
        lemma_mul_upper_bound(deposit_0 as int, u64::MAX as int, deposit_1 as int, u64::MAX as int);
    }
    isqrt(deposit_0 as u128 * deposit_1 as u128)
}

} // verus!
