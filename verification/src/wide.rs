//! 256-bit unsigned arithmetic for the stable-curve computations, whose
//! intermediate products exceed 128 bits.  Values are four 64-bit limbs,
//! least significant first.  Addition, subtraction and comparison are
//! verified here; multiplication and division call an outside big-integer
//! implementation through trusted wrappers with exact contracts.

use vstd::prelude::*;
use vstd::arithmetic::div_mod::{lemma_fundamental_div_mod, lemma_multiply_divide_lt};

verus! {

/// 2^64.
pub const P64: u128 = 0x1_0000_0000_0000_0000;

/// 2^128 over the naturals.
pub open spec fn p128() -> nat {
    0x1_0000_0000_0000_0000_0000_0000_0000_0000nat
}

/// 2^192 over the naturals.
pub open spec fn p192() -> nat {
    0x1_0000_0000_0000_0000_0000_0000_0000_0000_0000_0000_0000_0000nat
}

/// 2^256 - 1, the largest representable wide value.
pub open spec fn wide_max() -> nat {
    (0x1_0000_0000_0000_0000_0000_0000_0000_0000_0000_0000_0000_0000_0000_0000_0000_0000int
        - 1) as nat
}

/// A 256-bit unsigned integer.
#[derive(Clone, Copy, PartialEq, Eq, Structural, Debug)]
pub struct Wide {
    pub limb0: u64,
    pub limb1: u64,
    pub limb2: u64,
    pub limb3: u64,
}

impl Wide {
    /// The number this value stands for.
    pub open spec fn val(self) -> nat {
        (self.limb0 + self.limb1 * (P64 as int) + self.limb2 * p128() + self.limb3 * p192()) as nat
    }

    /// Every wide value lies below 2^256.
    pub proof fn lemma_val_below_max(self)
        ensures
            self.val() <= wide_max(),
    {
    }

    pub fn zero() -> (r: Wide)
        ensures
            r.val() == 0,
    {
        Wide { limb0: 0, limb1: 0, limb2: 0, limb3: 0 }
    }

    pub fn from_u64(x: u64) -> (r: Wide)
        ensures
            r.val() == x,
    {
        Wide { limb0: x, limb1: 0, limb2: 0, limb3: 0 }
    }

    pub fn from_u128(x: u128) -> (r: Wide)
        ensures
            r.val() == x,
    {
        let lo = (x % P64) as u64;
        let hi = (x / P64) as u64;
        proof {
            lemma_fundamental_div_mod(x as int, P64 as int);
            lemma_multiply_divide_lt(x as int, P64 as int, P64 as int);
        }
        Wide { limb0: lo, limb1: hi, limb2: 0, limb3: 0 }
    }

    /// The value back as a `u128`, where it fits.
    pub fn to_u128(self) -> (r: Option<u128>)
        ensures
            match r {
                Some(x) => x == self.val(),
                None => self.val() >= p128(),
            },
    {
        if self.limb2 == 0 && self.limb3 == 0 {
            Some(self.limb0 as u128 + (self.limb1 as u128) * P64)
        } else {
            None
        }
    }

    /// The value back as a `u64`, where it fits.
    pub fn to_u64(self) -> (r: Option<u64>)
        ensures
            match r {
                Some(x) => x == self.val(),
                None => self.val() > u64::MAX,
            },
    {
        if self.limb1 == 0 && self.limb2 == 0 && self.limb3 == 0 {
            Some(self.limb0)
        } else {
            None
        }
    }

    pub fn is_zero(self) -> (r: bool)
        ensures
            r == (self.val() == 0),
    {
        self.limb0 == 0 && self.limb1 == 0 && self.limb2 == 0 && self.limb3 == 0
    }

    /// Strict comparison by value.
    pub fn lt(self, other: Wide) -> (r: bool)
        ensures
            r == (self.val() < other.val()),
    {
        if self.limb3 != other.limb3 {
            self.limb3 < other.limb3
        } else if self.limb2 != other.limb2 {
            self.limb2 < other.limb2
        } else if self.limb1 != other.limb1 {
            self.limb1 < other.limb1
        } else {
            self.limb0 < other.limb0
        }
    }

    pub fn le(self, other: Wide) -> (r: bool)
        ensures
            r == (self.val() <= other.val()),
    {
        !other.lt(self)
    }

    /// Sum, or `None` past the 256-bit range.
    pub fn checked_add(self, other: Wide) -> (r: Option<Wide>)
        ensures
            match r {
                Some(s) => s.val() == self.val() + other.val(),
                None => self.val() + other.val() > wide_max(),
            },
    {
        let s0: u128 = self.limb0 as u128 + other.limb0 as u128;
        let r0 = (s0 % P64) as u64;
        let c0 = s0 / P64;
        let s1: u128 = self.limb1 as u128 + other.limb1 as u128 + c0;
        let r1 = (s1 % P64) as u64;
        let c1 = s1 / P64;
        let s2: u128 = self.limb2 as u128 + other.limb2 as u128 + c1;
        let r2 = (s2 % P64) as u64;
        let c2 = s2 / P64;
        let s3: u128 = self.limb3 as u128 + other.limb3 as u128 + c2;
        let r3 = (s3 % P64) as u64;
        let c3 = s3 / P64;
        proof {
            lemma_fundamental_div_mod(s0 as int, P64 as int);
            lemma_multiply_divide_lt(s0 as int, 2, P64 as int);
            lemma_fundamental_div_mod(s1 as int, P64 as int);
            lemma_multiply_divide_lt(s1 as int, 2, P64 as int);
            lemma_fundamental_div_mod(s2 as int, P64 as int);
            lemma_multiply_divide_lt(s2 as int, 2, P64 as int);
            lemma_fundamental_div_mod(s3 as int, P64 as int);
            lemma_multiply_divide_lt(s3 as int, 2, P64 as int);
        }
        if c3 > 0 {
            None
        } else {
            Some(Wide { limb0: r0, limb1: r1, limb2: r2, limb3: r3 })
        }
    }

    /// Difference, or `None` when the subtrahend is larger.
    pub fn checked_sub(self, other: Wide) -> (r: Option<Wide>)
        ensures
            match r {
                Some(d) => self.val() >= other.val() && d.val() == self.val() - other.val(),
                None => self.val() < other.val(),
            },
    {
        let d0: u128 = P64 + self.limb0 as u128 - other.limb0 as u128;
        let r0 = (d0 % P64) as u64;
        let b0: u128 = 1 - d0 / P64;
        let d1: u128 = P64 + self.limb1 as u128 - other.limb1 as u128 - b0;
        let r1 = (d1 % P64) as u64;
        let b1: u128 = 1 - d1 / P64;
        let d2: u128 = P64 + self.limb2 as u128 - other.limb2 as u128 - b1;
        let r2 = (d2 % P64) as u64;
        let b2: u128 = 1 - d2 / P64;
        let d3: u128 = P64 + self.limb3 as u128 - other.limb3 as u128 - b2;
        let r3 = (d3 % P64) as u64;
        let b3: u128 = 1 - d3 / P64;
        proof {
            lemma_fundamental_div_mod(d0 as int, P64 as int);
            lemma_multiply_divide_lt(d0 as int, 2, P64 as int);
            lemma_fundamental_div_mod(d1 as int, P64 as int);
            lemma_multiply_divide_lt(d1 as int, 2, P64 as int);
            lemma_fundamental_div_mod(d2 as int, P64 as int);
            lemma_multiply_divide_lt(d2 as int, 2, P64 as int);
            lemma_fundamental_div_mod(d3 as int, P64 as int);
            lemma_multiply_divide_lt(d3 as int, 2, P64 as int);
        }
        if b3 > 0 {
            None
        } else {
            Some(Wide { limb0: r0, limb1: r1, limb2: r2, limb3: r3 })
        }
    }
}

/// Relies on `primitive_types::U256::checked_mul`: the exact product of the
/// two values, or `None` where it exceeds the 256-bit range.
#[verifier::external_body]
pub(crate) fn wide_checked_mul(a: &Wide, b: &Wide) -> (r: Option<Wide>)
    ensures
        match r {
            Some(p) => p.val() == a.val() * b.val(),
            None => a.val() * b.val() > wide_max(),
        },
{
    let x = primitive_types::U256([a.limb0, a.limb1, a.limb2, a.limb3]);
    let y = primitive_types::U256([b.limb0, b.limb1, b.limb2, b.limb3]);
    match x.checked_mul(y) {
        Some(p) => Some(Wide { limb0: p.0[0], limb1: p.0[1], limb2: p.0[2], limb3: p.0[3] }),
        None => None,
    }
}

/// Relies on `primitive_types::U256::div_mod`: the quotient rounded towards
/// zero; the zero divisor it refuses is excluded here.
#[verifier::external_body]
pub(crate) fn wide_div(a: &Wide, b: &Wide) -> (r: Wide)
    requires
        b.val() > 0,
    ensures
        r.val() == a.val() / b.val(),
{
    let x = primitive_types::U256([a.limb0, a.limb1, a.limb2, a.limb3]);
    let y = primitive_types::U256([b.limb0, b.limb1, b.limb2, b.limb3]);
    let (q, _) = x.div_mod(y);
    Wide { limb0: q.0[0], limb1: q.0[1], limb2: q.0[2], limb3: q.0[3] }
}

} // verus!
