//! The on-ledger engine: the pool registry, liquidity accounting and swap
//! execution.  Every operation runs atomically against one state value; the
//! ledger's total order of transactions supplies mutual exclusion.

use vstd::prelude::*;
use vstd::arithmetic::div_mod::{
    lemma_div_is_ordered,
    lemma_multiply_divide_lt,
    lemma_div_by_multiple,
};
use vstd::arithmetic::mul::{lemma_mul_inequality, lemma_mul_upper_bound};
use crate::errors::AmmError;
use crate::ids::{
    AssetId, ContractId, PoolId, SubId, asset_lt, get_contract_asset_id, get_lp_asset_id,
    lemma_id_val_order, order_token_ids, pool_id_wf, spec_contract_asset_id, spec_lp_asset_id,
};
use crate::math::{MAX_DECIMALS, is_sqrt, pow10, pow_decimals, isqrt, spec_isqrt};
use crate::curve::{k, spec_k, spec_fee_to_subtract, calculate_fee_to_subtract};

verus! {

/// Liquidity permanently locked in a pool by its first deposit, minted to
/// nobody and never withdrawable.
pub const MINIMUM_LIQUIDITY: u64 = 1000;

/// An amount of one asset.
#[derive(Clone, Copy, PartialEq, Eq, Structural, Debug)]
pub struct Asset {
    pub id: AssetId,
    pub amount: u64,
}

/// The persisted state of one pool.
#[derive(Clone, Copy, PartialEq, Eq, Structural, Debug)]
pub struct PoolMetadata {
    pub reserve_0: u64,
    pub reserve_1: u64,
    /// The pool's liquidity receipt: its derived asset identity and the
    /// outstanding supply.
    pub liquidity: Asset,
    pub decimals_0: u8,
    pub decimals_1: u8,
}

/// The process-wide fee configuration, in basis points.
#[derive(Clone, Copy, PartialEq, Eq, Structural, Debug)]
pub struct AmmFees {
    pub lp_fee_volatile: u64,
    pub lp_fee_stable: u64,
    pub protocol_fee_volatile: u64,
    pub protocol_fee_stable: u64,
}

/// The asset a pool's contract mints for the pool's derived sub-identifier.
pub open spec fn resolved_asset(c: ContractId, s: SubId) -> AssetId {
    AssetId { hi: spec_contract_asset_id(c, s.hi, s.lo).0, lo: spec_contract_asset_id(c, s.hi, s.lo).1 }
}

/// An asset pair in canonical (ascending) order, plus the curve variant.
pub open spec fn canonical_pool_id(a: AssetId, b: AssetId, is_stable: bool) -> PoolId {
    if asset_lt(a, b) {
        PoolId { asset_0: a, asset_1: b, is_stable }
    } else {
        PoolId { asset_0: b, asset_1: a, is_stable }
    }
}

/// A freshly created pool: empty reserves, no liquidity issued.
pub open spec fn spec_new_pool(lp: AssetId, dec0: u8, dec1: u8) -> PoolMetadata {
    PoolMetadata {
        reserve_0: 0,
        reserve_1: 0,
        liquidity: Asset { id: lp, amount: 0 },
        decimals_0: dec0,
        decimals_1: dec1,
    }
}

/// The internal invariant of one registered pool: canonical identity,
/// decimals within the stable normalization range, the liquidity receipt
/// identity derived from the pool, reserves empty exactly when no liquidity
/// is outstanding, and otherwise at least the locked minimum issued and both
/// reserves positive.
pub open spec fn pool_wf(contract: ContractId, id: PoolId, p: PoolMetadata) -> bool {
    &&& pool_id_wf(id)
    &&& p.decimals_0 <= MAX_DECIMALS
    &&& p.decimals_1 <= MAX_DECIMALS
    &&& (p.liquidity.id.hi, p.liquidity.id.lo) == spec_lp_asset_id(contract, id)
    &&& (p.liquidity.amount == 0 ==> p.reserve_0 == 0 && p.reserve_1 == 0)
    &&& (p.liquidity.amount > 0 ==> p.liquidity.amount >= MINIMUM_LIQUIDITY)
}

/// The distinct asset order is total.
pub proof fn lemma_asset_order_total(a: AssetId, b: AssetId)
    requires
        a != b,
    ensures
        asset_lt(a, b) || asset_lt(b, a),
{
    lemma_id_val_order(a.hi, a.lo, b.hi, b.lo);
    lemma_id_val_order(b.hi, b.lo, a.hi, a.lo);
}

/// The whole engine state: its contract identity, the fee configuration and
/// every registered pool.
pub struct Amm {
    pub contract_id: ContractId,
    pub fees: AmmFees,
    pub pools: Vec<(PoolId, PoolMetadata)>,
}

impl Amm {
    /// The engine's invariant: pool identities are unique, every pool is
    /// well formed, and each curve variant's total fee leaves room in the
    /// basis-point denominator.
    pub open spec fn wf(self) -> bool {
        &&& forall|i: int, j: int|
            0 <= i < j < self.pools@.len() ==> (#[trigger] self.pools@[i]).0 != (
            #[trigger] self.pools@[j]).0
        &&& forall|i: int|
            0 <= i < self.pools@.len() ==> pool_wf(
                self.contract_id,
                (#[trigger] self.pools@[i]).0,
                self.pools@[i].1,
            )
        &&& self.fees.lp_fee_volatile + self.fees.protocol_fee_volatile < 10_000
        &&& self.fees.lp_fee_stable + self.fees.protocol_fee_stable < 10_000
    }

    /// Whether a pool is registered under this identity.
    pub open spec fn has_pool(self, id: PoolId) -> bool {
        exists|i: int| 0 <= i < self.pools@.len() && (#[trigger] self.pools@[i]).0 == id
    }

    /// The position of a registered pool.
    pub open spec fn pool_index(self, id: PoolId) -> int {
        choose|i: int| 0 <= i < self.pools@.len() && (#[trigger] self.pools@[i]).0 == id
    }

    /// The state of a registered pool.
    pub open spec fn spec_pool(self, id: PoolId) -> PoolMetadata {
        self.pools@[self.pool_index(id)].1
    }

    /// In a well-formed engine the position of a pool identity is unique.
    pub proof fn lemma_index_is(self, id: PoolId, i: int)
        requires
            self.wf(),
            0 <= i < self.pools@.len(),
            self.pools@[i].0 == id,
        ensures
            self.has_pool(id),
            self.pool_index(id) == i,
            self.spec_pool(id) == self.pools@[i].1,
    {
        assert(self.has_pool(id));
        let j = self.pool_index(id);
        if i < j {
            assert(self.pools@[i].0 != self.pools@[j].0);
        } else if j < i {
            assert(self.pools@[j].0 != self.pools@[i].0);
        }
    }

    /// A fresh engine: no pools, the given identity and fee schedule.
    pub fn new(contract_id: ContractId, fees: AmmFees) -> (r: Amm)
        requires
            fees.lp_fee_volatile + fees.protocol_fee_volatile < 10_000,
            fees.lp_fee_stable + fees.protocol_fee_stable < 10_000,
        ensures
            r.wf(),
            r.contract_id == contract_id,
            r.fees == fees,
            r.pools@.len() == 0,
    {
        Amm { contract_id, fees, pools: Vec::new() }
    }

    /// The engine's contract identity.
    pub fn id(&self) -> (r: ContractId)
        ensures
            r == self.contract_id,
    {
        self.contract_id
    }

    /// The four fee rates, in basis points.
    pub fn fees(&self) -> (r: (u64, u64, u64, u64))
        ensures
            r.0 == self.fees.lp_fee_volatile,
            r.1 == self.fees.lp_fee_stable,
            r.2 == self.fees.protocol_fee_volatile,
            r.3 == self.fees.protocol_fee_stable,
    {
        (
            self.fees.lp_fee_volatile,
            self.fees.lp_fee_stable,
            self.fees.protocol_fee_volatile,
            self.fees.protocol_fee_stable,
        )
    }

    /// Where a pool identity sits in the registry, if anywhere.
    fn find_pool(&self, pool_id: &PoolId) -> (r: Option<usize>)
        ensures
            match r {
                Some(i) => 0 <= i < self.pools@.len() && self.pools@[i as int].0 == *pool_id,
                None => !self.has_pool(*pool_id),
            },
    {
        let n = self.pools.len();
        let mut i: usize = 0;
        while i < n
            invariant
                n == self.pools@.len(),
                i <= n,
                forall|j: int| 0 <= j < i ==> (#[trigger] self.pools@[j]).0 != *pool_id,
            decreases n - i,
        {
            let entry_id = self.pools[i].0;
            if entry_id.asset_0 == pool_id.asset_0 && entry_id.asset_1 == pool_id.asset_1
                && entry_id.is_stable == pool_id.is_stable {
                return Some(i);
            }
            i = i + 1;
        }
        None
    }

    /// A read-only snapshot of a pool's state; `None` for an identity that
    /// was never registered.
    pub fn pool_metadata(&self, pool_id: &PoolId) -> (r: Option<PoolMetadata>)
        requires
            self.wf(),
        ensures
            match r {
                Some(p) => self.has_pool(*pool_id) && p == self.spec_pool(*pool_id),
                None => !self.has_pool(*pool_id),
            },
    {
        match self.find_pool(pool_id) {
            Some(i) => {
                proof {
                    self.lemma_index_is(*pool_id, i as int);
                }
                Some(self.pools[i].1)
            },
            None => None,
        }
    }

    /// Registers the pool of a new asset pair.  The pair is canonicalized:
    /// assets, their sub-identifiers and their decimals are sorted by the
    /// asset order before the identity is formed.  Fails with
    /// `IdenticalAssets` when both sides resolve to one asset, whatever the
    /// sub-identifier order, and with `PoolAlreadyExists` when the canonical
    /// identity is taken.  The new pool has empty reserves, no liquidity
    /// issued, and the given decimals.
    pub fn create_pool(
        &mut self,
        token_0_contract_id: ContractId,
        token_0_sub_id: SubId,
        token_1_contract_id: ContractId,
        token_1_sub_id: SubId,
        is_stable: bool,
        decimals_0: u8,
        decimals_1: u8,
    ) -> (r: Result<PoolId, AmmError>)
        requires
            old(self).wf(),
            decimals_0 <= MAX_DECIMALS,
            decimals_1 <= MAX_DECIMALS,
        ensures
            final(self).wf(),
            final(self).contract_id == old(self).contract_id,
            final(self).fees == old(self).fees,
            ({
                let a = resolved_asset(token_0_contract_id, token_0_sub_id);
                let b = resolved_asset(token_1_contract_id, token_1_sub_id);
                let pid = canonical_pool_id(a, b, is_stable);
                let dec0 = if asset_lt(a, b) { decimals_0 } else { decimals_1 };
                let dec1 = if asset_lt(a, b) { decimals_1 } else { decimals_0 };
                if a == b {
                    r == Err::<PoolId, AmmError>(AmmError::IdenticalAssets)
                        && final(self).pools@ == old(self).pools@
                } else if old(self).has_pool(pid) {
                    r == Err::<PoolId, AmmError>(AmmError::PoolAlreadyExists)
                        && final(self).pools@ == old(self).pools@
                } else {
                    let lp = AssetId {
                        hi: spec_lp_asset_id(old(self).contract_id, pid).0,
                        lo: spec_lp_asset_id(old(self).contract_id, pid).1,
                    };
                    r == Ok::<PoolId, AmmError>(pid) && final(self).pools@ == old(self).pools@.push((pid, spec_new_pool(lp, dec0, dec1)))
                }
            }),
    {
        let asset_a = get_contract_asset_id(&token_0_sub_id, &token_0_contract_id);
        let asset_b = get_contract_asset_id(&token_1_sub_id, &token_1_contract_id);
        if asset_a == asset_b {
            return Err(AmmError::IdenticalAssets);
        }
        proof {
            lemma_asset_order_total(asset_a, asset_b);
        }
        let sorted = order_token_ids((asset_a, asset_b));
        let (dec0, dec1) = if asset_a.lt(&asset_b) {
            (decimals_0, decimals_1)
        } else {
            (decimals_1, decimals_0)
        };
        let pool_id = PoolId { asset_0: sorted.0, asset_1: sorted.1, is_stable };
        match self.find_pool(&pool_id) {
            Some(i) => {
                proof {
                    self.lemma_index_is(pool_id, i as int);
                }
                Err(AmmError::PoolAlreadyExists)
            },
            None => {
                let lp = get_lp_asset_id(&self.contract_id, &pool_id);
                let meta = PoolMetadata {
                    reserve_0: 0,
                    reserve_1: 0,
                    liquidity: Asset { id: lp, amount: 0 },
                    decimals_0: dec0,
                    decimals_1: dec1,
                };
                self.pools.push((pool_id, meta));
                Ok(pool_id)
            },
        }
    }
}

/// The liquidity minted for deposits `(d0, d1)` against pool state `p`: the
/// integer square root of the deposit product on the first mint (before the
/// locked minimum is withheld this is the whole issue), and otherwise the
/// lesser of the two pro-rata shares, so an imbalanced deposit is credited
/// only for its limiting side.
pub open spec fn spec_mint_amount(p: PoolMetadata, d0: int, d1: int) -> int {
    if p.liquidity.amount == 0 {
        spec_isqrt((d0 * d1) as nat) - MINIMUM_LIQUIDITY
    } else {
        let l0 = d0 * p.liquidity.amount / p.reserve_0 as int;
        let l1 = d1 * p.liquidity.amount / p.reserve_1 as int;
        if l0 <= l1 {
            l0
        } else {
            l1
        }
    }
}

/// A pool after a mint of deposits `(d0, d1)`.
pub open spec fn spec_after_mint(p: PoolMetadata, d0: u64, d1: u64) -> PoolMetadata {
    PoolMetadata {
        reserve_0: (p.reserve_0 + d0) as u64,
        reserve_1: (p.reserve_1 + d1) as u64,
        liquidity: Asset {
            id: p.liquidity.id,
            amount: if p.liquidity.amount == 0 {
                spec_isqrt((d0 * d1) as nat) as u64
            } else {
                (p.liquidity.amount + spec_mint_amount(p, d0 as int, d1 as int)) as u64
            },
        },
        decimals_0: p.decimals_0,
        decimals_1: p.decimals_1,
    }
}

/// What a burn of `amount` receipt units pays out of pool state `p`: the
/// pro-rata share of each reserve, rounded down, against the reserves and
/// supply before the burn.
pub open spec fn spec_burn_out(p: PoolMetadata, amount: int) -> (int, int) {
    (
        amount * p.reserve_0 / p.liquidity.amount as int,
        amount * p.reserve_1 / p.liquidity.amount as int,
    )
}

/// A pool after a burn of `amount` receipt units.
pub open spec fn spec_after_burn(p: PoolMetadata, amount: u64) -> PoolMetadata {
    PoolMetadata {
        reserve_0: (p.reserve_0 - spec_burn_out(p, amount as int).0) as u64,
        reserve_1: (p.reserve_1 - spec_burn_out(p, amount as int).1) as u64,
        liquidity: Asset { id: p.liquidity.id, amount: (p.liquidity.amount - amount) as u64 },
        decimals_0: p.decimals_0,
        decimals_1: p.decimals_1,
    }
}

/// The total fee of one trade on the given curve variant, in basis points.
pub open spec fn spec_total_fee(fees: AmmFees, is_stable: bool) -> int {
    if is_stable {
        fees.lp_fee_stable + fees.protocol_fee_stable
    } else {
        fees.lp_fee_volatile + fees.protocol_fee_volatile
    }
}

/// The post-fee invariant check of a swap: after paying the requested
/// outputs, the balances net of the fee on each implicit input keep the
/// pool's curve invariant at or above its pre-swap value.
pub open spec fn spec_swap_ok(
    fees: AmmFees,
    id: PoolId,
    p: PoolMetadata,
    amount_0_out: int,
    amount_1_out: int,
    d0: int,
    d1: int,
) -> bool {
    let fee = spec_total_fee(fees, id.is_stable);
    let b0 = p.reserve_0 - amount_0_out + d0;
    let b1 = p.reserve_1 - amount_1_out + d1;
    let b0a = b0 - spec_fee_to_subtract(d0, fee);
    let b1a = b1 - spec_fee_to_subtract(d1, fee);
    let pd0 = pow10(p.decimals_0 as nat) as int;
    let pd1 = pow10(p.decimals_1 as nat) as int;
    match (
        spec_k(id.is_stable, b0a, b1a, pd0, pd1),
        spec_k(id.is_stable, p.reserve_0 as int, p.reserve_1 as int, pd0, pd1),
    ) {
        (Option::Some(k_new), Option::Some(k_old)) => k_new >= k_old,
        _ => false,
    }
}

/// A pool after a swap: reserves become the actual balances, the liquidity
/// issue is untouched.
pub open spec fn spec_after_swap(
    p: PoolMetadata,
    amount_0_out: u64,
    amount_1_out: u64,
    d0: u64,
    d1: u64,
) -> PoolMetadata {
    PoolMetadata {
        reserve_0: (p.reserve_0 - amount_0_out + d0) as u64,
        reserve_1: (p.reserve_1 - amount_1_out + d1) as u64,
        liquidity: p.liquidity,
        decimals_0: p.decimals_0,
        decimals_1: p.decimals_1,
    }
}

impl Amm {
    /// Issues liquidity receipts for the amounts `(deposit_0, deposit_1)`
    /// newly transferred into the pool, recomputing reserves to match.  The
    /// first mint issues the root of the deposit product and locks
    /// `MINIMUM_LIQUIDITY` of it forever; later mints issue the limiting
    /// pro-rata share.  The deposits must fit the pool's balances, the
    /// issue must fit the receipt supply, and a pool holding issued
    /// liquidity holds positive reserves; on other inputs the arithmetic
    /// itself has no defined result.
    pub fn mint(&mut self, pool_id: PoolId, deposit_0: u64, deposit_1: u64) -> (r: Result<
        Asset,
        AmmError,
    >)
        requires
            old(self).wf(),
            old(self).has_pool(pool_id) ==> ({
                let p = old(self).spec_pool(pool_id);
                &&& p.reserve_0 + deposit_0 <= u64::MAX
                &&& p.reserve_1 + deposit_1 <= u64::MAX
                &&& (p.liquidity.amount > 0 ==> p.reserve_0 > 0 && p.reserve_1 > 0
                    && p.liquidity.amount + spec_mint_amount(
                        p,
                        deposit_0 as int,
                        deposit_1 as int,
                    ) <= u64::MAX)
            }),
        ensures
            final(self).wf(),
            final(self).contract_id == old(self).contract_id,
            final(self).fees == old(self).fees,
            !old(self).has_pool(pool_id) ==> r == Err::<Asset, AmmError>(AmmError::PoolDoesNotExist)
                && final(self).pools@ == old(self).pools@,
            old(self).has_pool(pool_id) ==> ({
                let p = old(self).spec_pool(pool_id);
                let minted = spec_mint_amount(p, deposit_0 as int, deposit_1 as int);
                if p.liquidity.amount == 0 && spec_isqrt((deposit_0 * deposit_1) as nat)
                    <= MINIMUM_LIQUIDITY {
                    r == Err::<Asset, AmmError>(AmmError::CannotAddLessThanMinimumLiquidity)
                        && final(self).pools@ == old(self).pools@
                } else {
                    r == Ok::<Asset, AmmError>(
                        (Asset { id: p.liquidity.id, amount: minted as u64 }),
                    ) && final(self).pools@ == old(self).pools@.update(
                        old(self).pool_index(pool_id),
                        (pool_id, spec_after_mint(p, deposit_0, deposit_1)),
                    )
                }
            }),
    {
        let idx = match self.find_pool(&pool_id) {
            Some(i) => i,
            None => { return Err(AmmError::PoolDoesNotExist) },
        };
        proof {
            self.lemma_index_is(pool_id, idx as int);
        }
        let p = self.pools[idx].1;
        if p.liquidity.amount == 0 {
            proof {
                lemma_mul_upper_bound(deposit_0 as int, u64::MAX as int, deposit_1 as int, u64::MAX as int);
            }
            let root = isqrt(deposit_0 as u128 * deposit_1 as u128);
            if root <= MINIMUM_LIQUIDITY {
                return Err(AmmError::CannotAddLessThanMinimumLiquidity);
            }
            let minted = root - MINIMUM_LIQUIDITY;
            proof {
                assert(deposit_0 > 0 && deposit_1 > 0) by (nonlinear_arith)
                    requires
                        is_sqrt(
                            deposit_0 as nat * deposit_1 as nat,
                            root as nat,
                        ),
                        root > 1000,
                ;
            }
            let newp = PoolMetadata {
                reserve_0: p.reserve_0 + deposit_0,
                reserve_1: p.reserve_1 + deposit_1,
                liquidity: Asset { id: p.liquidity.id, amount: root },
                decimals_0: p.decimals_0,
                decimals_1: p.decimals_1,
            };
            self.pools[idx] = (pool_id, newp);
            proof {
                assert forall|i: int| 0 <= i < self.pools@.len() implies pool_wf(
                    self.contract_id,
                    (#[trigger] self.pools@[i]).0,
                    self.pools@[i].1,
                ) by {
                    assert(old(self).pools@[i].0 == self.pools@[i].0 || i == idx as int);
                }
            }
            Ok(Asset { id: p.liquidity.id, amount: minted })
        } else {
            let total = p.liquidity.amount;
            proof {
                lemma_mul_upper_bound(
                    deposit_0 as int,
                    u64::MAX as int,
                    total as int,
                    u64::MAX as int,
                );
                lemma_mul_upper_bound(
                    deposit_1 as int,
                    u64::MAX as int,
                    total as int,
                    u64::MAX as int,
                );
            }
            let l0 = (deposit_0 as u128 * total as u128) / (p.reserve_0 as u128);
            let l1 = (deposit_1 as u128 * total as u128) / (p.reserve_1 as u128);
            let minted_wide = if l0 <= l1 {
                l0
            } else {
                l1
            };
            let minted = minted_wide as u64;
            let newp = PoolMetadata {
                reserve_0: p.reserve_0 + deposit_0,
                reserve_1: p.reserve_1 + deposit_1,
                liquidity: Asset { id: p.liquidity.id, amount: total + minted },
                decimals_0: p.decimals_0,
                decimals_1: p.decimals_1,
            };
            self.pools[idx] = (pool_id, newp);
            proof {
                assert forall|i: int| 0 <= i < self.pools@.len() implies pool_wf(
                    self.contract_id,
                    (#[trigger] self.pools@[i]).0,
                    self.pools@[i].1,
                ) by {
                    assert(old(self).pools@[i].0 == self.pools@[i].0 || i == idx as int);
                }
            }
            Ok(Asset { id: p.liquidity.id, amount: minted })
        }
    }

    /// Pays out the pro-rata share of both reserves for `amount` receipt
    /// units already escrowed back to the pool, then retires them.  The
    /// escrow is the caller's: at most the circulating supply, which the
    /// locked minimum keeps below the issue.  Refuses a foreign asset, a
    /// zero amount, and a burn whose rounded share of a non-empty reserve
    /// would be nothing.
    pub fn burn(&mut self, pool_id: PoolId, lp_asset_id: AssetId, amount: u64) -> (r: Result<
        (u64, u64),
        AmmError,
    >)
        requires
            old(self).wf(),
            (old(self).has_pool(pool_id) && amount > 0 && (lp_asset_id.hi, lp_asset_id.lo)
                == spec_lp_asset_id(old(self).contract_id, pool_id)) ==> amount
                + MINIMUM_LIQUIDITY <= old(self).spec_pool(pool_id).liquidity.amount,
        ensures
            final(self).wf(),
            final(self).contract_id == old(self).contract_id,
            final(self).fees == old(self).fees,
            (lp_asset_id.hi, lp_asset_id.lo) != spec_lp_asset_id(old(self).contract_id, pool_id)
                ==> r == Err::<(u64, u64), AmmError>(AmmError::InvalidAsset) && final(self).pools@ == old(self).pools@,
            ((lp_asset_id.hi, lp_asset_id.lo) == spec_lp_asset_id(old(self).contract_id, pool_id)
                && !old(self).has_pool(pool_id)) ==> r == Err::<(u64, u64), AmmError>(
                AmmError::PoolDoesNotExist,
            ) && final(self).pools@ == old(self).pools@,
            ((lp_asset_id.hi, lp_asset_id.lo) == spec_lp_asset_id(old(self).contract_id, pool_id)
                && old(self).has_pool(pool_id)) ==> ({
                let p = old(self).spec_pool(pool_id);
                let o0 = spec_burn_out(p, amount as int).0;
                let o1 = spec_burn_out(p, amount as int).1;
                if amount == 0 {
                    r == Err::<(u64, u64), AmmError>(AmmError::ZeroInputAmount) && final(self).pools@ == old(self).pools@
                } else if (o0 == 0 && p.reserve_0 != 0) || (o1 == 0 && p.reserve_1 != 0) {
                    r == Err::<(u64, u64), AmmError>(AmmError::TransferZeroCoins) && final(self).pools@ == old(self).pools@
                } else {
                    r == Ok::<(u64, u64), AmmError>((o0 as u64, o1 as u64)) && final(self).pools@ == old(self).pools@.update(
                        old(self).pool_index(pool_id),
                        (pool_id, spec_after_burn(p, amount)),
                    )
                }
            }),
    {
        let expected_lp = get_lp_asset_id(&self.contract_id, &pool_id);
        if !(lp_asset_id.hi == expected_lp.hi && lp_asset_id.lo == expected_lp.lo) {
            return Err(AmmError::InvalidAsset);
        }
        let idx = match self.find_pool(&pool_id) {
            Some(i) => i,
            None => { return Err(AmmError::PoolDoesNotExist) },
        };
        proof {
            self.lemma_index_is(pool_id, idx as int);
        }
        let p = self.pools[idx].1;
        if amount == 0 {
            return Err(AmmError::ZeroInputAmount);
        }
        let total = p.liquidity.amount;
        proof {
            lemma_mul_upper_bound(amount as int, u64::MAX as int, p.reserve_0 as int, u64::MAX as int);
            lemma_mul_upper_bound(amount as int, u64::MAX as int, p.reserve_1 as int, u64::MAX as int);
        }
        let o0_wide = (amount as u128 * p.reserve_0 as u128) / (total as u128);
        let o1_wide = (amount as u128 * p.reserve_1 as u128) / (total as u128);
        proof {
            lemma_mul_inequality(amount as int, total as int, p.reserve_0 as int);
            lemma_mul_inequality(amount as int, total as int, p.reserve_1 as int);
            lemma_div_is_ordered(
                amount as int * p.reserve_0 as int,
                total as int * p.reserve_0 as int,
                total as int,
            );
            lemma_div_is_ordered(
                amount as int * p.reserve_1 as int,
                total as int * p.reserve_1 as int,
                total as int,
            );
            lemma_div_by_multiple(p.reserve_0 as int, total as int);
            lemma_div_by_multiple(p.reserve_1 as int, total as int);
            assert(total as int * p.reserve_0 as int == p.reserve_0 as int * total as int)
                by (nonlinear_arith);
            assert(total as int * p.reserve_1 as int == p.reserve_1 as int * total as int)
                by (nonlinear_arith);
        }
        let amount_0_out = o0_wide as u64;
        let amount_1_out = o1_wide as u64;
        if (amount_0_out == 0 && p.reserve_0 != 0) || (amount_1_out == 0 && p.reserve_1 != 0) {
            return Err(AmmError::TransferZeroCoins);
        }
        proof {
            // each output stays strictly below its reserve: amount < total
            if p.reserve_0 > 0 {
                lemma_mul_inequality(amount as int, total as int - 1, p.reserve_0 as int);
                assert(((total as int - 1) * (p.reserve_0 as int)) < ((total as int) * (p.reserve_0 as int)))
                    by (nonlinear_arith)
                    requires
                        p.reserve_0 > 0,
                ;
                lemma_multiply_divide_lt(
                    (total as int - 1) * p.reserve_0 as int,
                    total as int,
                    p.reserve_0 as int,
                );
            }
            if p.reserve_1 > 0 {
                lemma_mul_inequality(amount as int, total as int - 1, p.reserve_1 as int);
                assert(((total as int - 1) * (p.reserve_1 as int)) < ((total as int) * (p.reserve_1 as int)))
                    by (nonlinear_arith)
                    requires
                        p.reserve_1 > 0,
                ;
                lemma_multiply_divide_lt(
                    (total as int - 1) * p.reserve_1 as int,
                    total as int,
                    p.reserve_1 as int,
                );
            }
        }
        let newp = PoolMetadata {
            reserve_0: p.reserve_0 - amount_0_out,
            reserve_1: p.reserve_1 - amount_1_out,
            liquidity: Asset { id: p.liquidity.id, amount: total - amount },
            decimals_0: p.decimals_0,
            decimals_1: p.decimals_1,
        };
        self.pools[idx] = (pool_id, newp);
        proof {
            assert forall|i: int| 0 <= i < self.pools@.len() implies pool_wf(
                self.contract_id,
                (#[trigger] self.pools@[i]).0,
                self.pools@[i].1,
            ) by {
                assert(old(self).pools@[i].0 == self.pools@[i].0 || i == idx as int);
            }
        }
        Ok((amount_0_out, amount_1_out))
    }

    /// Exchanges along the pool's curve: pays `amount_0_out`/`amount_1_out`
    /// to the trader, takes the deposits `(deposit_0, deposit_1)` that
    /// arrived to fund the trade, and accepts the result only if the
    /// balances net of fees keep the curve invariant from decreasing.
    /// Reserves become the actual balances; the liquidity issue never moves.
    pub fn swap(
        &mut self,
        pool_id: PoolId,
        amount_0_out: u64,
        amount_1_out: u64,
        deposit_0: u64,
        deposit_1: u64,
    ) -> (r: Result<(), AmmError>)
        requires
            old(self).wf(),
            old(self).has_pool(pool_id) ==> ({
                let p = old(self).spec_pool(pool_id);
                p.reserve_0 + deposit_0 <= u64::MAX && p.reserve_1 + deposit_1 <= u64::MAX
            }),
        ensures
            final(self).wf(),
            final(self).contract_id == old(self).contract_id,
            final(self).fees == old(self).fees,
            !old(self).has_pool(pool_id) ==> r == Err::<(), AmmError>(AmmError::PoolDoesNotExist)
                && final(self).pools@ == old(self).pools@,
            old(self).has_pool(pool_id) ==> ({
                let p = old(self).spec_pool(pool_id);
                if amount_0_out == 0 && amount_1_out == 0 {
                    r == Err::<(), AmmError>(AmmError::ZeroInputAmount) && final(self).pools@
                        == old(self).pools@
                } else if amount_0_out > p.reserve_0 || amount_1_out > p.reserve_1 {
                    r == Err::<(), AmmError>(AmmError::InsufficientLiquidity) && final(self).pools@ == old(self).pools@
                } else if !spec_swap_ok(
                    old(self).fees,
                    pool_id,
                    p,
                    amount_0_out as int,
                    amount_1_out as int,
                    deposit_0 as int,
                    deposit_1 as int,
                ) {
                    r == Err::<(), AmmError>(AmmError::CurveInvariantViolation) && final(self).pools@ == old(self).pools@
                } else {
                    r == Ok::<(), AmmError>(()) && final(self).pools@ == old(self).pools@.update(
                        old(self).pool_index(pool_id),
                        (pool_id, spec_after_swap(p, amount_0_out, amount_1_out, deposit_0, deposit_1)),
                    )
                }
            }),
    {
        let idx = match self.find_pool(&pool_id) {
            Some(i) => i,
            None => { return Err(AmmError::PoolDoesNotExist) },
        };
        proof {
            self.lemma_index_is(pool_id, idx as int);
        }
        let p = self.pools[idx].1;
        if amount_0_out == 0 && amount_1_out == 0 {
            return Err(AmmError::ZeroInputAmount);
        }
        if amount_0_out > p.reserve_0 || amount_1_out > p.reserve_1 {
            return Err(AmmError::InsufficientLiquidity);
        }
        let b0 = p.reserve_0 - amount_0_out + deposit_0;
        let b1 = p.reserve_1 - amount_1_out + deposit_1;
        let fee = if pool_id.is_stable {
            self.fees.lp_fee_stable + self.fees.protocol_fee_stable
        } else {
            self.fees.lp_fee_volatile + self.fees.protocol_fee_volatile
        };
        let phi0 = calculate_fee_to_subtract(deposit_0, fee);
        let phi1 = calculate_fee_to_subtract(deposit_1, fee);
        let b0a = b0 - phi0;
        let b1a = b1 - phi1;
        let pd0 = pow_decimals(p.decimals_0);
        let pd1 = pow_decimals(p.decimals_1);
        let k_new = k(pool_id.is_stable, b0a, b1a, pd0, pd1);
        let k_old = k(pool_id.is_stable, p.reserve_0, p.reserve_1, pd0, pd1);
        match (k_new, k_old) {
            (Option::Some(knw), Option::Some(kow)) => {
                if knw.lt(kow) {
                    return Err(AmmError::CurveInvariantViolation);
                }
                let newp = PoolMetadata {
                    reserve_0: b0,
                    reserve_1: b1,
                    liquidity: p.liquidity,
                    decimals_0: p.decimals_0,
                    decimals_1: p.decimals_1,
                };
                self.pools[idx] = (pool_id, newp);
                proof {
                    assert forall|i: int| 0 <= i < self.pools@.len() implies pool_wf(
                        self.contract_id,
                        (#[trigger] self.pools@[i]).0,
                        self.pools@[i].1,
                    ) by {
                        assert(old(self).pools@[i].0 == self.pools@[i].0 || i == idx as int);
                    }
                }
                Ok(())
            },
            _ => Err(AmmError::CurveInvariantViolation),
        }
    }
}

/// The metadata of one liquidity receipt, as the asset ledger reports it.
#[derive(Debug)]
pub struct LpAssetInfo {
    pub asset_id: AssetId,
    pub name: String,
    pub symbol: String,
    pub decimals: u8,
    pub total_supply: u64,
}

/// Assembles a receipt's metadata from the ledger's four answers: a record
/// exactly when every field is reported, and nothing otherwise.
pub fn lp_asset_info(
    asset_id: AssetId,
    name: Option<String>,
    symbol: Option<String>,
    decimals: Option<u8>,
    total_supply: Option<u64>,
) -> (r: Option<LpAssetInfo>)
    ensures
        (r is Some) == (name is Some && symbol is Some && decimals is Some
            && total_supply is Some),
        r matches Some(info) ==> {
            &&& info.asset_id == asset_id
            &&& (match name {
                Some(n) => info.name@ == n@,
                None => false,
            })
            &&& (match symbol {
                Some(sy) => info.symbol@ == sy@,
                None => false,
            })
            &&& (match decimals {
                Some(d) => info.decimals == d,
                None => false,
            })
            &&& (match total_supply {
                Some(t) => info.total_supply == t,
                None => false,
            })
        },
{
    match (name, symbol, decimals, total_supply) {
        (Some(name), Some(symbol), Some(decimals), Some(total_supply)) => Some(
            LpAssetInfo { asset_id, name, symbol, decimals, total_supply },
        ),
        _ => None,
    }
}

} // verus!
