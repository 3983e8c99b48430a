//! The off-ledger router: multi-hop quotes over caller-supplied snapshots of
//! pool state.  Quotes never mutate anything and can be stale the moment
//! they are computed; callers re-validate on execution.

use vstd::prelude::*;
use crate::amm::{AmmFees, PoolMetadata, spec_total_fee};
use crate::curve::{
    get_amount_in, get_amount_out, spec_fee_to_add, spec_fee_to_subtract, spec_get_amount_in,
    spec_get_amount_out, subtract_fee,
};
use crate::errors::RouterError;
use crate::ids::{AssetId, PoolId};
use crate::math::{MAX_DECIMALS, pow10, pow_decimals, rounding_up_division};
use vstd::arithmetic::div_mod::{lemma_div_is_ordered, lemma_div_multiples_vanish_fancy};
use vstd::arithmetic::mul::{lemma_mul_inequality, lemma_mul_upper_bound};

verus! {

/// The first snapshot entry for a pool identity, if any.
pub open spec fn spec_snapshot_find(s: Seq<(PoolId, PoolMetadata)>, id: PoolId) -> Option<
    PoolMetadata,
>
    decreases s.len(),
{
    if s.len() == 0 {
        Option::None
    } else if s[0].0 == id {
        Option::Some(s[0].1)
    } else {
        spec_snapshot_find(s.skip(1), id)
    }
}

/// Every pool of a snapshot carries decimals the curve can normalize.
pub open spec fn snapshot_wf(s: Seq<(PoolId, PoolMetadata)>) -> bool {
    forall|i: int|
        0 <= i < s.len() ==> (#[trigger] s[i]).1.decimals_0 <= MAX_DECIMALS
            && s[i].1.decimals_1 <= MAX_DECIMALS
}

/// Both curve variants leave room in the basis-point denominator.
pub open spec fn fees_wf(fees: AmmFees) -> bool {
    &&& fees.lp_fee_volatile + fees.protocol_fee_volatile < 10_000
    &&& fees.lp_fee_stable + fees.protocol_fee_stable < 10_000
}

/// One forward hop: the fee leaves the input, the pool quotes the rest.  An
/// input asset that is not the pool's first side trades against its second.
pub open spec fn spec_hop_out(
    fees: AmmFees,
    pool_id: PoolId,
    p: PoolMetadata,
    amount_in: int,
    asset_in: AssetId,
) -> Result<(int, AssetId), RouterError> {
    let fee = spec_total_fee(fees, pool_id.is_stable);
    let net = amount_in - spec_fee_to_subtract(amount_in, fee);
    let quoted = if asset_in == pool_id.asset_0 {
        spec_get_amount_out(
            pool_id.is_stable,
            p.reserve_0 as int,
            p.reserve_1 as int,
            pow10(p.decimals_0 as nat) as int,
            pow10(p.decimals_1 as nat) as int,
            net,
        )
    } else {
        spec_get_amount_out(
            pool_id.is_stable,
            p.reserve_1 as int,
            p.reserve_0 as int,
            pow10(p.decimals_1 as nat) as int,
            pow10(p.decimals_0 as nat) as int,
            net,
        )
    };
    let asset_out = if pool_id.asset_0 == asset_in {
        pool_id.asset_1
    } else {
        pool_id.asset_0
    };
    match quoted {
        Ok(v) => Ok((v, asset_out)),
        Err(e) => Err(e),
    }
}

/// The forward walk: the running trace of amounts, starting with what the
/// trader supplies and ending with what the last hop pays out.
pub open spec fn spec_walk_out(
    fees: AmmFees,
    snapshot: Seq<(PoolId, PoolMetadata)>,
    pools: Seq<PoolId>,
    amount: int,
    asset: AssetId,
) -> Result<Seq<(int, AssetId)>, RouterError>
    decreases pools.len(),
{
    if pools.len() == 0 {
        Ok(seq![(amount, asset)])
    } else {
        match spec_snapshot_find(snapshot, pools[0]) {
            Option::None => Err(RouterError::PoolNotPresent),
            Option::Some(p) => match spec_hop_out(fees, pools[0], p, amount, asset) {
                Err(e) => Err(e),
                Ok(next) => match spec_walk_out(fees, snapshot, pools.skip(1), next.0, next.1) {
                    Err(e) => Err(e),
                    Ok(rest) => Ok(seq![(amount, asset)] + rest),
                },
            },
        }
    }
}

/// A forward quote over a path: the whole trace, or the first failure.
pub open spec fn spec_get_amounts_out(
    fees: AmmFees,
    snapshot: Seq<(PoolId, PoolMetadata)>,
    pools: Seq<PoolId>,
    amount_in: int,
    asset_in: AssetId,
) -> Result<Seq<(int, AssetId)>, RouterError> {
    if pools.len() == 0 {
        Err(RouterError::InvalidPath)
    } else {
        spec_walk_out(fees, snapshot, pools, amount_in, asset_in)
    }
}

/// One backward hop: the pool quotes the required input, which must be a
/// ledger amount, and the fee is grossed up on top, hop by hop.
pub open spec fn spec_hop_in(
    fees: AmmFees,
    pool_id: PoolId,
    p: PoolMetadata,
    amount_out: int,
    asset_out: AssetId,
) -> Result<(int, AssetId), RouterError> {
    let fee = spec_total_fee(fees, pool_id.is_stable);
    let quoted = if asset_out == pool_id.asset_0 {
        spec_get_amount_in(
            pool_id.is_stable,
            p.reserve_1 as int,
            p.reserve_0 as int,
            pow10(p.decimals_1 as nat) as int,
            pow10(p.decimals_0 as nat) as int,
            amount_out,
        )
    } else {
        spec_get_amount_in(
            pool_id.is_stable,
            p.reserve_0 as int,
            p.reserve_1 as int,
            pow10(p.decimals_0 as nat) as int,
            pow10(p.decimals_1 as nat) as int,
            amount_out,
        )
    };
    let asset_in = if pool_id.asset_0 == asset_out {
        pool_id.asset_1
    } else {
        pool_id.asset_0
    };
    match quoted {
        Err(e) => Err(e),
        Ok(v) => {
            if v > u64::MAX {
                Err(RouterError::InvalidAmountIn)
            } else {
                let with_fee = v + spec_fee_to_add(v, fee);
                if with_fee > u64::MAX {
                    Err(RouterError::InvalidAmountIn)
                } else {
                    Ok((with_fee, asset_in))
                }
            }
        },
    }
}

/// The backward walk over the reversed path: the trace starts with the
/// desired output and ends with what the trader must supply, fees included.
pub open spec fn spec_walk_in(
    fees: AmmFees,
    snapshot: Seq<(PoolId, PoolMetadata)>,
    pools: Seq<PoolId>,
    amount: int,
    asset: AssetId,
) -> Result<Seq<(int, AssetId)>, RouterError>
    decreases pools.len(),
{
    if pools.len() == 0 {
        Ok(seq![(amount, asset)])
    } else {
        match spec_snapshot_find(snapshot, pools.last()) {
            Option::None => Err(RouterError::PoolNotPresent),
            Option::Some(p) => match spec_hop_in(fees, pools.last(), p, amount, asset) {
                Err(e) => Err(e),
                Ok(next) => match spec_walk_in(
                    fees,
                    snapshot,
                    pools.drop_last(),
                    next.0,
                    next.1,
                ) {
                    Err(e) => Err(e),
                    Ok(rest) => Ok(seq![(amount, asset)] + rest),
                },
            },
        }
    }
}

/// A backward quote over a path: the whole trace, or the first failure.
pub open spec fn spec_get_amounts_in(
    fees: AmmFees,
    snapshot: Seq<(PoolId, PoolMetadata)>,
    pools: Seq<PoolId>,
    amount_out: int,
    asset_out: AssetId,
) -> Result<Seq<(int, AssetId)>, RouterError> {
    if pools.len() == 0 {
        Err(RouterError::InvalidPath)
    } else {
        spec_walk_in(fees, snapshot, pools, amount_out, asset_out)
    }
}

/// A trace of ledger amounts, viewed as unbounded integers.
pub open spec fn amounts_view(v: Seq<(u64, AssetId)>) -> Seq<(int, AssetId)> {
    v.map_values(|t: (u64, AssetId)| (t.0 as int, t.1))
}

/// A pool found in a well-formed snapshot keeps its decimals in range.
proof fn lemma_snapshot_find_wf(s: Seq<(PoolId, PoolMetadata)>, id: PoolId)
    requires
        snapshot_wf(s),
    ensures
        match spec_snapshot_find(s, id) {
            Option::Some(p) => p.decimals_0 <= MAX_DECIMALS && p.decimals_1 <= MAX_DECIMALS,
            Option::None => true,
        },
    decreases s.len(),
{
    if s.len() == 0 {
    } else if s[0].0 == id {
        assert(s[0].1.decimals_0 <= MAX_DECIMALS);
    } else {
        assert forall|i: int| 0 <= i < s.skip(1).len() implies (#[trigger] s.skip(
            1,
        )[i]).1.decimals_0 <= MAX_DECIMALS && s.skip(1)[i].1.decimals_1 <= MAX_DECIMALS by {
            assert(s.skip(1)[i] == s[i + 1]);
        }
        lemma_snapshot_find_wf(s.skip(1), id);
    }
}

/// Looks a pool up in a snapshot: the first entry under its identity.
fn snapshot_find(pools_metadata: &Vec<(PoolId, PoolMetadata)>, pool_id: &PoolId) -> (r: Option<
    PoolMetadata,
>)
    ensures
        r == spec_snapshot_find(pools_metadata@, *pool_id),
{
    let n = pools_metadata.len();
    let mut i: usize = 0;
    proof {
        assert(pools_metadata@.skip(0) =~= pools_metadata@);
    }
    while i < n
        invariant
            n == pools_metadata@.len(),
            i <= n,
            spec_snapshot_find(pools_metadata@, *pool_id) == spec_snapshot_find(
                pools_metadata@.skip(i as int),
                *pool_id,
            ),
        decreases n - i,
    {
        let entry = &pools_metadata[i];
        proof {
            assert(pools_metadata@.skip(i as int)[0] == pools_metadata@[i as int]);
            assert(pools_metadata@.skip(i as int).skip(1) =~= pools_metadata@.skip(i as int + 1));
        }
        if entry.0.asset_0 == pool_id.asset_0 && entry.0.asset_1 == pool_id.asset_1
            && entry.0.is_stable == pool_id.is_stable {
            return Some(entry.1);
        }
        i = i + 1;
    }
    proof {
        assert(pools_metadata@.skip(n as int).len() == 0);
    }
    None
}

/// Walks a path forward from `amount_in` of `asset_in`, returning the trace
/// of amounts: what enters, every intermediate amount, and what leaves.
pub fn get_amounts_out(
    fees: &AmmFees,
    amount_in: u64,
    asset_in: AssetId,
    pools: &Vec<PoolId>,
    pools_metadata: &Vec<(PoolId, PoolMetadata)>,
) -> (r: Result<Vec<(u64, AssetId)>, RouterError>)
    requires
        fees_wf(*fees),
        snapshot_wf(pools_metadata@),
    ensures
        match r {
            Ok(v) => spec_get_amounts_out(*fees, pools_metadata@, pools@, amount_in as int, asset_in)
                == Ok::<Seq<(int, AssetId)>, RouterError>(amounts_view(v@)),
            Err(e) => spec_get_amounts_out(
                *fees,
                pools_metadata@,
                pools@,
                amount_in as int,
                asset_in,
            ) == Err::<Seq<(int, AssetId)>, RouterError>(e),
        },
{
    let n = pools.len();
    if n == 0 {
        return Err(RouterError::InvalidPath);
    }
    let stable_fee = fees.lp_fee_stable + fees.protocol_fee_stable;
    let volatile_fee = fees.lp_fee_volatile + fees.protocol_fee_volatile;
    let mut amounts: Vec<(u64, AssetId)> = Vec::new();
    amounts.push((amount_in, asset_in));
    let mut i: usize = 0;
    proof {
        assert(pools@.skip(0) =~= pools@);
        assert(amounts@.drop_last() =~= Seq::<(u64, AssetId)>::empty());
        let w = spec_walk_out(*fees, pools_metadata@, pools@, amount_in as int, asset_in);
        let rest = w->Ok_0;
        assert(amounts_view(amounts@.drop_last()) + rest =~= rest);
    }
    while i < n
        invariant
            n == pools@.len(),
            i <= n,
            fees_wf(*fees),
            snapshot_wf(pools_metadata@),
            stable_fee == fees.lp_fee_stable + fees.protocol_fee_stable,
            volatile_fee == fees.lp_fee_volatile + fees.protocol_fee_volatile,
            amounts@.len() == i + 1,
            spec_get_amounts_out(*fees, pools_metadata@, pools@, amount_in as int, asset_in)
                == (match spec_walk_out(
                *fees,
                pools_metadata@,
                pools@.skip(i as int),
                amounts@.last().0 as int,
                amounts@.last().1,
            ) {
                Ok(rest) => Ok::<Seq<(int, AssetId)>, RouterError>(
                    amounts_view(amounts@.drop_last()) + rest,
                ),
                Err(e) => Err::<Seq<(int, AssetId)>, RouterError>(e),
            }),
        decreases n - i,
    {
        let pool_id = pools[i];
        proof {
            assert(pools@.skip(i as int)[0] == pools@[i as int]);
            assert(pools@.skip(i as int).skip(1) =~= pools@.skip(i as int + 1));
        }
        proof {
            lemma_snapshot_find_wf(pools_metadata@, pool_id);
        }
        let p = match snapshot_find(pools_metadata, &pool_id) {
            Some(p) => p,
            None => { return Err(RouterError::PoolNotPresent); },
        };
        let last = amounts[amounts.len() - 1];
        let fee = if pool_id.is_stable {
            stable_fee
        } else {
            volatile_fee
        };
        let net = subtract_fee(last.0, fee);
        let quoted = if last.1.hi == pool_id.asset_0.hi && last.1.lo == pool_id.asset_0.lo {
            get_amount_out(
                pool_id.is_stable,
                p.reserve_0,
                p.reserve_1,
                pow_decimals(p.decimals_0),
                pow_decimals(p.decimals_1),
                net,
            )
        } else {
            get_amount_out(
                pool_id.is_stable,
                p.reserve_1,
                p.reserve_0,
                pow_decimals(p.decimals_1),
                pow_decimals(p.decimals_0),
                net,
            )
        };
        let amount_out = match quoted {
            Ok(v) => v,
            Err(e) => { return Err(e); },
        };
        let asset_out = if pool_id.asset_0.hi == last.1.hi && pool_id.asset_0.lo == last.1.lo {
            pool_id.asset_1
        } else {
            pool_id.asset_0
        };
        let ghost amounts_old = amounts@;
        amounts.push((amount_out, asset_out));
        proof {
            assert(amounts@.drop_last() =~= amounts_old);
            assert(amounts_view(amounts_old) =~= amounts_view(amounts_old.drop_last()) + seq![
                (amounts_old.last().0 as int, amounts_old.last().1),
            ]);
            assert(spec_hop_out(*fees, pool_id, p, last.0 as int, last.1) == Ok::<
                (int, AssetId),
                RouterError,
            >((amount_out as int, asset_out)));
            let w = spec_walk_out(
                *fees,
                pools_metadata@,
                pools@.skip(i as int + 1),
                amount_out as int,
                asset_out,
            );
            let rest = w->Ok_0;
            assert(amounts_view(amounts_old.drop_last()) + (seq![(last.0 as int, last.1)] + rest)
                =~= amounts_view(amounts_old) + rest);
        }
        i = i + 1;
    }
    proof {
        assert(pools@.skip(n as int).len() == 0);
        assert(amounts_view(amounts@.drop_last()) + seq![
            (amounts@.last().0 as int, amounts@.last().1),
        ] =~= amounts_view(amounts@));
    }
    Ok(amounts)
}

/// Walks a path backward from a desired `amount_out` of `asset_out`,
/// returning the trace of amounts: what leaves, every intermediate
/// requirement, and what the trader must supply with fees grossed up.
pub fn get_amounts_in(
    fees: &AmmFees,
    amount_out: u64,
    asset_out: AssetId,
    pools: &Vec<PoolId>,
    pools_metadata: &Vec<(PoolId, PoolMetadata)>,
) -> (r: Result<Vec<(u64, AssetId)>, RouterError>)
    requires
        fees_wf(*fees),
        snapshot_wf(pools_metadata@),
    ensures
        match r {
            Ok(v) => spec_get_amounts_in(
                *fees,
                pools_metadata@,
                pools@,
                amount_out as int,
                asset_out,
            ) == Ok::<Seq<(int, AssetId)>, RouterError>(amounts_view(v@)),
            Err(e) => spec_get_amounts_in(
                *fees,
                pools_metadata@,
                pools@,
                amount_out as int,
                asset_out,
            ) == Err::<Seq<(int, AssetId)>, RouterError>(e),
        },
{
    let n = pools.len();
    if n == 0 {
        return Err(RouterError::InvalidPath);
    }
    let stable_fee = fees.lp_fee_stable + fees.protocol_fee_stable;
    let volatile_fee = fees.lp_fee_volatile + fees.protocol_fee_volatile;
    let mut amounts: Vec<(u64, AssetId)> = Vec::new();
    amounts.push((amount_out, asset_out));
    let mut i: usize = 0;
    proof {
        assert(pools@.take(n as int) =~= pools@);
        assert(amounts@.drop_last() =~= Seq::<(u64, AssetId)>::empty());
        let w = spec_walk_in(*fees, pools_metadata@, pools@, amount_out as int, asset_out);
        let rest = w->Ok_0;
        assert(amounts_view(amounts@.drop_last()) + rest =~= rest);
    }
    while i < n
        invariant
            n == pools@.len(),
            i <= n,
            fees_wf(*fees),
            snapshot_wf(pools_metadata@),
            stable_fee == fees.lp_fee_stable + fees.protocol_fee_stable,
            volatile_fee == fees.lp_fee_volatile + fees.protocol_fee_volatile,
            amounts@.len() == i + 1,
            spec_get_amounts_in(*fees, pools_metadata@, pools@, amount_out as int, asset_out)
                == (match spec_walk_in(
                *fees,
                pools_metadata@,
                pools@.take((n - i) as int),
                amounts@.last().0 as int,
                amounts@.last().1,
            ) {
                Ok(rest) => Ok::<Seq<(int, AssetId)>, RouterError>(
                    amounts_view(amounts@.drop_last()) + rest,
                ),
                Err(e) => Err::<Seq<(int, AssetId)>, RouterError>(e),
            }),
        decreases n - i,
    {
        let pool_id = pools[n - 1 - i];
        proof {
            assert(pools@.take((n - i) as int).last() == pools@[n - 1 - i as int]);
            assert(pools@.take((n - i) as int).drop_last() =~= pools@.take((n - i - 1) as int));
            lemma_snapshot_find_wf(pools_metadata@, pool_id);
        }
        let p = match snapshot_find(pools_metadata, &pool_id) {
            Some(p) => p,
            None => { return Err(RouterError::PoolNotPresent); },
        };
        let last = amounts[amounts.len() - 1];
        let fee = if pool_id.is_stable {
            stable_fee
        } else {
            volatile_fee
        };
        let quoted = if last.1.hi == pool_id.asset_0.hi && last.1.lo == pool_id.asset_0.lo {
            get_amount_in(
                pool_id.is_stable,
                p.reserve_1,
                p.reserve_0,
                pow_decimals(p.decimals_1),
                pow_decimals(p.decimals_0),
                last.0,
            )
        } else {
            get_amount_in(
                pool_id.is_stable,
                p.reserve_0,
                p.reserve_1,
                pow_decimals(p.decimals_0),
                pow_decimals(p.decimals_1),
                last.0,
            )
        };
        let amount_in_wide = match quoted {
            Ok(v) => v,
            Err(e) => { return Err(e); },
        };
        if amount_in_wide > u64::MAX as u128 {
            return Err(RouterError::InvalidAmountIn);
        }
        proof {
            lemma_mul_upper_bound(amount_in_wide as int, u64::MAX as int, fee as int, 10_000);
        }
        let fee_add = rounding_up_division(amount_in_wide * fee as u128, (10_000 - fee) as u128);
        proof {
            let a = (amount_in_wide * fee as u128) as int;
            let b = 10_000 - fee as int;
            lemma_mul_inequality(1, b, a);
            assert(a * b == b * a) by (nonlinear_arith);
            lemma_div_is_ordered(a + b - 1, a * b + b - 1, b);
            lemma_div_multiples_vanish_fancy(a, b - 1, b);
        }
        let total_in = amount_in_wide + fee_add;
        if total_in > u64::MAX as u128 {
            return Err(RouterError::InvalidAmountIn);
        }
        let asset_in = if pool_id.asset_0.hi == last.1.hi && pool_id.asset_0.lo == last.1.lo {
            pool_id.asset_1
        } else {
            pool_id.asset_0
        };
        let ghost amounts_old = amounts@;
        amounts.push((total_in as u64, asset_in));
        proof {
            assert(amounts@.drop_last() =~= amounts_old);
            assert(amounts_view(amounts_old) =~= amounts_view(amounts_old.drop_last()) + seq![
                (amounts_old.last().0 as int, amounts_old.last().1),
            ]);
            assert(spec_hop_in(*fees, pool_id, p, last.0 as int, last.1) == Ok::<
                (int, AssetId),
                RouterError,
            >((total_in as int, asset_in)));
            let w = spec_walk_in(
                *fees,
                pools_metadata@,
                pools@.take((n - i - 1) as int),
                total_in as int,
                asset_in,
            );
            let rest = w->Ok_0;
            assert(amounts_view(amounts_old.drop_last()) + (seq![(last.0 as int, last.1)] + rest)
                =~= amounts_view(amounts_old) + rest);
        }
        i = i + 1;
    }
    proof {
        assert(pools@.take(0).len() == 0);
        assert(amounts_view(amounts@.drop_last()) + seq![
            (amounts@.last().0 as int, amounts@.last().1),
        ] =~= amounts_view(amounts@));
    }
    Ok(amounts)
}

} // verus!
