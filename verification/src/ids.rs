//! Identifiers: assets, sub-identifiers, contracts, and the canonical pool
//! identity.  A 256-bit identifier is held as two 128-bit halves, ordered by
//! its numeric value.  The liquidity-receipt asset of a pool is derived by
//! hashing, through a trusted digest wrapper.

use vstd::prelude::*;
use vstd::bytes::{spec_u128_to_le_bytes, spec_u128_from_le_bytes, u128_to_le_bytes, u128_from_le_bytes};
use vstd::slice::slice_subrange;
use sha2::Digest;

verus! {

/// A ledger asset identifier: a 256-bit value.
#[derive(Clone, Copy, PartialEq, Eq, Structural, Debug)]
pub struct AssetId {
    pub hi: u128,
    pub lo: u128,
}

/// The sub-identifier distinguishing assets minted by one contract.
#[derive(Clone, Copy, PartialEq, Eq, Structural, Debug)]
pub struct SubId {
    pub hi: u128,
    pub lo: u128,
}

/// A deployed contract's identity.
#[derive(Clone, Copy, PartialEq, Eq, Structural, Debug)]
pub struct ContractId {
    pub hi: u128,
    pub lo: u128,
}

/// The canonical identity of a pool: the two assets in ascending order and
/// the curve variant.
#[derive(Clone, Copy, PartialEq, Eq, Structural, Debug)]
pub struct PoolId {
    pub asset_0: AssetId,
    pub asset_1: AssetId,
    pub is_stable: bool,
}

/// The number a 256-bit identifier stands for.
pub open spec fn id_val(hi: u128, lo: u128) -> int {
    hi * crate::wide::p128() + lo
}

/// The total order on asset identifiers that canonicalization sorts by.
pub open spec fn asset_lt(a: AssetId, b: AssetId) -> bool {
    id_val(a.hi, a.lo) < id_val(b.hi, b.lo)
}

/// A pool identity is well formed when its assets are distinct and sorted.
pub open spec fn pool_id_wf(p: PoolId) -> bool {
    asset_lt(p.asset_0, p.asset_1)
}

/// The value order on identifiers agrees with comparing the high half first.
pub proof fn lemma_id_val_order(ah: u128, al: u128, bh: u128, bl: u128)
    ensures
        (id_val(ah, al) < id_val(bh, bl)) == (ah < bh || (ah == bh && al < bl)),
{
    assert((
        ah * 0x1_0000_0000_0000_0000_0000_0000_0000_0000int + al
            < bh * 0x1_0000_0000_0000_0000_0000_0000_0000_0000int + bl
    ) == (ah < bh || (ah == bh && al < bl))) by (nonlinear_arith)
        requires
            al < 0x1_0000_0000_0000_0000_0000_0000_0000_0000int,
            bl < 0x1_0000_0000_0000_0000_0000_0000_0000_0000int,
    ;
}

impl AssetId {
    /// Strict comparison under the canonical asset order.
    pub fn lt(&self, other: &AssetId) -> (r: bool)
        ensures
            r == asset_lt(*self, *other),
    {
        proof {
            lemma_id_val_order(self.hi, self.lo, other.hi, other.lo);
        }
        self.hi < other.hi || (self.hi == other.hi && self.lo < other.lo)
    }
}

/// The 32-byte little-endian encoding of a 256-bit identifier.
pub open spec fn id_le_bytes(hi: u128, lo: u128) -> Seq<u8> {
    spec_u128_to_le_bytes(lo) + spec_u128_to_le_bytes(hi)
}

/// The two halves of a 32-byte digest, read back as one identifier.
pub open spec fn id_from_bytes(s: Seq<u8>) -> (u128, u128) {
    (spec_u128_from_le_bytes(s.subrange(16, 32)), spec_u128_from_le_bytes(s.subrange(0, 16)))
}

/// What the digest of a byte string is.  Stated only through the trusted
/// wrapper below; equal inputs give equal digests.
pub uninterp spec fn sha256_of(data: Seq<u8>) -> Seq<u8>;

/// Relies on `sha2::Sha256`: the digest is 32 bytes long and depends on the
/// input bytes alone.
#[verifier::external_body]
fn sha256_digest(data: &Vec<u8>) -> (r: Vec<u8>)
    ensures
        r@ == sha256_of(data@),
        r@.len() == 32,
{
    let mut hasher = sha2::Sha256::new();
    hasher.update(data.as_slice());
    hasher.finalize().to_vec()
}

/// Appends the 32-byte encoding of one identifier.
fn push_id_bytes(out: &mut Vec<u8>, hi: u128, lo: u128)
    ensures
        (*final(out))@ == (*old(out))@ + id_le_bytes(hi, lo),
{
    let mut lo_bytes = u128_to_le_bytes(lo);
    let mut hi_bytes = u128_to_le_bytes(hi);
    out.append(&mut lo_bytes);
    out.append(&mut hi_bytes);
}

/// Reads an identifier back out of a 32-byte digest.
fn id_of_digest(digest: &Vec<u8>) -> (r: (u128, u128))
    requires
        digest@.len() == 32,
    ensures
        r == id_from_bytes(digest@),
{
    let lo = u128_from_le_bytes(slice_subrange(digest.as_slice(), 0, 16));
    let hi = u128_from_le_bytes(slice_subrange(digest.as_slice(), 16, 32));
    (hi, lo)
}

/// The bytes hashed to derive a pool's sub-identifier: both assets, then a
/// byte telling the curve variant apart.
pub open spec fn pool_sub_id_preimage(pool_id: PoolId) -> Seq<u8> {
    id_le_bytes(pool_id.asset_0.hi, pool_id.asset_0.lo)
        + id_le_bytes(pool_id.asset_1.hi, pool_id.asset_1.lo)
        + seq![if pool_id.is_stable { 1u8 } else { 0u8 }]
}

/// The sub-identifier every pool derives its liquidity receipt from.
pub open spec fn spec_pool_sub_id(pool_id: PoolId) -> (u128, u128) {
    id_from_bytes(sha256_of(pool_sub_id_preimage(pool_id)))
}

/// The bytes hashed to derive the asset a contract mints for a sub-identifier.
pub open spec fn contract_asset_preimage(contract: ContractId, sub_hi: u128, sub_lo: u128) -> Seq<
    u8,
> {
    id_le_bytes(contract.hi, contract.lo) + id_le_bytes(sub_hi, sub_lo)
}

/// The asset identifier a contract mints for a sub-identifier.
pub open spec fn spec_contract_asset_id(contract: ContractId, sub_hi: u128, sub_lo: u128) -> (
    u128,
    u128,
) {
    id_from_bytes(sha256_of(contract_asset_preimage(contract, sub_hi, sub_lo)))
}

/// The liquidity-receipt asset of a pool under a given contract identity.
pub open spec fn spec_lp_asset_id(contract: ContractId, pool_id: PoolId) -> (u128, u128) {
    spec_contract_asset_id(
        contract,
        spec_pool_sub_id(pool_id).0,
        spec_pool_sub_id(pool_id).1,
    )
}

/// Derives the sub-identifier of a pool's liquidity receipt.
pub fn get_pool_sub_id(pool_id: &PoolId) -> (r: SubId)
    ensures
        (r.hi, r.lo) == spec_pool_sub_id(*pool_id),
{
    let mut preimage: Vec<u8> = Vec::new();
    push_id_bytes(&mut preimage, pool_id.asset_0.hi, pool_id.asset_0.lo);
    push_id_bytes(&mut preimage, pool_id.asset_1.hi, pool_id.asset_1.lo);
    if pool_id.is_stable {
        preimage.push(1u8);
    } else {
        preimage.push(0u8);
    }
    proof {
        assert(preimage@ =~= pool_sub_id_preimage(*pool_id));
    }
    let digest = sha256_digest(&preimage);
    let (hi, lo) = id_of_digest(&digest);
    SubId { hi, lo }
}

/// Derives the asset a contract mints for a sub-identifier.
pub fn get_contract_asset_id(sub_id: &SubId, contract: &ContractId) -> (r: AssetId)
    ensures
        (r.hi, r.lo) == spec_contract_asset_id(*contract, sub_id.hi, sub_id.lo),
{
    let mut preimage: Vec<u8> = Vec::new();
    push_id_bytes(&mut preimage, contract.hi, contract.lo);
    push_id_bytes(&mut preimage, sub_id.hi, sub_id.lo);
    proof {
        assert(preimage@ =~= contract_asset_preimage(*contract, sub_id.hi, sub_id.lo));
    }
    let digest = sha256_digest(&preimage);
    let (hi, lo) = id_of_digest(&digest);
    AssetId { hi, lo }
}

/// The liquidity-receipt asset of a pool under a given contract identity.
pub fn get_lp_asset_id(contract_id: &ContractId, pool_id: &PoolId) -> (r: AssetId)
    ensures
        (r.hi, r.lo) == spec_lp_asset_id(*contract_id, *pool_id),
{
    let sub_id = get_pool_sub_id(pool_id);
    get_contract_asset_id(&sub_id, contract_id)
}

/// Sorts an asset pair into the canonical order.  An already-sorted or equal
/// pair is returned unchanged.
pub fn order_token_ids(pair: (AssetId, AssetId)) -> (r: (AssetId, AssetId))
    ensures
        r == if asset_lt(pair.0, pair.1) {
            pair
        } else {
            (pair.1, pair.0)
        },
{
    if pair.0.lt(&pair.1) {
        pair
    } else {
        (pair.1, pair.0)
    }
}

/// Reorders a pair of sub-identifiers the same way their assets sort.
pub fn order_sub_ids(asset_ids: (AssetId, AssetId), sub_ids: (SubId, SubId)) -> (r: (SubId, SubId))
    ensures
        r == if asset_lt(asset_ids.0, asset_ids.1) {
            sub_ids
        } else {
            (sub_ids.1, sub_ids.0)
        },
{
    if asset_ids.0.lt(&asset_ids.1) {
        sub_ids
    } else {
        (sub_ids.1, sub_ids.0)
    }
}

/// The asset a trader must supply to end a path with `out`: walking the pools
/// backwards, each hop's other side.
pub open spec fn spec_asset_id_in(out: AssetId, pools: Seq<PoolId>) -> AssetId
    decreases pools.len(),
{
    if pools.len() == 0 {
        out
    } else {
        let p = pools.last();
        let next = if p.asset_0 == out {
            p.asset_1
        } else {
            p.asset_0
        };
        spec_asset_id_in(next, pools.drop_last())
    }
}

/// The input asset of a multi-hop path that ends in `asset_id_out`.
pub fn get_asset_id_in(asset_id_out: AssetId, pools: &Vec<PoolId>) -> (r: AssetId)
    ensures
        r == spec_asset_id_in(asset_id_out, pools@),
{
    let mut asset_out = asset_id_out;
    let mut i: usize = pools.len();
    proof {
        assert(pools@.take(pools@.len() as int) =~= pools@);
    }
    while i > 0
        invariant
            i <= pools@.len(),
            spec_asset_id_in(asset_id_out, pools@) == spec_asset_id_in(
                asset_out,
                pools@.take(i as int),
            ),
        decreases i,
    {
        i = i - 1;
        let pool = &pools[i];
        proof {
            assert(pools@.take(i + 1).last() == pools@[i as int]);
            assert(pools@.take(i + 1).drop_last() =~= pools@.take(i as int));
        }
        asset_out = if pool.asset_0 == asset_out {
            pool.asset_1
        } else {
            pool.asset_0
        };
    }
    proof {
        assert(pools@.take(0) =~= Seq::<PoolId>::empty());
    }
    asset_out
}

} // verus!
