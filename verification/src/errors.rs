//! Failure taxonomy.  Engine errors reject a request before or after the
//! curve math runs; router errors are local to a quoting call.

use vstd::prelude::*;

verus! {

/// Why an on-ledger operation was refused.  Every failure rolls the whole
/// operation back.
#[derive(Clone, Copy, PartialEq, Eq, Structural, Debug)]
pub enum AmmError {
    /// The two resolved asset identifiers of a new pool are equal.
    IdenticalAssets,
    /// A pool with this canonical identity is already registered.
    PoolAlreadyExists,
    /// No pool is registered under this identity.
    PoolDoesNotExist,
    /// The asset handed back for a burn is not the pool's liquidity receipt.
    InvalidAsset,
    /// A zero amount where the operation needs a positive one.
    ZeroInputAmount,
    /// A swap requests more of an asset than the pool holds.
    InsufficientLiquidity,
    /// The first deposit is too small to cover the permanently locked
    /// minimum liquidity.
    CannotAddLessThanMinimumLiquidity,
    /// The post-fee invariant of the pool's curve would decrease.
    CurveInvariantViolation,
    /// A burn whose rounded output would silently forfeit a non-zero reserve.
    TransferZeroCoins,
}

/// Why a router quote failed.  Quotes never mutate state.
#[derive(Clone, Copy, PartialEq, Eq, Structural, Debug)]
pub enum RouterError {
    /// A quote for a zero input amount.
    ZeroInputAmount,
    /// A quote for a zero output amount.
    ZeroOutputAmount,
    /// A requested output at least as large as the reserve that pays it.
    InvalidOutputAmount,
    /// The stable solver hit a degenerate or out-of-domain state: a zero
    /// derivative step, or a value outside the 256-bit range.
    GetYFailed,
    /// An empty pool path.
    InvalidPath,
    /// A hop's pool is missing from the supplied snapshot.
    PoolNotPresent,
    /// A computed output amount that no ledger amount can represent.
    InvalidAmountOut,
    /// A computed input amount that no ledger amount can represent.
    InvalidAmountIn,
}

} // verus!
