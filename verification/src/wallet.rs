//! Client-side bookkeeping: the balances a wallet holds around one pool,
//! and the asset configuration test wallets are provisioned with.

use vstd::prelude::*;

verus! {

/// How many distinct assets a provisioned test wallet receives.
pub const NUMBER_OF_ASSETS: u64 = 5;

/// How many coins of each asset a provisioned test wallet receives.
pub const COINS_PER_ASSET: u64 = 100;

/// The amount on each provisioned coin.
pub const AMOUNT_PER_COIN: u64 = 1_000_000;

/// A wallet's balances of the three assets around one pool: the pair and
/// the pool's liquidity receipt.
#[derive(Clone, Copy, PartialEq, Eq, Structural, Debug)]
pub struct WalletBalances {
    pub asset_a: u64,
    pub asset_b: u64,
    pub liquidity_pool_asset: u64,
}

/// How a wallet is provisioned with assets.
#[derive(Clone, Copy, PartialEq, Eq, Structural, Debug)]
pub struct WalletAssetConfiguration {
    pub number_of_assets: u64,
    pub coins_per_asset: u64,
    pub amount_per_coin: u64,
}

impl Default for WalletAssetConfiguration {
    /// The stock provisioning.
    fn default() -> (r: Self)
        ensures
            r.number_of_assets == NUMBER_OF_ASSETS,
            r.coins_per_asset == COINS_PER_ASSET,
            r.amount_per_coin == AMOUNT_PER_COIN,
    {
        Self {
            number_of_assets: NUMBER_OF_ASSETS,
            coins_per_asset: COINS_PER_ASSET,
            amount_per_coin: AMOUNT_PER_COIN,
        }
    }
}

} // verus!
