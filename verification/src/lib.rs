//! Core of an automated market maker: canonical pool identities, liquidity
//! accounting, swap execution against a constant-product and a stable curve,
//! and an off-ledger router that quotes multi-hop trades.

pub mod math;
pub mod wide;
pub mod errors;
pub mod ids;
pub mod curve;
pub mod amm;
pub mod router;
pub mod wallet;
pub mod laws;
