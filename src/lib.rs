//! Constant-product liquidity pools, a share ledger, a multi-hop router and
//! the minter rules of a vesting contract, with their contracts proved.

pub mod error;
pub mod math;
pub mod shares;
pub mod pool;
pub mod multihop;
pub mod laws;
pub mod vesting;
