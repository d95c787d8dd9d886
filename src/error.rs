use vstd::prelude::*;

verus! {

/// Every typed failure of the pool, the router and the vesting rules.
#[derive(Clone, Copy, Debug, PartialEq, Eq, Structural)]
pub enum ContractError {
    /// A quantity is non-positive, too large, or rounds to nothing.
    InvalidAmount,
    /// The operation needs a funded pool.
    EmptyPool,
    /// A realized amount is below the caller's bound or off the pool's price.
    SlippageExceeded,
    /// The trade's price deviates from the spot price beyond the pool's bound.
    SpreadExceeded,
    /// The offered asset is not one of the pool's two reserves.
    AssetMismatch,
    /// A burn exceeds the holder's balance.
    InsufficientBalance,
    /// Consecutive legs of a route do not connect.
    InvalidRoute,
    /// A route without legs.
    OperationsEmpty,
    /// No pool serves a leg's asset pair.
    PoolNotFound,
    /// The deadline has passed.
    Expired,
}

/// Failures of the vesting contract's rules.
#[derive(Clone, Copy, Debug, PartialEq, Eq, Structural)]
pub enum VestingError {
    MissingBalance,
    NoEnoughtTokensToStart,
    TotalVestedOverCapacity,
    InvalidTransferAmount,
    NeverFullyVested,
    InvalidBurnAmount,
    InvalidMintAmount,
    MinterNotFound,
    NotAuthorized,
    NotEnoughCapacity,
    NotEnoughBalance,
}

} // verus!
