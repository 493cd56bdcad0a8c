//! Types shared by the three engines: outbound ledger commands, the result of
//! an operation, and the error kinds.

use vstd::prelude::*;

verus! {

/// A follow-up command addressed to an external token ledger.  Commands are
/// queued by an operation and dispatched by the hosting environment only
/// after the operation returns; if any of them fails, the environment rolls
/// the whole invocation back.
#[derive(Clone, Copy, Debug, PartialEq, Eq)]
pub enum Command {
    /// Transfer `amount` units of the token ledger `token` to account `to`.
    Transfer { token: u64, to: u64, amount: u128 },
    /// Burn `amount` units on the token ledger `token`.
    Burn { token: u64, amount: u128 },
    /// Mint `amount` units on the token ledger `token` to account `to`.
    Mint { token: u64, to: u64, amount: u128 },
}

/// The successful outcome of an operation: the ledger commands it queued,
/// in dispatch order.
#[derive(Clone, Debug, PartialEq, Eq)]
pub struct Response {
    pub messages: Vec<Command>,
}

/// Why an operation failed.  Every failure is terminal for the invocation:
/// the caller must treat the state as unchanged.
#[derive(Clone, Debug, PartialEq, Eq)]
pub enum ContractError {
    /// The caller is not the configured owner, or no owner is configured.
    Unauthorized,
    /// A deposit notification arrived from an unrecognized token ledger.
    UnacceptableToken,
    /// The cached token-B balance is below the computed payout.
    NotEnoughBfot,
    /// The cached token-A balance is below the reward owed.
    NotEnoughFot,
    /// The aggregate staked cache is below the stake to release.
    NotEnoughGfot,
    /// A claim was attempted with no reward owed.
    NoReward,
    /// An unstake was attempted with nothing staked.
    NoStaked,
    /// A staker-range scan could not be materialized.
    Map2ListFailed,
    /// The migration hook ran against an unexpected prior contract identity.
    CannotMigrate { previous_contract: String },
}

} // verus!
