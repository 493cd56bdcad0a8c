//! A three-stage token-economics engine for a chain of convertible assets:
//! a base token A burned at a supply-indexed, bracketed rate to release a
//! token B (`burn`), token B burned along a rising bonding curve to mint a
//! token C (`curve`), and a staking module that accrues pro-rata rewards in
//! token A to holders who lock token C (`staking`).
//!
//! Every operation is a pure state transition on plain values: token amounts
//! are `u128`, timestamps are unix seconds in `u64`, and account addresses are
//! opaque validated identifiers modeled as `u64`, ordered as the environment
//! orders addresses.  The hosting environment performs storage, address
//! validation and message transport, and dispatches the queued [`types::Command`]s
//! an operation returns after the operation completes.

pub mod burn;
pub mod curve;
pub mod staking;
pub mod types;
