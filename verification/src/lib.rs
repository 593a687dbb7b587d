//! A verified model of a fractional property-ownership token: share ledger,
//! KYC-gated transfers, and checkpointed dividend accounting with dust tracking.

pub mod allowance;
pub mod distribution;
pub mod fixed_point;
pub mod ledger;
pub mod meta;
pub mod sums;
pub mod validate;
pub mod token;
pub mod laws;
