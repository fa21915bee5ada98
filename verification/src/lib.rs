//! A rate-limited reward ledger.
//!
//! The ledger hands out a scarce reward ("a cupcake") to addressable
//! identities. For each identity it keeps a cumulative grant count and the
//! time of the most recent grant; a new grant is allowed only once the
//! cooldown period has passed since that time. The eligibility check and
//! the two updates are one indivisible, fully specified operation.

pub mod identity;
pub mod ledger;

pub use identity::Identity;
pub use ledger::VendingMachine;
