//! Senior/junior tranche accounting for a tokenised real-world-asset pool.
//!
//! The library holds the whole ledger of the tranche contract as plain values
//! and decides every operation: subscriptions, redemptions, yield payouts
//! and loss absorption. Each operation returns the token transfers and the
//! events that the hosting environment must carry out, in order.
pub mod account;
pub mod ledger;
pub mod payout;
pub mod tranche;
pub mod laws;
pub mod runs;
pub mod accept;
