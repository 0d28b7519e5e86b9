//! Batch-auction trading core: an order-book ledger, a deterministic
//! uniform-price batch matching engine, an atomic settlement executor, and a
//! slot-reservation admission gate that decides when a batch may execute.

pub mod gate;
pub mod matching;
pub mod orders;
pub mod settlement;
pub mod sums;
