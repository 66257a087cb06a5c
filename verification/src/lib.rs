//! Client-side core of a federated e-cash wallet: denominations, coin custody,
//! exact coin selection and the bookkeeping of pending issuances.

pub mod amount;
pub mod change;
pub mod client;
pub mod coins;
pub mod laws;
pub mod store;
pub mod tiers;
pub mod tracker;
pub mod transfer;
