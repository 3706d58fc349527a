//! Rock-paper-scissors sessions between a host and an opponent, kept in the
//! contract's storage under the ordered pair of their addresses.

pub mod contract;
pub mod error;
pub mod laws;
pub mod msg;
pub mod state;
pub mod store;
