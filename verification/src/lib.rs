//! Keyed reconciliation of a list against the reactive scopes that its rows own.

pub mod scope;
pub mod matching;
pub mod ledger;
pub mod keyed;
pub mod laws;
pub mod map;
pub mod transition;
pub mod error_boundary;
