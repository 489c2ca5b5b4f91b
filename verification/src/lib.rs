//! A ledger forecasting engine: a tree of named accounts is projected forward
//! in time under recurring transfers and compounding interest.

pub mod accounts;
pub mod addressing;
pub mod date;
pub mod decimal;
pub mod errors;
pub mod expression;
pub mod history;
pub mod iterators;
pub mod laws;
pub mod ledger;
pub mod merge;
pub mod money;
pub mod ordered_iterator;
pub mod plan;
pub mod transaction;
