//! An in-memory limit-order-book trading engine: price-time-priority books per
//! market, a ledger of user balances and holdings, and the decisions of the two
//! serialized state owners that connect them.

pub mod domain;
pub mod book;
pub mod ledger;
pub mod markets;
pub mod dto;
