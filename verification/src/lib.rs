//! An order-matching engine for a single market, with exact decimal
//! arithmetic and verified matching rules.
//!
//! `decimal` holds the decimals and the calls into `bigdecimal`; `book` holds
//! one side of the market in a `skiplist::OrderedSkipList`; `rustex` holds the
//! exchange and its matching, `rustex::records` the orders and the results,
//! `rustex::laws` what matching guarantees; `text` reads the record formats.

pub mod book;
pub mod decimal;
pub mod rustex;
pub mod text;

pub use crate::decimal::{BigDec, Comparison};
pub use crate::rustex::records::{
    MatchField, MatchResult, MatchResultRole, OrderAction, OrderRec, OrderState, floor_with_prec,
};
pub use crate::rustex::{Exchange, OrderBook};
