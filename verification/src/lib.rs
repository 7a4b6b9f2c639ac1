//! A periodic-tick market for a single good: agents post buy and sell orders,
//! the market clears them once per tick by tiered, even-handed rationing, and
//! every order can afterwards be asked for what it traded.
//!
//! [`market`] holds the market itself and [`order`] what it deals in.
//! Clearing splits each side into priority tiers ([`partition`]), matches
//! the tiers of the two sides ([`settlement`]) and rations what a tier is
//! given over its orders ([`tier`], over the arithmetic of [`rationing`]).
//! [`book`] is the mathematical model that the contracts speak of, and
//! [`laws`] states what holds of it in general. Identifiers are drawn in
//! [`ident`]; [`goods`] names the goods.

pub mod book;
pub mod goods;
pub mod ident;
pub mod laws;
pub mod market;
pub mod order;
pub mod partition;
pub mod rationing;
pub mod settlement;
pub mod tier;

pub use goods::{get_good_name, GoodUid, GOODS};
pub use market::{Price, TestMarket};
pub use order::{OrderId, OrderInfo, OrderResult, OrderType};
pub use partition::{join_tiers, split_tiers};
pub use tier::{distribute, fill_all, remaining, trade_loop};
