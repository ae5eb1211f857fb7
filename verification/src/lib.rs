//! Core of a single-venue, single-pair limit order book matching engine:
//! order lifecycle, resting book with price-time priority, matcher, and
//! the engine facade that turns order requests into trade events.

pub mod book;
pub mod engine;
pub mod order;
pub mod util;
