//! Matching core of a single-security limit order book.
//!
//! The crate has two layers: the order model (`order`), which validates a
//! whitespace-separated text record into an immutable [`order::SingleOrder`],
//! and the order book engine (`order_book`), which holds resting orders under
//! strict price-time priority and supports insertion, cancellation by id, and
//! matching of crossing orders.

pub mod order;
pub mod order_book;
