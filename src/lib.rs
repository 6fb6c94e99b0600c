//! Core of a single-instrument limit-order-book matching engine.
//!
//! The library holds the resting book (`storage`), the order policy gate
//! (`policies`), the aggressor-versus-book matching loop (`matcher`) and the
//! top-level engine (`engine`). Every operation is verified against a
//! mathematical model of the book: a best-first sequence of resting orders.

pub mod model;
pub mod inline_vec;
pub mod sums;
pub mod storage;
pub mod policies;
pub mod matcher;
pub mod engine;
