//! One-pass weighted random sampling without replacement.
//!
//! A stream of `(weight, value)` pairs is reduced to a sample of at most
//! `k` values. Every accepted item is ranked by a priority key, the
//! quotient of a fresh Exponential(1) variate and the item's weight, and
//! the sample is made of the `k` items with the lowest keys.
//!
//! Weights and keys are carried as IEEE-754 binary64 bit patterns. Keys are
//! never negative, so they order as integers exactly as the numbers they
//! encode do. The randomness source is supplied by the caller as a rule
//! from an accepted, non-zero weight to that item's key.

pub mod batch;
pub mod heap;
pub mod laws;
pub mod lowest;
pub mod reservoir;
pub mod single;
pub mod source;
pub mod weight;

pub use heap::WsworEntry;
pub use reservoir::{wswor, StreamingWswor};
pub use single::SingleStreamingWs;
pub use source::KeySource;
pub use weight::{HasInvalidWeights, MAX_FINITE, SENTINEL_KEY};
