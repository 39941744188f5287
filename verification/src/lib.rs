//! A traffic-shaping proxy core: a framing codec that multiplexes a data
//! stream and a filler stream over one connection, a rolling-window rate
//! accountant, a filler engine that keeps the apparent outbound rate near a
//! target, an adaptive speed corrector, and the per-connection bookkeeping
//! that ties them together.
//!
//! All time-dependent functions take the current time as a millisecond
//! counter, so every decision is a function of its arguments alone.

pub mod codec;
pub mod filler;
pub mod objects;
pub mod speed;
pub mod splitter;
pub mod statistic;
pub mod throttler;
pub mod worker;
