//! Per-key minimum, maximum, sum and count over a large stream of
//! `key;value` records, one record per line.
//!
//! The input is cut into chunks that never split a record ([`region`] for an
//! addressable byte region, [`stream`] for fixed-size reads), every chunk is
//! summarised on its own ([`record`]), and the per-chunk tables ([`table`])
//! are folded into one by a single owner ([`reduce`]). Values are
//! fixed-point decimals ([`decimal`]), so the fold of summaries ([`stats`])
//! is exact, and the result is the same for every way of cutting the input
//! and every order in which the chunks' summaries arrive.

pub mod separator;
pub mod stats;
pub mod region;
pub mod table;
pub mod decimal;
pub mod record;
pub mod stream;
pub mod reduce;
