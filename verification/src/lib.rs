//! Estimation of FRI commitment proof sizes and search for size-minimizing
//! folding schedules.
//!
//! A folding schedule is an ordered sequence of per-round folding factors,
//! each stored as a power-of-two exponent ("bits"); the first entry is `0` by
//! convention, meaning the initial layer is committed without folding. The
//! cost model maps a schedule, together with the polynomial degree, the
//! blowup factor and the number of queries, to an estimated proof size in
//! field elements. Two schedulers are built on top of it: an exhaustive
//! search for the size-minimizing schedule and a fixed-factor heuristic with
//! two remainder policies.

pub mod cost_model;
pub mod math;
pub mod optimized_schedule;
pub mod simple_schedule;
