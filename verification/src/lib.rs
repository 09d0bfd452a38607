//! Decaying running-average reader.
//!
//! A pure, stateless reader that turns a point-in-time accounting snapshot
//! and a query timestamp into a single comparable load scalar under an
//! exponential-decay scheme: after each half-life, past contribution weight
//! halves.  All arithmetic is exact fixed-point integer arithmetic, so every
//! result is pinned down bit for bit by the specification model.

pub mod laws;
pub mod reader;
