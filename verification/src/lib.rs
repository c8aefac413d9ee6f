//! Ownership and lifetime visualization library.
//!
//! The crate turns dataflow facts produced by an external borrow-checking
//! engine into per-variable source ranges: it models source positions and
//! half-open character ranges, provides the interval algebra every extraction
//! routine depends on, converts location-indexed fact tables into per-local
//! range sets, and schedules per-function extraction jobs through a bounded
//! result cache into a nested output model.

pub mod analyze;
pub mod cache;
pub mod error;
pub mod models;
pub mod schedule;
pub mod shells;
pub mod toolchain;
pub mod utils;


