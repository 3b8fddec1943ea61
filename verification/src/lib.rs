//! A k-minimum-values sketch: a bounded summary of a stream of values from
//! which the number of distinct values is estimated.
//!
//! The sketch keeps the `k` smallest distinct 64-bit hashes it has been
//! shown. The largest of those, set against the whole range of hashes,
//! tells how densely the hashes of the stream fill that range, and so how
//! many distinct values there were.

pub mod estimator;
pub mod model;
pub mod retention;
pub mod sketch;
pub mod sorted;

pub use model::SketchModel;
pub use sketch::Sketch;
