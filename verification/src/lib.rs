//! A running estimate of one fixed percentile over a stream of totally ordered
//! values.
//!
//! Values are kept in buckets that partition the value space. Inserting a value
//! only routes it to its bucket; the bucket that holds the wanted rank is
//! located, cut down to size and sorted when the percentile is next asked for.
//!
//! - [`order`]: the total order on the element type that everything is stated
//!   in.
//! - [`sorting`]: sorting and selection in place, and what is known of sorted
//!   sequences.
//! - [`bucket`]: one bucket.
//! - [`row`], [`partition`], [`splitting`]: a row of buckets as a whole, what
//!   makes it a partition of the value space, and how it changes when a bucket
//!   is split.
//! - [`tracker`]: the tracker itself.
//! - [`laws`]: what holds of every tracker.

pub mod bucket;
pub mod laws;
pub mod order;
pub mod partition;
pub mod row;
pub mod sorting;
pub mod splitting;
pub mod tracker;

pub use crate::bucket::Bucket;
pub use crate::tracker::{PercentileTracker, TrackerError, MAX_BUCKET_SIZE};
