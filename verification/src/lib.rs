//! Set algebra and interval algebra over sorted, duplicate-free sequences,
//! built on a comparison-efficient divide-and-conquer merge kernel.
//!
//! The kernel walks two sorted sequences and hands ranges that occur only in
//! one input, or collisions of equal keys, to a pluggable merge state: a
//! fresh output vector, an in-place overwrite of one input's buffer, or a
//! boolean that stops the traversal early.  Sorted sets and interval
//! sequences are built on top of it.

pub mod array_set;
pub mod binary_merge;
pub mod inplace_set;
pub mod interval_seq;
pub mod laws;
pub mod merge_state;
pub mod order;
