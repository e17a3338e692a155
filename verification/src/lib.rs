//! Progress-tracking broadcast layer of a distributed dataflow runtime.
//!
//! Parallel workers accumulate signed counts of outstanding work in sparse
//! delta maps, and exchange them through an all-to-all broadcast so that every
//! worker eventually sees the same global view of pending progress.

pub mod broadcast;
pub mod count_map;
