//! Sorted views of a reactive container: the elements of a source, held in
//! sorted order by the natural order of the elements, by a comparator, or by
//! a key taken from each element.
//!
//! This library is the recomputation: given the snapshot that was read from
//! the source, it sorts it stably. [`snapshot`] holds the three functions,
//! one for each strategy. [`order`] says what a valid comparator or key
//! function is, [`stable_sort`] what the stable sort of a sequence is, and
//! [`laws`] what the three strategies have in common. Reading the source and
//! registering the derivation belong to the reactive runtime and its caller.
pub mod laws;
pub mod order;
pub mod snapshot;
pub mod stable_sort;

pub use snapshot::{use_sorted, use_sorted_by, use_sorted_by_key};
