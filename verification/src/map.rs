//! The map of this crate.
pub use crate::vec_sorted_map::VecSortedMap;
