//! The set of this crate, and the walks over two sets.
pub use crate::set_iter::Difference;
pub use crate::set_iter::Intersection;
pub use crate::set_iter::SymmetricDifference;
pub use crate::set_iter::Union;
pub use crate::vec_sorted_set::VecSortedSet;
