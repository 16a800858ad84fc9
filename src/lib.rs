//! Key-based distribution pre-sort: items are partitioned in place into
//! contiguous bins ordered by key range, and each bin can then be ordered
//! on its own by a comparison sort.
pub mod index;
pub mod key_sort;
