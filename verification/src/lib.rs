//! Sorted-iteration core of a log-structured merge storage engine: byte keys
//! with lexicographic order, a size-bounded block encoder, a k-way merge
//! iterator with recency tie-break, a fault-fusing wrapper, and the top-level
//! read iterator.

pub mod block;
pub mod iterators;
pub mod key;
pub mod lsm_iterator;
pub mod merge_iterator;
