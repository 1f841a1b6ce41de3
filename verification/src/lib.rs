//! Combinators for merging several forward-only input sequences into one
//! output sequence: in registration order (`SeqIter`), by a caller-supplied
//! selection function over the current heads (`MultiIterator`), or by a
//! total order in ascending or descending direction (`OrderedIterator`).

pub mod model;
pub mod multi_iter;
pub mod ordered_iter;
pub mod source;
pub mod seq_iter;

pub use multi_iter::MultiIterator;
pub use ordered_iter::OrderedIterator;
pub use seq_iter::SeqIter;
pub use source::Source;
