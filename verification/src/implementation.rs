//! Various implementations of stable vector types and index types.

pub mod available_insertion_index_iterator;
pub mod marked_index;
pub mod option_vec;
pub mod usize_index;
