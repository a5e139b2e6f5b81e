//! The backing sequences that come with the library.

pub mod alloc_vec;
pub mod array;
