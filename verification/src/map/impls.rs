//! The key maps that come with the library.

pub mod alloc_btree_map;
