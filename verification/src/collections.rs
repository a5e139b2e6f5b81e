//! Collections that allocate from a generational arena.

pub mod list;
