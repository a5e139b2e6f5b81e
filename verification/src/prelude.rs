//! The items that most users of the library need.

pub use crate::arena::{Arena, ArenaError};
pub use crate::cache::lru_cache::{LRUCache, LRUCacheError};
pub use crate::cache::{Cache, Eviction, Lookup};
pub use crate::collections::list::{Link, LinkedList, ListError};
pub use crate::map::impls::alloc_btree_map::AllocBTreeMap;
use crate::map::KeyMap;
pub use crate::vector::impls::alloc_vec::AllocVec;
pub use crate::vector::impls::array::{Array, ArrayError};
pub use crate::vector::Vector;
