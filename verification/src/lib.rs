//! A cache that evicts the least recently used pair, built without a
//! general-purpose heap from three layers that each keep an invariant of
//! their own:
//!
//! - [`arena`]: a generational arena, which hands out `(slot, generation)`
//!   handles into a backing [`vector`] and recycles freed slots through a
//!   free list. A handle to an earlier occupant of a slot is never mistaken
//!   for one to a later occupant.
//! - [`collections::list`]: a doubly linked list whose nodes live in the
//!   arena and whose edges are arena handles. An element can move to either
//!   end without losing its handle.
//! - [`cache`]: the cache itself, which keeps the pairs in the list in the
//!   order of their last use and finds them through a key [`map`].
//!
//! The backing vector is chosen by the caller: an inline buffer of fixed
//! size, or a vector on the heap that grows on demand.
//!
//! Every operation is verified against a contract over a mathematical
//! model of its type: the slots and the free list of the arena, the
//! sequence of links and elements of the list, the sequence of pairs of the
//! cache.

pub mod arena;
pub mod cache;
pub mod collections;
pub mod impls;
pub mod map;
pub mod prelude;
pub mod vector;
