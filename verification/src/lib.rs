//! A bucketed key-value map built from ordered linked lists whose links carry
//! a one-bit deletion mark, together with the epoch-counter scheme that decides
//! when an unlinked node may be freed.
//!
//! Shared memory is an explicit value here: nodes and value cells live in
//! arenas ([`arena::Arena`]), links are address words ([`marked`]), and every
//! atomic access of the list algorithm is one call on the heap
//! ([`heap::Heap`]). A [`manual::SharedMap`] owns what all users of a map
//! share; each [`manual::MapHandle`] owns what a single user keeps to itself,
//! and every operation takes both. Operations of different handles
//! interleave as whole operations; [`model`] states what any such
//! interleaving amounts to.
//!
//! The layers, from the bottom:
//!
//! - [`marked`]: link words and their mark bit;
//! - [`arena`], [`heap`]: allocation, and the atomic accesses to nodes;
//! - [`chain`], [`linked_list`]: the ordered list of one bucket;
//! - [`retired`]: the buffer of what a handle has cut out of the lists;
//! - [`table`]: the buckets, the hash, and the entry count;
//! - [`epoch`]: the epoch counters and the scan of a reclamation pass;
//! - [`manual`]: the map and its handles.

pub mod arena;
pub mod chain;
pub mod epoch;
pub mod heap;
pub mod linked_list;
pub mod manual;
pub mod marked;
pub mod model;
pub mod retired;
pub mod table;
