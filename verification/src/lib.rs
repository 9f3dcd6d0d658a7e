//! Hash-array-mapped tries.
//!
//! - `allocator`: a bump arena that hands out slots by index and never takes
//!   them back.
//! - `lockfree_cctrie`: a map from keys to values, kept as a trie over the
//!   64-bit digests of the keys in an arena of nodes. A slot of the trie changes
//!   only by compare-and-swap; a branch of 4 slots that runs out of room is
//!   frozen, copied into a branch of 16 slots and replaced in its parent's slot.
//!   `node` holds the nodes and the single steps on them, `shape` says what it
//!   means for the nodes of an arena to form a trie and what the trie holds.
//! - `hamt`: a trie of boxed nodes over keys of binary digits.
//! - `contiguous_cctrie`, `cctrie_contiguous`, `optimal_contiguous_cctrie`:
//!   tries over keys of binary digits, flattened to one array.

pub mod allocator;
mod bits;
pub mod cctrie_contiguous;
pub mod contiguous_cctrie;
mod copying;
mod expanding;
mod frame;
mod freezing;
pub mod hamt;
mod inserting;
pub mod lockfree_cctrie;
pub mod node;
pub mod optimal_contiguous_cctrie;
mod protocol;
pub mod shape;
mod splitting;
mod update;

pub use allocator::Allocator;
pub use cctrie_contiguous::ContiguousTrie;
pub use hamt::IndexStatus;
pub use hamt::Trie;
pub use hamt::TrieData;
pub use lockfree_cctrie::LockfreeTrie;
