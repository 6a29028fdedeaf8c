//! A spaced list: a hierarchical, append-only indexed sequence that stores
//! elements by the distances between consecutive elements, never by absolute
//! position.  Position queries (exact match, predecessor, successor) run as a
//! dyadic descent over fixed-fan-out blocks of partial sums, and nested child
//! lists can be attached in the gap between two adjacent elements.
//!
//! Distances are unsigned 64-bit values, so prefix sums never decrease; the
//! position queries additionally assume strictly positive distances after
//! the first one (`strictly_spaced`), the caller obligation the descent
//! rests on.  Every list is abstracted by the ghost sequence of distances
//! appended to it, and every operation's contract is stated against that
//! sequence.

pub mod arith;
pub mod chunk;
pub mod geometry;
pub mod laws;
pub mod search;
pub mod skeleton;

pub use chunk::ChunkSkeleton;
pub use geometry::generate_link_indices_above;
pub use geometry::generate_link_length_degree_indices;
pub use geometry::link_index;
pub use geometry::number_of_links;
pub use skeleton::SpacedListSkeleton;
pub use skeleton::SublistsChunk;
