//! Mosaic: the core containers of an entity-graph store, with proofs of their contracts.
//!
//! The library offers a sparse set of entity identifiers, a free list of
//! identifiers built on it, sparse adjacency matrices with path enumeration,
//! collage (query) builders, a thin query iterator, the big-endian byte
//! codecs used for component data, the byte format a mosaic is saved in,
//! and the component types with their registry.

pub mod byte_utilities;
pub mod collage;
pub mod component_registry;
pub mod datatypes;
pub mod either;
pub mod freelist;
pub mod keys;
pub mod logging;
pub mod mosaic_io;
pub mod mosaic_state;
pub mod outside;
pub mod query_iterator;
pub mod reachability;
pub mod sparse_matrix;
pub mod sparse_set;
pub mod strings;
pub mod text;
pub mod tile;
pub mod traversal;
pub mod traversal_funnel;
pub mod undirected_matrix;

pub use freelist::Freelist;
pub use sparse_set::{DenseSparsePair, EntityId, SparseSet};
