//! The core of an embeddable vector database: collections of vectors of
//! one dimension, each under an identifier and with a small metadata map,
//! searched by cosine distance, linearly or through an inverted-file
//! index, with metadata filters, and a registry that keeps the most
//! recently used collections resident.
//!
//! The library stores, selects, ranks and keeps the books. It never
//! computes on a component of a vector: components, distances and times
//! are held as IEEE-754 bit patterns, and callers hand in the distances
//! that a step needs. Distances are compared through `ranking`, which
//! orders bit patterns as the numbers they denote.
use vstd::prelude::*;

pub mod client;
pub mod collection;
pub mod error;
pub mod filter;
pub mod ivf;
pub mod kmeans;
pub mod ranking;
pub mod storage;
pub mod vector;

pub use client::VectorDbClient;
pub use collection::Collection;
pub use error::VectorDbError;
