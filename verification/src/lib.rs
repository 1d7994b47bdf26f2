//! Canonical identity hashing and similarity-edge selection.
//!
//! Two services that share no state:
//!
//! - [`merkle`]: the recursive binary-tree digest of a byte string, the
//!   digest of a directed bond, and the structural metrics of a string.
//!   It rests on [`digest`]: SHA-256 and lower-case hexadecimal encoding.
//! - [`start_crystal`] and [`hnsw_crystal`]: the selection of similarity
//!   edges among the vectors of a collection, from the similarity of every
//!   pair or from the neighbours that a graph index reports. Both rest on
//!   [`edge`], the rule that makes a candidate an edge, and on [`score`], the
//!   order of single-precision numbers carried as bit patterns.
//!
//! Similarities are computed outside this library; it takes them as bit
//! patterns and decides which of them are edges.

pub mod digest;
pub mod edge;
pub mod hnsw_crystal;
pub mod merkle;
pub mod score;
pub mod start_crystal;
