//! A weighted, recursively-composable random text generator ("table
//! rolling"): authors write tables of weighted text rules that can embed dice
//! rolls, references to other tables and namespaced cross-collection
//! references, with post-processing filters (article insertion,
//! capitalization, uniqueness-constrained repeated sampling, list joining).
//!
//! The crate is organised as follows:
//! - [`model`] holds the data model (tables, rules, rule parts, filters) and
//!   its mathematical view types;
//! - [`text`] holds small verified text helpers (decimal rendering, character
//!   classes) and the trusted uppercase primitive;
//! - [`sampler`] wraps the weighted-index sampling and uniform dice draws of
//!   the `rand` crate behind trusted contracts;
//! - [`parser`] is the grammar: a verified recursive-descent parser whose
//!   executable functions are proved equal to a specification-level grammar;
//! - [`collection`] is the resolution engine: weighted sampling, recursive
//!   interpolation, filters, uniqueness/retry and join semantics, and the
//!   collection validator;
//! - [`hash`] is a small content-hashing utility over raw definition text;
//! - [`laws`] states and proves the crate-level properties that relate
//!   several functions.
pub mod collection;
pub mod hash;
pub mod laws;
pub mod model;
pub mod parser;
pub mod sampler;
pub mod text;
