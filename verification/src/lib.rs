//! MIME type detection from file contents.
//!
//! A database of binary signatures ("magic" rules) is parsed from its
//! on-disk format, arranged under a graph of subclass relations between MIME
//! types, and a byte buffer is classified by walking that graph from the most
//! general type down to the most specific one whose rules accept the buffer.
//!
//! * [`magic`] holds the rule and what it means for a buffer to satisfy it;
//!   [`check`] tests buffers against rules.
//! * [`ruleset`] reads magic files; [`fdo_magic`] reads alias and subclass
//!   text; [`runtime`] and [`db_guts`] hold a database as loaded; [`db`] holds
//!   its records.
//! * [`basetype`] has the built-in types, [`names`] their names and the order
//!   of names.
//! * [`graph`] states what the library relies on from `petgraph`;
//!   [`typegraph`] builds the graph of types; [`tree_magic`] is the database
//!   and the detection.
//! * [`laws`] proves what holds of every database and every detection.

pub mod magic;
pub mod check;
pub mod ruleset;
pub mod fdo_magic;
pub mod runtime;
pub mod db_guts;
pub mod db;
pub mod basetype;
pub mod names;
pub mod graph;
pub mod typegraph;
pub mod tree_magic;
pub mod laws;
