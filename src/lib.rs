//! Equality-saturation rewriting of graph-motif count expressions.
//!
//! An expression counts the occurrences of motifs in a data graph; rewriting
//! turns it into an equal linear combination of cheaper counts and closed-form
//! constants. The modules, leaves first:
//!
//! - `store`: the congruence-closure store (an egg e-graph) and its model;
//! - `term`, `model`, `insert`: terms, what a class holds, and inserting terms;
//! - `text`, `provenance`, `table`: leaf text, provenance tags, the run's table;
//! - `rules`, `escape`, `morph`: the computing rewrite rules;
//! - `graph`, `canon`, `protocol`, `parse`: motif graphs and collaborator text;
//! - `summary`: totals of an extracted expression;
//! - `constants`, `fragments`: closed-form constants and fragment counting;
//! - `laws`: laws of the store and the rules.

pub mod store;
pub mod term;
pub mod text;
pub mod model;
pub mod insert;
pub mod provenance;
pub mod table;
pub mod rules;
pub mod escape;
pub mod graph;
pub mod morph;
pub mod laws;
pub mod protocol;
pub mod parse;
pub mod canon;
pub mod summary;
pub mod constants;
pub mod fragments;
