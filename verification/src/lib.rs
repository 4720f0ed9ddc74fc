//! Semantic analysis of Rholang processes: binder resolution, lexical scopes,
//! enclosure relations and the diagnostics computed over them.
pub mod ast;
pub mod bits;
pub mod types;
pub mod numeric_types;
pub mod scope;
pub mod interner;
pub mod tree;
pub mod sizes;
pub mod subtree;
pub mod resolver;
pub mod var_uses;
pub mod scope_sites;
pub mod pattern_state;
pub mod resolve_pattern;
pub mod resolve_proc;
pub mod resolution;
pub mod patterns;
pub mod arrow_validator;
pub mod elaborator;
pub mod passes;
pub mod sources;
pub mod bindings;
pub mod scope_utils;
pub mod deps;
pub mod joins;
pub mod consumption;
pub mod index;
pub mod db;
pub mod text;
pub mod elab_errors;
pub mod query;
pub mod type_validation;
pub mod diagnostics;
pub mod enclosure;
pub mod enclosure_laws;
pub mod laws;
pub mod scoping;
pub mod finding_laws;
pub mod pipeline;
