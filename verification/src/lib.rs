//! Chained environments: a stack of key-value scopes in which lookups fall
//! back from the innermost scope to its ancestors.
//!
//! The mathematical model of an environment is the sequence of its levels,
//! innermost first, each level being a finite map. The spec functions of
//! [`chain`] say what lookups and aggregates mean on such a sequence; the
//! methods of [`Envr`] are proved against them.
//!
//! The bindings of a level live in a hash map, so the contracts hold for key
//! types that obey the hash-table key model: equal keys hash alike and a key
//! compares equal to itself and to nothing else.

pub mod chain;
pub mod envr;
pub mod equality;
pub mod laws;
pub mod std_ext;
pub mod text;

pub use envr::{Envr, Hashley, Updated};
