//! Inside-out expansion of nested invocations in a token tree.
//!
//! An invocation is a name (or a qualified path), the marker `!` and a
//! delimited group of arguments. The engine rewrites a token sequence so
//! that the most deeply nested invocation is resolved first and siblings
//! are resolved from left to right. Resolving an invocation is the work of
//! an oracle that the engine's caller owns: the engine runs until it needs
//! an answer, hands out the invocation, and resumes with the answer.
//!
//! - [`token`]: tokens, and their mathematical values.
//! - [`path`]: the extractor of an invocation's name.
//! - [`model`]: the states of the engine, and its next event as a function
//!   of the state.
//! - [`engine`]: the engine itself.
//! - [`outcome`]: what a whole expansion comes to with an oracle that
//!   answers as a function, and that the engine computes it.
//! - [`laws`]: what holds of the engine on every input.
//! - [`error`]: the ways in which an expansion is abandoned.

pub mod engine;
pub mod error;
pub mod laws;
pub mod model;
pub mod outcome;
pub mod path;
pub mod token;

pub use engine::{
    inside_out_expand, inside_out_expand_ignore_expansion_failure, Expansion, Invocation, Step,
};
pub use error::{ExpandError, Malformation};
pub use model::EXPANSION_LIMIT;
pub use path::pop_macro_path;
pub use token::{Delimiter, Token};
