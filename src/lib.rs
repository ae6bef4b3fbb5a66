//! Expression compiler and stack-machine evaluator for per-frame character
//! logic.
//!
//! - [`value`]: the tagged scalar (`NonConst`, `NotApplicable`, integers,
//!   booleans) and its coercions.
//! - [`ops`]: the operators and what they yield on constants.
//! - [`lexer`]: tokens and operator binding strength.
//! - [`program`]: the bytecode builder, the literal encoding, and parameter
//!   blocks.
//! - [`parser`]: the precedence-climbing compiler with constant folding and
//!   short-circuit code generation.
//! - [`eval`]: the stack machine.
//! - [`laws`], [`soundness`]: properties relating compiler, encoding and
//!   evaluator.
//! - [`cmd`], [`state`]: command symbols and their matching, and the kinds a
//!   character state declares.

pub mod value;
pub mod ops;
pub mod lexer;
pub mod program;
pub mod parser;
pub mod eval;
pub mod laws;
pub mod soundness;
pub mod cmd;
pub mod state;
