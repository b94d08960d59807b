//! An interactive evaluator for a minimal prefix-notation expression
//! language: numeric literals, named variables, built-in arithmetic verbs,
//! a variable-binding form, a sequencing form and a conditional form.
//!
//! The lexer turns a line of text into tokens, and the parser/evaluator
//! consumes the tokens left to right, deciding how many sub-expressions an
//! identifier consumes from the arity of the function value currently bound
//! to it in the environment.

pub mod builtins;
pub mod double;
pub mod interpreter;
pub mod object;
pub mod reader;
