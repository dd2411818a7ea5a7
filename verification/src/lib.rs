//! Front end of a compiler for a small class-based, statically typed object
//! language.
//!
//! Two subsystems carry the weight here: a lexical analyzer that turns raw
//! source text into a typed token stream ([`lexer`]), and a symbol/type
//! environment that builds a global class table with single inheritance,
//! resolves member and method lookup through the inheritance chain, and
//! manages nested lexical scopes for local bindings ([`symbol_table`]).
//! A grammar-driven parser would consume the token stream and drive calls
//! into the environment; it is an external collaborator and not part of
//! this crate.

pub mod lexer;
pub mod symbol_table;
