//! Strata's front end: the lexer, the syntax tree, the parser, effect rows, inference
//! types, substitution and unification, constraint solving, algebraic data
//! types, match exhaustiveness and single use of capabilities; and the data
//! of host calls and their traces.
pub mod text;
pub mod ast;
pub mod effects;
pub mod ty;
pub mod assoc;
pub mod subst;
pub mod shape;
pub mod unifier;
pub mod solver;
pub mod adt;
pub mod types;
pub mod ctx;
pub mod constraint;
pub mod infer;
pub mod checker;
pub mod lexer;
pub mod exhaustive;
pub mod host;
pub mod move_check;
pub mod summary;
pub mod parser;
pub mod scope;
pub mod runtime;
