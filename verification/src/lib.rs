//! A small compiler for an imperative expression language: integer literals,
//! arithmetic and comparison operators, flat-scope local variables,
//! assignment as an expression and `return`, translated to x86-64 assembly
//! text for a stack machine.
//!
//! The mathematical models live in `chars`, `lexeme`, `grammar`, `assembly`
//! and `machine`: what the tokens of a text are, what the statements of a
//! token sequence are, what the instructions of an expression are, and what
//! instructions do. The executable stages are proved against the models.
//! `tokenize`, `parse` and `codegen` form one pipeline, `lexer`, `parser`
//! and `generator` another; both realize the same models. `compile` runs
//! the second pipeline from source text to assembly text. `laws` holds what
//! follows for the stages together.

pub mod assembly;
pub mod chars;
pub mod codegen;
pub mod compile;
pub mod error;
pub mod generator;
pub mod grammar;
pub mod laws;
pub mod lexeme;
pub mod lexer;
pub mod machine;
pub mod parse;
pub mod parser;
pub mod tokenize;
