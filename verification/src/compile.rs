//! The whole translation, from source text to assembly text.

use crate::assembly::program_text;
use crate::generator::{code_gen, exprs, CodegenError};
use crate::grammar::parsed;
use crate::lexeme::tokens_of;
use crate::lexer::{invalid_at, lex, tokens_view, LexError, Token};
use crate::parser::{error_of, parse, ParseError};
use vstd::prelude::*;

verus! {

/// Why a source text has no assembly text.
#[derive(Debug, PartialEq)]
pub enum CompileError {
    /// A character starts no token.
    Lex(LexError),
    /// The tokens are no program.
    Parse(ParseError),
    /// A statement has no code.
    Codegen(CodegenError),
}

/// What `compile` owes for a source text: the text of the program that the
/// tokens of the source text are; or the error of the first stage that
/// fails. `tokens` are tokens that stand for the lexemes of the text: they
/// are what a parse error holds.
pub open spec fn compiled(
    src: Seq<char>,
    tokens: Seq<Token>,
    r: Result<String, CompileError>,
) -> bool {
    match tokens_of(src) {
        Err(at) => r == Err::<String, CompileError>(CompileError::Lex(invalid_at(src, at))),
        Ok(lexemes) => tokens_view(tokens) == lexemes && match parsed(lexemes) {
            Err(fault) => r == Err::<String, CompileError>(
                CompileError::Parse(error_of(tokens, fault)),
            ),
            Ok(unit) => match program_text(exprs(unit.nodes)) {
                None => r == Err::<String, CompileError>(
                    CompileError::Codegen(CodegenError::NotLvalue),
                ),
                Some(text) => match r {
                    Ok(code) => code@ == text,
                    Err(_) => false,
                },
            },
        },
    }
}

/// Translates a source text to assembly text: the tokens are read, the
/// statements are parsed, and the code of the program is written.
pub fn compile(input: &str) -> (r: Result<String, CompileError>)
    ensures
        exists|tokens: Seq<Token>| compiled(input@, tokens, r),
{
    let tokens = match lex(input) {
        Ok(tokens) => tokens,
        Err(error) => {
            proof {
                assert(compiled(input@, Seq::empty(), Err(CompileError::Lex(error))));
            }
            return Err(CompileError::Lex(error));
        },
    };
    let ghost read = tokens@;
    let code = match parse(tokens) {
        Ok(code) => code,
        Err(error) => {
            proof {
                assert(compiled(input@, read, Err(CompileError::Parse(error))));
            }
            return Err(CompileError::Parse(error));
        },
    };
    let r = match code_gen(code) {
        Ok(text) => Ok(text),
        Err(error) => Err(CompileError::Codegen(error)),
    };
    proof {
        assert(compiled(input@, read, r));
    }
    r
}

} // verus!
