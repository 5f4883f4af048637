use rchan::compile::{compile, CompileError};
use rchan::generator::CodegenError;
use rchan::lexer::{LexError, Loc, Token};
use rchan::parser::ParseError;

#[test]
fn compile_translates_a_program() {
    assert_eq!(
        compile("return 1+2;").unwrap(),
        ".intel_syntax noprefix\n.global main\nmain:\n\
         \x20 push rbp\n  mov rbp, rsp\n  sub rsp, 208\n\
         \x20 push 1\n  push 2\n\
         \x20 pop rdi\n  pop rax\n  add rax, rdi\n  push rax\n\
         \x20 pop rax\n  mov rsp, rbp\n  pop rbp\n  ret\n\
         \x20 mov rsp, rbp\n  pop rbp\n  ret\n"
    );
    assert_eq!(
        compile("").unwrap(),
        ".intel_syntax noprefix\n.global main\nmain:\n\
         \x20 push rbp\n  mov rbp, rsp\n  sub rsp, 208\n\
         \x20 mov rsp, rbp\n  pop rbp\n  ret\n"
    );
}

#[test]
fn compile_answers_the_error_of_the_first_stage_that_fails() {
    assert_eq!(
        compile("1 & 2;"),
        Err(CompileError::Lex(LexError::invalid_char('&', Loc(2, 3))))
    );
    assert_eq!(
        compile("1 & (;"),
        Err(CompileError::Lex(LexError::invalid_char('&', Loc(2, 3))))
    );
    assert_eq!(compile("1 + 2"), Err(CompileError::Parse(ParseError::Eof)));
    assert_eq!(
        compile("(1;"),
        Err(CompileError::Parse(ParseError::NotClosingParen(Token::eof(Loc(2, 3)))))
    );
    assert_eq!(
        compile("1=2; )"),
        Err(CompileError::Parse(ParseError::Unexpected(Token::rparen(Loc(5, 6)))))
    );
    assert_eq!(
        compile("1=2;"),
        Err(CompileError::Codegen(CodegenError::NotLvalue))
    );
}
