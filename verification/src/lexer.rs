//! The token-at-a-time lexer: tokens that carry their kind, their value and
//! the span of source text they were read from.

use crate::chars::{
    bytes_of, chars_of, digit, extend_value, lemma_bytes_of, name_char, numeral_value,
    push_decimal,
};
use crate::lexeme::{
    canonical, digits_end, join, lemma_canonical_push, lemma_digits_end_is, lemma_join_cons,
    lemma_lexeme_extent, lemma_marks, lemma_name_end, lemma_name_end_is, lexeme_at, lexemes_of,
    name_end, scan, spanned, spelling, starts_at, tokens_of, Lexeme,
};
use vstd::prelude::*;

verus! {

#[derive(Debug, PartialEq, Clone)]
pub enum TokenKind {
    Ident(String),
    Int(i64),
    Return,
    /// The statement terminator `;`.
    Eof,
    Add,
    Sub,
    Mul,
    Quo,
    LParen,
    RParen,
    ASSIGN,
    EQ,
    NEQ,
    LEQ,
    GEQ,
    LSS,
    GRT,
}

impl View for TokenKind {
    type V = Lexeme;

    open spec fn view(&self) -> Lexeme {
        match *self {
            TokenKind::Ident(name) => Lexeme::Ident(name@),
            TokenKind::Int(value) => Lexeme::Int(value),
            TokenKind::Return => Lexeme::Return,
            TokenKind::Eof => Lexeme::Semi,
            TokenKind::Add => Lexeme::Add,
            TokenKind::Sub => Lexeme::Sub,
            TokenKind::Mul => Lexeme::Mul,
            TokenKind::Quo => Lexeme::Quo,
            TokenKind::LParen => Lexeme::LParen,
            TokenKind::RParen => Lexeme::RParen,
            TokenKind::ASSIGN => Lexeme::Assign,
            TokenKind::EQ => Lexeme::Eq,
            TokenKind::NEQ => Lexeme::Neq,
            TokenKind::LEQ => Lexeme::Leq,
            TokenKind::GEQ => Lexeme::Geq,
            TokenKind::LSS => Lexeme::Lss,
            TokenKind::GRT => Lexeme::Grt,
        }
    }
}

/// A span of source text: the offsets of its first character and of the
/// character after its last.
#[derive(Debug, PartialEq, Copy, Clone)]
pub struct Loc(pub usize, pub usize);

impl Loc {
    /// The smallest span that covers both spans.
    pub fn merge(&self, other: &Self) -> (merged: Loc)
        ensures
            merged.0 == if self.0 <= other.0 { self.0 } else { other.0 },
            merged.1 == if self.1 >= other.1 { self.1 } else { other.1 },
    {
        let start: usize = if self.0 <= other.0 { self.0 } else { other.0 };
        let end: usize = if self.1 >= other.1 { self.1 } else { other.1 };
        Loc(start, end)
    }
}

/// A value with the span of source text it came from.
#[derive(Debug, PartialEq)]
pub struct Annot<T> {
    pub value: T,
    pub loc: Loc,
}

impl<T> Annot<T> {
    pub fn new(value: T, loc: Loc) -> (annot: Self)
        ensures
            annot.value == value,
            annot.loc == loc,
    {
        Self { value, loc }
    }
}

pub type Token = Annot<TokenKind>;

/// The lexeme and span that a token stands for.
pub open spec fn token_view(token: Token) -> Annot<Lexeme> {
    Annot { value: token.value@, loc: token.loc }
}

/// The lexemes and spans that a token sequence stands for.
pub open spec fn tokens_view(tokens: Seq<Token>) -> Seq<Annot<Lexeme>> {
    Seq::new(tokens.len(), |i: int| token_view(tokens[i]))
}

impl Annot<TokenKind> {
    pub fn ident(s: &str, loc: Loc) -> (token: Self)
        ensures
            token_view(token) == (Annot { value: Lexeme::Ident(s@), loc }),
    {
        Self::new(TokenKind::Ident(s.to_owned()), loc)
    }

    pub fn integer(n: i64, loc: Loc) -> (token: Self)
        ensures
            token == (Annot { value: TokenKind::Int(n), loc }),
    {
        Self::new(TokenKind::Int(n), loc)
    }

    pub fn return_(loc: Loc) -> (token: Self)
        ensures
            token == (Annot { value: TokenKind::Return, loc }),
    {
        Self::new(TokenKind::Return, loc)
    }

    pub fn eof(loc: Loc) -> (token: Self)
        ensures
            token == (Annot { value: TokenKind::Eof, loc }),
    {
        Self::new(TokenKind::Eof, loc)
    }

    pub fn add(loc: Loc) -> (token: Self)
        ensures
            token == (Annot { value: TokenKind::Add, loc }),
    {
        Self::new(TokenKind::Add, loc)
    }

    pub fn sub(loc: Loc) -> (token: Self)
        ensures
            token == (Annot { value: TokenKind::Sub, loc }),
    {
        Self::new(TokenKind::Sub, loc)
    }

    pub fn mul(loc: Loc) -> (token: Self)
        ensures
            token == (Annot { value: TokenKind::Mul, loc }),
    {
        Self::new(TokenKind::Mul, loc)
    }

    pub fn quo(loc: Loc) -> (token: Self)
        ensures
            token == (Annot { value: TokenKind::Quo, loc }),
    {
        Self::new(TokenKind::Quo, loc)
    }

    pub fn lparen(loc: Loc) -> (token: Self)
        ensures
            token == (Annot { value: TokenKind::LParen, loc }),
    {
        Self::new(TokenKind::LParen, loc)
    }

    pub fn rparen(loc: Loc) -> (token: Self)
        ensures
            token == (Annot { value: TokenKind::RParen, loc }),
    {
        Self::new(TokenKind::RParen, loc)
    }

    pub fn assign(loc: Loc) -> (token: Self)
        ensures
            token == (Annot { value: TokenKind::ASSIGN, loc }),
    {
        Self::new(TokenKind::ASSIGN, loc)
    }

    pub fn eq(loc: Loc) -> (token: Self)
        ensures
            token == (Annot { value: TokenKind::EQ, loc }),
    {
        Self::new(TokenKind::EQ, loc)
    }

    pub fn neq(loc: Loc) -> (token: Self)
        ensures
            token == (Annot { value: TokenKind::NEQ, loc }),
    {
        Self::new(TokenKind::NEQ, loc)
    }

    pub fn leq(loc: Loc) -> (token: Self)
        ensures
            token == (Annot { value: TokenKind::LEQ, loc }),
    {
        Self::new(TokenKind::LEQ, loc)
    }

    pub fn geq(loc: Loc) -> (token: Self)
        ensures
            token == (Annot { value: TokenKind::GEQ, loc }),
    {
        Self::new(TokenKind::GEQ, loc)
    }

    pub fn lss(loc: Loc) -> (token: Self)
        ensures
            token == (Annot { value: TokenKind::LSS, loc }),
    {
        Self::new(TokenKind::LSS, loc)
    }

    pub fn grt(loc: Loc) -> (token: Self)
        ensures
            token == (Annot { value: TokenKind::GRT, loc }),
    {
        Self::new(TokenKind::GRT, loc)
    }
}

#[derive(Debug, PartialEq)]
pub enum LexErrorKind {
    /// A character that starts no token.
    InvalidChar(char),
    /// The text ended where a character was asked for.
    Eof,
}

pub type LexError = Annot<LexErrorKind>;

impl Annot<LexErrorKind> {
    pub fn invalid_char(c: char, loc: Loc) -> (error: Self)
        ensures
            error == (Annot { value: LexErrorKind::InvalidChar(c), loc }),
    {
        Self::new(LexErrorKind::InvalidChar(c), loc)
    }

    pub fn eof(loc: Loc) -> (error: Self)
        ensures
            error == (Annot { value: LexErrorKind::Eof, loc }),
    {
        Self::new(LexErrorKind::Eof, loc)
    }
}

pub fn is_number(c: char) -> (r: bool)
    ensures
        r == digit(c),
{
    crate::chars::is_decimal_digit(c)
}

pub fn is_identifier_nameable(c: char) -> (r: bool)
    ensures
        r == name_char(c),
{
    crate::chars::is_name_char(c)
}

/// Whether `text` stands in `src` at `pos` and is made of one-byte
/// characters: the place that is compared is as long as the text has
/// bytes.
pub open spec fn matches_at(src: Seq<char>, pos: int, text: Seq<char>) -> bool {
    starts_at(src, pos, text) && bytes_of(text) == text.len()
}

/// Whether `expected` stands in the input at `pos`.
pub fn is_match(input: &Vec<char>, pos: usize, expected: &str) -> (r: bool)
    ensures
        r == matches_at(input@, pos as int, expected@),
{
    let n: usize = expected.unicode_len();
    if expected.as_bytes().len() != n {
        return false;
    }
    if input.len() < pos || input.len() - pos < n {
        return false;
    }
    let mut i: usize = 0;
    while i < n
        invariant
            n == expected@.len(),
            pos + n <= input.len(),
            i <= n,
            input@.subrange(pos as int, pos + i) == expected@.subrange(0, i as int),
        decreases n - i,
    {
        if input[pos + i] != expected.get_char(i) {
            proof {
                assert(input@.subrange(pos as int, pos + n)[i as int] != expected@[i as int]);
            }
            return false;
        }
        proof {
            assert(input@.subrange(pos as int, pos + i + 1) =~= input@.subrange(
                pos as int,
                pos + i,
            ).push(input@[pos + i]));
            assert(expected@.subrange(0, i + 1) =~= expected@.subrange(0, i as int).push(
                expected@[i as int],
            ));
        }
        i += 1;
    }
    proof {
        assert(expected@.subrange(0, n as int) =~= expected@);
    }
    true
}

/// What `consume` answers where a text of `width` bytes does not stand at
/// `pos`: where the input has ended, that it has; else the character at
/// `pos`, with the place that was compared as far as it lies in the input.
pub open spec fn mismatch(src: Seq<char>, pos: usize, width: nat) -> LexError {
    if pos >= src.len() {
        Annot { value: LexErrorKind::Eof, loc: Loc(pos, pos) }
    } else {
        Annot {
            value: LexErrorKind::InvalidChar(src[pos as int]),
            loc: Loc(
                pos,
                if pos + width <= src.len() {
                    (pos + width) as usize
                } else {
                    src.len() as usize
                },
            ),
        }
    }
}

/// Reads `expected` at `pos` and answers it with the offset after it. Where
/// the input has ended at `pos` the error is `Eof`; where other text stands
/// there, the error names the character at `pos`.
pub fn consume(input: &Vec<char>, pos: usize, expected: &str) -> (r: Result<
    (String, usize),
    LexError,
>)
    ensures
        match r {
            Ok((text, end)) => pos < input@.len() && matches_at(input@, pos as int, expected@)
                && text@ == expected@ && end == pos + expected@.len(),
            Err(error) => !(pos < input@.len() && matches_at(input@, pos as int, expected@))
                && error == mismatch(input@, pos, bytes_of(expected@)),
        },
{
    if input.len() <= pos {
        return Err(LexError::eof(Loc(pos, pos)));
    }
    if !is_match(input, pos, expected) {
        let width: usize = expected.as_bytes().len();
        let end: usize = if width <= input.len() - pos {
            pos + width
        } else {
            input.len()
        };
        return Err(LexError::invalid_char(input[pos], Loc(pos, end)));
    }
    let end: usize = pos + expected.unicode_len();
    Ok((expected.to_owned(), end))
}

/// Reads the longest run of digits that starts at `pos`.
pub fn lex_int(input: &Vec<char>, pos: usize) -> (r: (Token, usize))
    requires
        pos <= input@.len(),
    ensures
        r.1 == digits_end(input@, pos as int),
        r.0 == (Annot {
            value: TokenKind::Int(numeral_value(input@.subrange(pos as int, r.1 as int))),
            loc: Loc(pos, r.1),
        }),
{
    let start: usize = pos;
    let mut pos: usize = pos;
    let mut value: i64 = 0;
    while pos < input.len() && is_number(input[pos])
        invariant
            start <= pos <= input@.len(),
            forall|i: int| start <= i < pos ==> digit(#[trigger] input@[i]),
            value == numeral_value(input@.subrange(start as int, pos as int)),
        decreases input@.len() - pos,
    {
        proof {
            assert(input@.subrange(start as int, pos + 1).drop_last() =~= input@.subrange(
                start as int,
                pos as int,
            ));
        }
        value = extend_value(value, input[pos]);
        pos += 1;
    }
    proof {
        lemma_digits_end_is(input@, start as int, pos as int);
    }
    (Token::integer(value, Loc(start, pos)), pos)
}

/// Reads the longest run of identifier characters that starts at `pos`.
pub fn lex_identifier(input: &Vec<char>, pos: usize) -> (r: (Token, usize))
    requires
        pos <= input@.len(),
    ensures
        r.1 == name_end(input@, pos as int),
        token_view(r.0) == spanned(
            Lexeme::Ident(input@.subrange(pos as int, r.1 as int)),
            pos as int,
            r.1 as int,
        ),
{
    let start: usize = pos;
    let mut pos: usize = pos;
    let mut name = String::new();
    while pos < input.len() && is_identifier_nameable(input[pos])
        invariant
            start <= pos <= input@.len(),
            forall|i: int| start <= i < pos ==> name_char(#[trigger] input@[i]),
            name@ == input@.subrange(start as int, pos as int),
        decreases input@.len() - pos,
    {
        proof {
            assert(input@.subrange(start as int, pos + 1) =~= input@.subrange(
                start as int,
                pos as int,
            ).push(input@[pos as int]));
        }
        name.push(input[pos]);
        pos += 1;
    }
    proof {
        lemma_name_end_is(input@, start as int, pos as int);
    }
    (Token::ident(name.as_str(), Loc(start, pos)), pos)
}

/// What a reader of one fixed spelling answers: the token and the offset
/// after it where the spelling stands at `start`, and else what `consume`
/// answers.
pub open spec fn fixed_outcome(
    src: Seq<char>,
    start: usize,
    lexeme: Lexeme,
    r: Result<(Token, usize), LexError>,
) -> bool {
    match r {
        Ok((token, end)) => start < src.len() && starts_at(src, start as int, spelling(lexeme))
            && token_view(token) == spanned(lexeme, start as int, end as int) && end == start
            + spelling(lexeme).len(),
        Err(error) => !(start < src.len() && starts_at(src, start as int, spelling(lexeme)))
            && error == mismatch(src, start, spelling(lexeme).len()),
    }
}

pub fn lex_add(input: &Vec<char>, start: usize) -> (r: Result<(Token, usize), LexError>)
    ensures
        fixed_outcome(input@, start, Lexeme::Add, r),
{
    proof {
        reveal_strlit("+");
        assert("+"@ =~= spelling(Lexeme::Add));
        lemma_bytes_of(spelling(Lexeme::Add));
    }
    match consume(input, start, "+") {
        Ok((_, end)) => Ok((Token::add(Loc(start, end)), end)),
        Err(error) => Err(error),
    }
}

pub fn lex_return(input: &Vec<char>, start: usize) -> (r: Result<(Token, usize), LexError>)
    ensures
        fixed_outcome(input@, start, Lexeme::Return, r),
{
    proof {
        reveal_strlit("return");
        assert("return"@ =~= spelling(Lexeme::Return));
        lemma_bytes_of(spelling(Lexeme::Return));
    }
    match consume(input, start, "return") {
        Ok((_, end)) => Ok((Token::return_(Loc(start, end)), end)),
        Err(error) => Err(error),
    }
}

pub fn lex_eof(input: &Vec<char>, start: usize) -> (r: Result<(Token, usize), LexError>)
    ensures
        fixed_outcome(input@, start, Lexeme::Semi, r),
{
    proof {
        reveal_strlit(";");
        assert(";"@ =~= spelling(Lexeme::Semi));
        lemma_bytes_of(spelling(Lexeme::Semi));
    }
    match consume(input, start, ";") {
        Ok((_, end)) => Ok((Token::eof(Loc(start, end)), end)),
        Err(error) => Err(error),
    }
}

pub fn lex_sub(input: &Vec<char>, start: usize) -> (r: Result<(Token, usize), LexError>)
    ensures
        fixed_outcome(input@, start, Lexeme::Sub, r),
{
    proof {
        reveal_strlit("-");
        assert("-"@ =~= spelling(Lexeme::Sub));
        lemma_bytes_of(spelling(Lexeme::Sub));
    }
    match consume(input, start, "-") {
        Ok((_, end)) => Ok((Token::sub(Loc(start, end)), end)),
        Err(error) => Err(error),
    }
}

pub fn lex_mul(input: &Vec<char>, start: usize) -> (r: Result<(Token, usize), LexError>)
    ensures
        fixed_outcome(input@, start, Lexeme::Mul, r),
{
    proof {
        reveal_strlit("*");
        assert("*"@ =~= spelling(Lexeme::Mul));
        lemma_bytes_of(spelling(Lexeme::Mul));
    }
    match consume(input, start, "*") {
        Ok((_, end)) => Ok((Token::mul(Loc(start, end)), end)),
        Err(error) => Err(error),
    }
}

pub fn lex_quo(input: &Vec<char>, start: usize) -> (r: Result<(Token, usize), LexError>)
    ensures
        fixed_outcome(input@, start, Lexeme::Quo, r),
{
    proof {
        reveal_strlit("/");
        assert("/"@ =~= spelling(Lexeme::Quo));
        lemma_bytes_of(spelling(Lexeme::Quo));
    }
    match consume(input, start, "/") {
        Ok((_, end)) => Ok((Token::quo(Loc(start, end)), end)),
        Err(error) => Err(error),
    }
}

pub fn lex_lparen(input: &Vec<char>, start: usize) -> (r: Result<(Token, usize), LexError>)
    ensures
        fixed_outcome(input@, start, Lexeme::LParen, r),
{
    proof {
        reveal_strlit("(");
        assert("("@ =~= spelling(Lexeme::LParen));
        lemma_bytes_of(spelling(Lexeme::LParen));
    }
    match consume(input, start, "(") {
        Ok((_, end)) => Ok((Token::lparen(Loc(start, end)), end)),
        Err(error) => Err(error),
    }
}

pub fn lex_rparen(input: &Vec<char>, start: usize) -> (r: Result<(Token, usize), LexError>)
    ensures
        fixed_outcome(input@, start, Lexeme::RParen, r),
{
    proof {
        reveal_strlit(")");
        assert(")"@ =~= spelling(Lexeme::RParen));
        lemma_bytes_of(spelling(Lexeme::RParen));
    }
    match consume(input, start, ")") {
        Ok((_, end)) => Ok((Token::rparen(Loc(start, end)), end)),
        Err(error) => Err(error),
    }
}

pub fn lex_eq(input: &Vec<char>, start: usize) -> (r: Result<(Token, usize), LexError>)
    ensures
        fixed_outcome(input@, start, Lexeme::Eq, r),
{
    proof {
        reveal_strlit("==");
        assert("=="@ =~= spelling(Lexeme::Eq));
        lemma_bytes_of(spelling(Lexeme::Eq));
    }
    match consume(input, start, "==") {
        Ok((_, end)) => Ok((Token::eq(Loc(start, end)), end)),
        Err(error) => Err(error),
    }
}

pub fn lex_neq(input: &Vec<char>, start: usize) -> (r: Result<(Token, usize), LexError>)
    ensures
        fixed_outcome(input@, start, Lexeme::Neq, r),
{
    proof {
        reveal_strlit("!=");
        assert("!="@ =~= spelling(Lexeme::Neq));
        lemma_bytes_of(spelling(Lexeme::Neq));
    }
    match consume(input, start, "!=") {
        Ok((_, end)) => Ok((Token::neq(Loc(start, end)), end)),
        Err(error) => Err(error),
    }
}

pub fn lex_leq(input: &Vec<char>, start: usize) -> (r: Result<(Token, usize), LexError>)
    ensures
        fixed_outcome(input@, start, Lexeme::Leq, r),
{
    proof {
        reveal_strlit("<=");
        assert("<="@ =~= spelling(Lexeme::Leq));
        lemma_bytes_of(spelling(Lexeme::Leq));
    }
    match consume(input, start, "<=") {
        Ok((_, end)) => Ok((Token::leq(Loc(start, end)), end)),
        Err(error) => Err(error),
    }
}

pub fn lex_geq(input: &Vec<char>, start: usize) -> (r: Result<(Token, usize), LexError>)
    ensures
        fixed_outcome(input@, start, Lexeme::Geq, r),
{
    proof {
        reveal_strlit(">=");
        assert(">="@ =~= spelling(Lexeme::Geq));
        lemma_bytes_of(spelling(Lexeme::Geq));
    }
    match consume(input, start, ">=") {
        Ok((_, end)) => Ok((Token::geq(Loc(start, end)), end)),
        Err(error) => Err(error),
    }
}

pub fn lex_assign(input: &Vec<char>, start: usize) -> (r: Result<(Token, usize), LexError>)
    ensures
        fixed_outcome(input@, start, Lexeme::Assign, r),
{
    proof {
        reveal_strlit("=");
        assert("="@ =~= spelling(Lexeme::Assign));
        lemma_bytes_of(spelling(Lexeme::Assign));
    }
    match consume(input, start, "=") {
        Ok((_, end)) => Ok((Token::assign(Loc(start, end)), end)),
        Err(error) => Err(error),
    }
}

pub fn lex_lss(input: &Vec<char>, start: usize) -> (r: Result<(Token, usize), LexError>)
    ensures
        fixed_outcome(input@, start, Lexeme::Lss, r),
{
    proof {
        reveal_strlit("<");
        assert("<"@ =~= spelling(Lexeme::Lss));
        lemma_bytes_of(spelling(Lexeme::Lss));
    }
    match consume(input, start, "<") {
        Ok((_, end)) => Ok((Token::lss(Loc(start, end)), end)),
        Err(error) => Err(error),
    }
}

pub fn lex_grt(input: &Vec<char>, start: usize) -> (r: Result<(Token, usize), LexError>)
    ensures
        fixed_outcome(input@, start, Lexeme::Grt, r),
{
    proof {
        reveal_strlit(">");
        assert(">"@ =~= spelling(Lexeme::Grt));
        lemma_bytes_of(spelling(Lexeme::Grt));
    }
    match consume(input, start, ">") {
        Ok((_, end)) => Ok((Token::grt(Loc(start, end)), end)),
        Err(error) => Err(error),
    }
}

/// The error for a character that starts no token.
pub open spec fn invalid_at(src: Seq<char>, at: int) -> LexError {
    Annot { value: LexErrorKind::InvalidChar(src[at]), loc: Loc(at as usize, (at + 1) as usize) }
}

/// What reading one token at `pos` owes: the lexeme that the model finds
/// there, or the error for the character at `pos`.
pub open spec fn step_outcome(
    src: Seq<char>,
    pos: int,
    step: Result<(Token, usize), LexError>,
) -> bool {
    match lexeme_at(src, pos) {
        Some((lexeme, end)) => match step {
            Ok((token, next)) => token_view(token) == spanned(lexeme, pos, end) && next == end,
            Err(_) => false,
        },
        None => step == Err::<(Token, usize), LexError>(invalid_at(src, pos)),
    }
}

/// What `lex` owes for a source text: the model's tokens, or the error for
/// the first character that starts no token.
pub open spec fn lexed(src: Seq<char>, r: Result<Vec<Token>, LexError>) -> bool {
    match tokens_of(src) {
        Ok(lexemes) => match r {
            Ok(tokens) => tokens_view(tokens@) == lexemes,
            Err(_) => false,
        },
        Err(at) => r == Err::<Vec<Token>, LexError>(invalid_at(src, at)),
    }
}

/// Splits a source text into tokens. Blanks separate tokens; digits form
/// integers, letters, digits and underscores form identifiers and the
/// keyword, each as long as it can be; the first character that starts no
/// token is answered as an error.
pub fn lex(input: &str) -> (r: Result<Vec<Token>, LexError>)
    ensures
        lexed(input@, r),
{
    let mut tokens = Vec::<Token>::new();
    let chars: Vec<char> = chars_of(input);
    let mut pos: usize = 0;
    proof {
        assert(tokens_view(tokens@) =~= Seq::empty());
        assert(Seq::<Annot<Lexeme>>::empty() + scan(input@, 0)->Ok_0 =~= scan(input@, 0)->Ok_0);
    }
    while pos < chars.len()
        invariant
            chars@ == input@,
            pos <= input@.len(),
            join(tokens_view(tokens@), scan(input@, pos as int)) == tokens_of(input@),
        decreases input@.len() - pos,
    {
        let c = chars[pos];
        if crate::chars::is_space(c) {
            pos += 1;
        } else {
            let left: usize = chars.len() - pos;
            let step: Result<(Token, usize), LexError> = if is_number(c) {
                Ok(lex_int(&chars, pos))
            } else if is_identifier_nameable(c) {
                proof {
                    crate::lexeme::lemma_keyword_at(input@, pos as int);
                    reveal_strlit("return");
                    assert("return"@ =~= crate::lexeme::keyword());
                    lemma_bytes_of(crate::lexeme::keyword());
                }
                if is_match(&chars, pos, "return") && !(left > 6 && is_identifier_nameable(
                    chars[pos + 6],
                )) {
                    proof {
                        assert(input@.subrange(pos as int, pos + 6) =~= crate::lexeme::keyword());
                        lemma_name_end(input@, pos as int);
                    }
                    lex_return(&chars, pos)
                } else {
                    Ok(lex_identifier(&chars, pos))
                }
            } else if (c == '=' || c == '<' || c == '>' || c == '!') && left > 1 && chars[pos + 1]
                == '=' {
                proof {
                    assert(input@.subrange(pos as int, pos + 2) =~= seq![c, '=']);
                }
                match c {
                    '=' => lex_eq(&chars, pos),
                    '<' => lex_leq(&chars, pos),
                    '>' => lex_geq(&chars, pos),
                    _ => lex_neq(&chars, pos),
                }
            } else {
                proof {
                    assert(input@.subrange(pos as int, pos + 1) =~= seq![c]);
                }
                match c {
                    '+' => lex_add(&chars, pos),
                    '-' => lex_sub(&chars, pos),
                    '*' => lex_mul(&chars, pos),
                    '/' => lex_quo(&chars, pos),
                    '(' => lex_lparen(&chars, pos),
                    ')' => lex_rparen(&chars, pos),
                    '=' => lex_assign(&chars, pos),
                    '<' => lex_lss(&chars, pos),
                    '>' => lex_grt(&chars, pos),
                    ';' => lex_eof(&chars, pos),
                    _ => Err(LexError::invalid_char(c, Loc(pos, pos + 1))),
                }
            };
            proof {
                lemma_lexeme_extent(input@, pos as int);
                assert(step_outcome(input@, pos as int, step));
            }
            match step {
                Ok((token, end)) => {
                    proof {
                        lemma_join_cons(
                            tokens_view(tokens@),
                            token_view(token),
                            scan(input@, end as int),
                        );
                        assert(tokens_view(tokens@.push(token)) =~= tokens_view(tokens@).push(
                            token_view(token),
                        ));
                    }
                    tokens.push(token);
                    pos = end;
                },
                Err(error) => {
                    return Err(error);
                },
            }
        }
    }
    proof {
        assert(tokens_view(tokens@) + Seq::<Annot<Lexeme>>::empty() =~= tokens_view(tokens@));
    }
    Ok(tokens)
}

/// Appends the canonical spelling of a token kind.
pub fn spell(kind: &TokenKind, out: &mut String)
    ensures
        final(out)@ == old(out)@ + spelling(kind@),
{
    proof {
        lemma_marks();
    }
    match kind {
        TokenKind::Ident(name) => out.append(name.as_str()),
        TokenKind::Int(n) => push_decimal(out, *n),
        TokenKind::Return => out.append("return"),
        TokenKind::Eof => out.append(";"),
        TokenKind::Add => out.append("+"),
        TokenKind::Sub => out.append("-"),
        TokenKind::Mul => out.append("*"),
        TokenKind::Quo => out.append("/"),
        TokenKind::LParen => out.append("("),
        TokenKind::RParen => out.append(")"),
        TokenKind::ASSIGN => out.append("="),
        TokenKind::EQ => out.append("=="),
        TokenKind::NEQ => out.append("!="),
        TokenKind::LEQ => out.append("<="),
        TokenKind::GEQ => out.append(">="),
        TokenKind::LSS => out.append("<"),
        TokenKind::GRT => out.append(">"),
    }
}

/// The canonical text of a token sequence: the spelling of each token,
/// followed by one blank. Lexing it gives the same kinds back, as long as
/// no integer is negative.
pub fn canonical_text(tokens: &Vec<Token>) -> (text: String)
    ensures
        text@ == canonical(lexemes_of(tokens_view(tokens@))),
{
    let ghost lexemes = lexemes_of(tokens_view(tokens@));
    let mut text = String::new();
    let mut i: usize = 0;
    proof {
        assert(lexemes.take(0) =~= Seq::<Lexeme>::empty());
    }
    while i < tokens.len()
        invariant
            i <= tokens@.len(),
            lexemes == lexemes_of(tokens_view(tokens@)),
            text@ == canonical(lexemes.take(i as int)),
        decreases tokens@.len() - i,
    {
        let ghost before = text@;
        spell(&tokens[i].value, &mut text);
        text.push(' ');
        proof {
            lemma_canonical_push(lexemes.take(i as int), lexemes[i as int]);
            assert(lexemes.take(i + 1) =~= lexemes.take(i as int).push(lexemes[i as int]));
            assert((before + spelling(lexemes[i as int])).push(' ') =~= before + spelling(
                lexemes[i as int],
            ) + seq![' ']);
        }
        i += 1;
    }
    proof {
        assert(lexemes.take(tokens@.len() as int) =~= lexemes);
    }
    text
}

} // verus!
