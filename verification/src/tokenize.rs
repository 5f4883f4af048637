//! The modal tokenizer: a character cursor, and a scan that either starts a
//! new token or extends the one that is open.

use crate::chars::{
    bytes_of, digit, extend_value, lemma_bytes_at_least, lemma_bytes_of, name_char, name_start,
    numeral_value, space,
};
use crate::error::RError;
use crate::lexeme::{
    join, keyword, lemma_digits_end_is, lemma_join_cons, lemma_name_end, lemma_name_end_is,
    lemma_scan_ascii, lexeme_at, name_end, punctuation, scan, spanned, tokens_of, Lexeme,
};
use crate::lexer::{Annot, Loc};
use vstd::prelude::*;

verus! {

#[derive(Debug, PartialEq, Eq, Structural, Clone, Copy)]
pub enum TokenKind {
    Reserved,
    Identifier,
    Num,
    Return,
    Eof,
}

#[derive(Debug)]
pub struct Token {
    pub kind: TokenKind,
    pub val: Option<i64>,
    pub string: Option<String>,
    pub len: usize,
    /// The offset in the source of the token's first character.
    pub pos: usize,
}

impl Token {
    /// The token's text; empty where it has none.
    pub open spec fn text(&self) -> Seq<char> {
        match self.string {
            Some(s) => s@,
            None => Seq::empty(),
        }
    }

    /// The fields agree with each other and with the token's kind.
    pub open spec fn wf(&self) -> bool {
        &&& self.len == self.text().len()
        &&& self.pos + self.len <= usize::MAX
        &&& match self.kind {
            TokenKind::Reserved => self.string is Some && self.val is None && punctuation(
                self.text(),
            ) is Some,
            TokenKind::Identifier => self.string is Some && self.val is None,
            TokenKind::Num => self.string is Some && self.val is Some,
            TokenKind::Return => self.string is Some && self.val is None && self.text()
                == keyword(),
            TokenKind::Eof => self.string is None && self.val is None,
        }
    }

    /// The lexeme that a well-formed token stands for.
    pub open spec fn lexeme(&self) -> Lexeme {
        match self.kind {
            TokenKind::Reserved => punctuation(self.text())->0,
            TokenKind::Identifier => Lexeme::Ident(self.text()),
            TokenKind::Num => Lexeme::Int(self.val->0),
            TokenKind::Return => Lexeme::Return,
            TokenKind::Eof => Lexeme::End,
        }
    }

    /// The span of source text that the token covers.
    pub open spec fn loc(&self) -> Loc {
        Loc(self.pos, (self.pos + self.len) as usize)
    }

    /// The token's text is the source text of its span.
    pub open spec fn sourced(&self, src: Seq<char>) -> bool {
        &&& self.pos + self.len <= src.len()
        &&& self.kind != TokenKind::Eof ==> self.text() == src.subrange(
            self.pos as int,
            self.pos + self.len,
        )
    }

    /// The number of bytes of the token's text; 0 where it has none.
    pub open spec fn text_bytes(&self) -> nat {
        match self.string {
            Some(s) => bytes_of(s@),
            None => 0,
        }
    }

    /// A token of the given kind and text, with no value, at offset 0. Its
    /// length is the number of bytes of the text.
    pub fn new(kind: TokenKind, string: Option<String>) -> (token: Token)
        ensures
            token.kind == kind,
            token.string == string,
            token.val is None,
            token.pos == 0,
            token.len == token.text_bytes(),
    {
        let len: usize = match &string {
            Some(s) => s.as_str().as_bytes().len(),
            None => 0,
        };
        Token { kind: kind, val: None, string: string, len: len, pos: 0 }
    }
}

/// The lexeme and span that a token stands for.
pub open spec fn token_view(token: Token) -> Annot<Lexeme> {
    Annot { value: token.lexeme(), loc: token.loc() }
}

/// The lexemes and spans that a token sequence stands for.
pub open spec fn tokens_view(tokens: Seq<Token>) -> Seq<Annot<Lexeme>> {
    Seq::new(tokens.len(), |i: int| token_view(tokens[i]))
}

#[derive(Debug, PartialEq, Eq, Structural, Clone, Copy)]
pub enum TokenizeMode {
    Normal,
    Num,
    Variable,
}

impl TokenizeMode {
    pub fn normal(&mut self)
        ensures
            *final(self) == TokenizeMode::Normal,
    {
        *self = TokenizeMode::Normal;
    }

    pub fn number(&mut self)
        ensures
            *final(self) == TokenizeMode::Num,
    {
        *self = TokenizeMode::Num;
    }

    pub fn variable(&mut self)
        ensures
            *final(self) == TokenizeMode::Variable,
    {
        *self = TokenizeMode::Variable;
    }

    pub fn is_number(&self) -> (r: bool)
        ensures
            r == (*self == TokenizeMode::Num),
    {
        *self == TokenizeMode::Num
    }

    pub fn is_variable(&self) -> (r: bool)
        ensures
            r == (*self == TokenizeMode::Variable),
    {
        *self == TokenizeMode::Variable
    }
}

pub fn is_variable_nameable(c: char) -> (r: bool)
    ensures
        r == name_char(c),
{
    crate::chars::is_name_char(c)
}

pub fn is_digit(c: char) -> (r: bool)
    ensures
        r == digit(c),
{
    crate::chars::is_decimal_digit(c)
}

/// A cursor over the characters of a source text. `len` is the number of
/// bytes of the text: the cursor may be moved up to there, and behind the
/// last character it reads nothing.
pub struct StringReader {
    pub input: Vec<char>,
    pub index: usize,
    pub len: usize,
}

impl StringReader {
    /// The end mark is the number of bytes of the text.
    pub open spec fn wf(&self) -> bool {
        self.len == bytes_of(self.input@)
    }

    /// The character at a place, if one stands there.
    pub open spec fn at(&self, place: int) -> Option<char> {
        if 0 <= place < self.input@.len() {
            Some(self.input@[place])
        } else {
            None
        }
    }

    /// Where reading stops: at the end mark or behind the last character.
    pub open spec fn stop(&self) -> int {
        if self.len <= self.input@.len() {
            self.len as int
        } else {
            self.input@.len() as int
        }
    }

    /// The text that `take` reads: at most `size` characters from `start`
    /// on, and nothing where `start` lies outside the text.
    pub open spec fn window(&self, start: int, size: int) -> Seq<char> {
        if 0 <= start < self.stop() && size >= 0 {
            if start + size <= self.stop() {
                self.input@.subrange(start, start + size)
            } else {
                self.input@.subrange(start, self.stop())
            }
        } else {
            Seq::empty()
        }
    }

    pub fn new<'a>(input: &'a str) -> (reader: Self)
        ensures
            reader.wf(),
            reader.input@ == input@,
            reader.index == 0,
    {
        let chars = crate::chars::chars_of(input);
        let len: usize = input.as_bytes().len();
        StringReader { input: chars, index: 0, len: len }
    }

    /// Steps over the place under the cursor and reads the character
    /// there; at the end mark the cursor stays and nothing is read.
    pub fn next(&mut self) -> (r: Option<char>)
        ensures
            final(self).input == old(self).input,
            final(self).len == old(self).len,
            old(self).index < old(self).len ==> r == old(self).at(old(self).index as int)
                && final(self).index == old(self).index + 1,
            old(self).index >= old(self).len ==> r is None && final(self).index == old(
                self,
            ).index,
    {
        if self.is_end() {
            return None;
        }
        let ret = if self.index < self.input.len() {
            Some(self.input[self.index])
        } else {
            None
        };
        self.index += 1;
        ret
    }

    /// Steps back by one place and reads the character there; at the start
    /// the cursor stays and nothing is read.
    pub fn prev(&mut self) -> (r: Option<char>)
        ensures
            final(self).input == old(self).input,
            final(self).len == old(self).len,
            old(self).index > 0 ==> r == old(self).at(old(self).index - 1) && final(self).index
                == old(self).index - 1,
            old(self).index == 0 ==> r is None && final(self).index == 0,
    {
        if self.index == 0 {
            return None;
        }
        self.index -= 1;
        if self.index < self.input.len() {
            Some(self.input[self.index])
        } else {
            None
        }
    }

    /// Whether the character under the cursor is `c`; the cursor stays.
    pub fn next_is(&mut self, c: char) -> (r: bool)
        ensures
            *final(self) == *old(self),
            r == (old(self).index < old(self).len && old(self).at(old(self).index as int)
                == Some(c)),
    {
        let mut ret = false;
        if self.index < self.len {
            if let Some(myc) = self.next() {
                ret = myc == c;
            }
            self.prev();
        }
        ret
    }

    /// Whether a character stands `offset` places after the cursor, before
    /// the end mark, and meets the condition; the cursor stays.
    pub fn offset_is_map(&mut self, offset: usize, condition: impl Fn(char) -> bool) -> (r: bool)
        requires
            forall|c: char| call_requires(condition, (c,)),
        ensures
            *final(self) == *old(self),
            match old(self).at(old(self).index + offset) {
                Some(c) => if old(self).index + offset < old(self).len {
                    call_ensures(condition, (c,), r)
                } else {
                    !r
                },
                None => !r,
            },
    {
        let mut ret = false;
        let current: usize = self.index;
        if self.index < self.len && offset < self.len - self.index {
            self.index += offset;
            if let Some(c) = self.next() {
                ret = condition(c);
            }
        }
        self.index = current;
        ret
    }

    /// Whether the text of as many places as `s` has bytes, from `offset`
    /// places after the cursor on, is `s`; the cursor stays.
    pub fn compare<'a>(&mut self, s: &'a str, offset: Option<i32>) -> (r: bool)
        ensures
            *final(self) == *old(self),
            r == (old(self).window(
                old(self).index + (match offset {
                    Some(o) => o as int,
                    None => 0,
                }),
                bytes_of(s@) as int,
            ) == s@),
    {
        let c = self.take(s.as_bytes().len(), offset);
        let expected: String = s.to_owned();
        expected == c
    }

    /// At most `size` characters from `offset` places after the cursor on;
    /// nothing where that place lies outside the text. The cursor stays.
    pub fn take(&mut self, size: usize, offset: Option<i32>) -> (r: String)
        ensures
            *final(self) == *old(self),
            r@ == old(self).window(
                old(self).index + (match offset {
                    Some(o) => o as int,
                    None => 0,
                }),
                size as int,
            ),
    {
        let mut ret = String::new();
        let offset: i32 = match offset {
            Some(o) => o,
            None => 0,
        };
        let limit: usize = if self.len <= self.input.len() {
            self.len
        } else {
            self.input.len()
        };
        let current: usize = self.index;
        let start: usize = if offset < 0 {
            let back: usize = (-(offset as i64)) as usize;
            if back > self.index {
                return ret;
            }
            self.index - back
        } else {
            let ahead: usize = offset as usize;
            if self.index >= limit || ahead >= limit - self.index {
                return ret;
            }
            self.index + ahead
        };
        if start >= limit {
            return ret;
        }
        self.index = start;
        let mut taken: usize = 0;
        while taken < size && self.index < limit
            invariant
                self.input == old(self).input,
                self.len == old(self).len,
                limit == self.stop(),
                start < limit,
                taken <= size,
                self.index == start + taken,
                self.index <= limit,
                ret@ == self.input@.subrange(start as int, start + taken),
            decreases size - taken,
        {
            if let Some(c) = self.next() {
                proof {
                    assert(self.input@.subrange(start as int, start + taken).push(c)
                        =~= self.input@.subrange(start as int, start + taken + 1));
                }
                ret.push(c);
            }
            taken += 1;
        }
        self.index = current;
        ret
    }

    /// Moves the cursor forward by `size` places.
    pub fn foward(&mut self, size: usize)
        requires
            old(self).index + size <= usize::MAX,
        ensures
            final(self).input == old(self).input,
            final(self).len == old(self).len,
            final(self).index == old(self).index + size,
    {
        self.index += size;
    }

    pub fn is_end(&self) -> (r: bool)
        ensures
            r == (self.index >= self.len),
    {
        self.index >= self.len
    }
}

/// The message of a lexical error.
pub open spec fn invalid_character() -> Seq<char> {
    "Invalid character"@
}

/// Every token is well formed and holds the source text of its span.
pub open spec fn all_sourced(src: Seq<char>, tokens: Seq<Token>) -> bool {
    forall|i: int| 0 <= i < tokens.len() ==> (#[trigger] tokens[i]).wf() && tokens[i].sourced(src)
}

/// What `tokenize` owes for a source text: the model's tokens and then the
/// end marker, or the offset of the first character that starts no token.
pub open spec fn tokenized(src: Seq<char>, r: Result<Vec<Token>, RError>) -> bool {
    match tokens_of(src) {
        Ok(lexemes) => match r {
            Ok(tokens) => tokens_view(tokens@) == lexemes.push(
                spanned(Lexeme::End, src.len() as int, src.len() as int),
            ) && all_sourced(src, tokens@),
            Err(_) => false,
        },
        Err(at) => match r {
            Err(RError::Tokenize(offset, message)) => offset == at && message@
                == invalid_character(),
            _ => false,
        },
    }
}

/// The state of a scan that has read `src` up to `at`. In the neutral mode
/// the tokens found so far, followed by the tokens of the rest, are the
/// tokens of the text. In the other modes the last token is open: it holds
/// the digits, or the identifier characters, from its start up to `at`.
pub open spec fn scanning(src: Seq<char>, tokens: Seq<Token>, mode: TokenizeMode, at: int) -> bool {
    &&& 0 <= at <= src.len() <= usize::MAX
    &&& all_sourced(src, tokens)
    &&& match mode {
        TokenizeMode::Normal => join(tokens_view(tokens), scan(src, at)) == tokens_of(src),
        TokenizeMode::Num => {
            &&& tokens.len() > 0
            &&& tokens.last().kind == TokenKind::Num
            &&& tokens.last().pos < at
            &&& tokens.last().pos + tokens.last().len == at
            &&& forall|i: int| tokens.last().pos <= i < at ==> digit(#[trigger] src[i])
            &&& tokens.last().val == Some(
                numeral_value(src.subrange(tokens.last().pos as int, at)),
            )
            &&& join(tokens_view(tokens.drop_last()), scan(src, tokens.last().pos as int))
                == tokens_of(src)
        },
        TokenizeMode::Variable => {
            &&& tokens.len() > 0
            &&& tokens.last().kind == TokenKind::Identifier
            &&& tokens.last().pos < at
            &&& tokens.last().pos + tokens.last().len == at
            &&& name_start(src[tokens.last().pos as int])
            &&& forall|i: int| tokens.last().pos <= i < at ==> name_char(#[trigger] src[i])
            &&& src.subrange(
                tokens.last().pos as int,
                name_end(src, tokens.last().pos as int),
            ) != keyword()
            &&& join(tokens_view(tokens.drop_last()), scan(src, tokens.last().pos as int))
                == tokens_of(src)
        },
    }
}

/// Adding a token to a sequence adds its view to the sequence's view.
pub proof fn lemma_view_push(tokens: Seq<Token>, token: Token)
    ensures
        tokens_view(tokens.push(token)) == tokens_view(tokens).push(token_view(token)),
        tokens.push(token).drop_last() == tokens,
{
    assert(tokens_view(tokens.push(token)) =~= tokens_view(tokens).push(token_view(token)));
    assert(tokens.push(token).drop_last() =~= tokens);
}

/// An open token is complete where the next character cannot extend it.
pub proof fn lemma_close(src: Seq<char>, tokens: Seq<Token>, mode: TokenizeMode, at: int)
    requires
        scanning(src, tokens, mode, at),
        at < src.len() ==> !(mode == TokenizeMode::Num && digit(src[at])) && !(mode
            == TokenizeMode::Variable && name_char(src[at])),
    ensures
        scanning(src, tokens, TokenizeMode::Normal, at),
{
    if mode != TokenizeMode::Normal {
        let open = tokens.last();
        let start = open.pos as int;
        if mode == TokenizeMode::Num {
            lemma_digits_end_is(src, start, at);
        } else {
            lemma_name_end_is(src, start, at);
        }
        assert(lexeme_at(src, start) == Some((open.lexeme(), at)));
        assert(scan(src, start) == crate::lexeme::cons(token_view(open), scan(src, at)));
        lemma_join_cons(tokens_view(tokens.drop_last()), token_view(open), scan(src, at));
        lemma_view_push(tokens.drop_last(), open);
        assert(tokens.drop_last().push(open) =~= tokens);
    }
}

/// A complete token that the model finds at `at` joins the tokens found.
pub proof fn lemma_commit(src: Seq<char>, tokens: Seq<Token>, token: Token, at: int, end: int)
    requires
        scanning(src, tokens, TokenizeMode::Normal, at),
        at < src.len(),
        !space(src[at]),
        lexeme_at(src, at) == Some((token.lexeme(), end)),
        token.wf(),
        token.sourced(src),
        token.pos == at,
        token.pos + token.len == end,
    ensures
        scanning(src, tokens.push(token), TokenizeMode::Normal, end),
{
    lemma_join_cons(tokens_view(tokens), token_view(token), scan(src, end));
    lemma_view_push(tokens, token);
}

/// A token that holds the first character of a run opens that run.
pub proof fn lemma_open(src: Seq<char>, tokens: Seq<Token>, token: Token, at: int)
    requires
        scanning(src, tokens, TokenizeMode::Normal, at),
        at < src.len(),
        token.wf(),
        token.sourced(src),
        token.pos == at,
        token.len == 1,
        token.kind == TokenKind::Num ==> digit(src[at]) && token.val == Some(
            0i64.wrapping_mul(10).wrapping_add(crate::chars::digit_value(src[at])),
        ),
        token.kind == TokenKind::Identifier ==> name_start(src[at]) && src.subrange(
            at,
            name_end(src, at),
        ) != keyword(),
        token.kind == TokenKind::Num || token.kind == TokenKind::Identifier,
    ensures
        token.kind == TokenKind::Num ==> scanning(
            src,
            tokens.push(token),
            TokenizeMode::Num,
            at + 1,
        ),
        token.kind == TokenKind::Identifier ==> scanning(
            src,
            tokens.push(token),
            TokenizeMode::Variable,
            at + 1,
        ),
{
    lemma_view_push(tokens, token);
    let one = src.subrange(at, at + 1);
    assert(one.drop_last() =~= Seq::<char>::empty());
    assert(numeral_value(one.drop_last()) == 0);
    assert(one.last() == src[at]);
}

/// An open token that takes in the character at `at` stays open.
pub proof fn lemma_extend(
    src: Seq<char>,
    tokens: Seq<Token>,
    token: Token,
    mode: TokenizeMode,
    at: int,
)
    requires
        scanning(src, tokens, mode, at),
        mode != TokenizeMode::Normal,
        at < src.len(),
        mode == TokenizeMode::Num ==> digit(src[at]) && token.val == Some(
            tokens.last().val->0.wrapping_mul(10).wrapping_add(crate::chars::digit_value(src[at])),
        ),
        mode == TokenizeMode::Variable ==> name_char(src[at]) && token.val is None,
        token.kind == tokens.last().kind,
        token.pos == tokens.last().pos,
        token.len == tokens.last().len + 1,
        token.string is Some,
        token.text() == tokens.last().text().push(src[at]),
    ensures
        scanning(src, tokens.drop_last().push(token), mode, at + 1),
{
    let open = tokens.last();
    let start = open.pos as int;
    lemma_view_push(tokens.drop_last(), token);
    assert(src.subrange(start, at + 1) =~= src.subrange(start, at).push(src[at]));
    assert(src.subrange(start, at + 1).drop_last() =~= src.subrange(start, at));
    let after = tokens.drop_last().push(token);
    assert forall|i: int| 0 <= i < after.len() implies (#[trigger] after[i]).wf()
        && after[i].sourced(src) by {
        if i < after.len() - 1 {
            assert(after[i] == tokens[i]);
        }
    }
}

/// Splits a source text into tokens and closes them with an end marker.
/// Blanks separate tokens; digits form integers, letters, digits and
/// underscores form identifiers and the keyword, each as long as it can be.
/// The first character that starts no token is answered as an error with
/// its offset.
pub fn tokenize<'a>(input: &'a str) -> (r: Result<Vec<Token>, RError>)
    ensures
        tokenized(input@, r),
{
    let mut tokens: Vec<Token> = Vec::new();
    let mut reader = StringReader::new(input);
    let mut mode = TokenizeMode::Normal;
    let count: usize = reader.input.len();
    proof {
        lemma_bytes_at_least(input@);
        assert(tokens_view(tokens@) =~= Seq::empty());
        if let Ok(rest) = scan(input@, 0) {
            assert(Seq::<Annot<Lexeme>>::empty() + rest =~= rest);
        }
    }
    loop
        invariant
            reader.wf(),
            reader.input@ == input@,
            reader.len >= input@.len(),
            scanning(input@, tokens@, mode, reader.index as int),
        ensures
            reader.index == input@.len(),
        decreases input@.len() - reader.index,
    {
        let at: usize = reader.index;
        let ghost before = tokens@;
        proof {
            if at == input@.len() {
                lemma_close(input@, before, mode, at as int);
                lemma_scan_ascii(input@, 0);
                lemma_bytes_of(input@);
            }
        }
        match reader.next() {
            Some(c) => {
                if mode.is_number() && is_digit(c) {
                    if let Some(open) = tokens.pop() {
                        let Token { kind, val, string, len, pos } = open;
                        if let (Some(value), Some(mut text)) = (val, string) {
                            text.push(c);
                            let extended = Token {
                                kind: kind,
                                val: Some(extend_value(value, c)),
                                string: Some(text),
                                len: len + 1,
                                pos: pos,
                            };
                            proof {
                                lemma_extend(input@, before, extended, mode, at as int);
                            }
                            tokens.push(extended);
                        }
                    }
                } else if mode.is_variable() && is_variable_nameable(c) {
                    if let Some(open) = tokens.pop() {
                        let Token { kind, val, string, len, pos } = open;
                        if let Some(mut text) = string {
                            text.push(c);
                            let extended = Token {
                                kind: kind,
                                val: val,
                                string: Some(text),
                                len: len + 1,
                                pos: pos,
                            };
                            proof {
                                lemma_extend(input@, before, extended, mode, at as int);
                            }
                            tokens.push(extended);
                        }
                    }
                } else {
                    proof {
                        lemma_close(input@, before, mode, at as int);
                        crate::lexeme::lemma_lexeme_extent(input@, at as int);
                    }
                    mode.normal();
                    if crate::chars::is_space(c) {
                    } else if is_digit(c) {
                        let mut new_token = Token::new(
                            TokenKind::Num,
                            Some(crate::chars::string_of(c)),
                        );
                        new_token.val = Some(extend_value(0, c));
                        new_token.pos = at;
                        proof {
                            lemma_bytes_of(seq![c]);
                            assert(input@.subrange(at as int, at + 1) =~= seq![c]);
                            lemma_open(input@, before, new_token, at as int);
                        }
                        tokens.push(new_token);
                        mode.number();
                    } else if is_variable_nameable(c) {
                        proof {
                            crate::lexeme::lemma_keyword_at(input@, at as int);
                            reveal_strlit("return");
                            assert("return"@ =~= keyword());
                            lemma_bytes_of(keyword());
                            lemma_name_end(input@, at as int);
                            assert(reader.stop() == input@.len());
                            assert(reader.window(at as int, 6).len() == 6 ==> at + 6
                                <= input@.len());
                        }
                        if reader.compare("return", Some(-1)) && !reader.offset_is_map(
                            5,
                            is_variable_nameable,
                        ) {
                            let mut new_token = Token::new(
                                TokenKind::Return,
                                Some("return".to_owned()),
                            );
                            new_token.pos = at;
                            proof {
                                lemma_bytes_of(keyword());
                                lemma_commit(input@, before, new_token, at as int, at + 6);
                            }
                            tokens.push(new_token);
                            reader.foward(5);
                        } else {
                            let mut new_token = Token::new(
                                TokenKind::Identifier,
                                Some(crate::chars::string_of(c)),
                            );
                            new_token.pos = at;
                            proof {
                                lemma_bytes_of(seq![c]);
                                assert(input@.subrange(at as int, at + 1) =~= seq![c]);
                                lemma_open(input@, before, new_token, at as int);
                            }
                            tokens.push(new_token);
                            mode.variable();
                        }
                    } else if (c == '<' || c == '>' || c == '=' || c == '!') && reader.next_is(
                        '=',
                    ) {
                        let mut s = crate::chars::string_of(c);
                        if let Some(second) = reader.next() {
                            s.push(second);
                        }
                        let mut new_token = Token::new(TokenKind::Reserved, Some(s));
                        new_token.pos = at;
                        proof {
                            lemma_bytes_of(seq![c, '=']);
                            assert(seq![c].push('=') =~= seq![c, '=']);
                            assert(input@.subrange(at as int, at + 2) =~= seq![c, '=']);
                            lemma_commit(input@, before, new_token, at as int, at + 2);
                        }
                        tokens.push(new_token);
                    } else if c == '+' || c == '-' || c == '*' || c == '/' || c == '(' || c == ')'
                        || c == '<' || c == '>' || c == '=' || c == ';' {
                        let mut new_token = Token::new(
                            TokenKind::Reserved,
                            Some(crate::chars::string_of(c)),
                        );
                        new_token.pos = at;
                        proof {
                            lemma_bytes_of(seq![c]);
                            assert(input@.subrange(at as int, at + 1) =~= seq![c]);
                            lemma_commit(input@, before, new_token, at as int, at + 1);
                        }
                        tokens.push(new_token);
                    } else {
                        return Err(RError::Tokenize(at, "Invalid character".to_owned()));
                    }
                }
            },
            None => {
                break ;
            },
        }
    }
    proof {
        lemma_close(input@, tokens@, mode, reader.index as int);
        lemma_view_push(
            tokens@,
            Token { kind: TokenKind::Eof, val: None, string: None, len: 0, pos: reader.index },
        );
        if let Ok(found) = tokens_of(input@) {
            assert(tokens_view(tokens@) + Seq::<Annot<Lexeme>>::empty() =~= tokens_view(tokens@));
        }
    }
    let mut eof_token = Token::new(TokenKind::Eof, None);
    eof_token.pos = reader.index;
    tokens.push(eof_token);
    Ok(tokens)
}

} // verus!
