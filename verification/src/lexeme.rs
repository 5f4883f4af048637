//! The lexical model: what the token sequence of a source text is.
//!
//! `scan` defines tokenization by maximal munch over a sequence of
//! characters. Both tokenizers of this crate are proved against it.

use crate::chars::{
    ascii, digit, lemma_decimal_digits, lemma_decimal_value, name_char, name_start, numeral_value,
    signed_decimal, space,
};
use crate::lexer::{Annot, Loc};
use vstd::prelude::*;

verus! {

/// A token of the language, as a mathematical value.
pub enum Lexeme {
    Ident(Seq<char>),
    Int(i64),
    Return,
    Semi,
    Add,
    Sub,
    Mul,
    Quo,
    LParen,
    RParen,
    Assign,
    Eq,
    Neq,
    Leq,
    Geq,
    Lss,
    Grt,
    /// The marker that closes a token sequence; no source text spells it.
    End,
}

/// The spelling of the only keyword.
pub open spec fn keyword() -> Seq<char> {
    seq!['r', 'e', 't', 'u', 'r', 'n']
}

/// The canonical spelling of a lexeme.
pub open spec fn spelling(lexeme: Lexeme) -> Seq<char> {
    match lexeme {
        Lexeme::Ident(name) => name,
        Lexeme::Int(value) => signed_decimal(value as int),
        Lexeme::Return => keyword(),
        Lexeme::Semi => seq![';'],
        Lexeme::Add => seq!['+'],
        Lexeme::Sub => seq!['-'],
        Lexeme::Mul => seq!['*'],
        Lexeme::Quo => seq!['/'],
        Lexeme::LParen => seq!['('],
        Lexeme::RParen => seq![')'],
        Lexeme::Assign => seq!['='],
        Lexeme::Eq => seq!['=', '='],
        Lexeme::Neq => seq!['!', '='],
        Lexeme::Leq => seq!['<', '='],
        Lexeme::Geq => seq!['>', '='],
        Lexeme::Lss => seq!['<'],
        Lexeme::Grt => seq!['>'],
        Lexeme::End => Seq::empty(),
    }
}

/// The operator or punctuation mark that one character spells on its own.
pub open spec fn single(c: char) -> Option<Lexeme> {
    if c == '+' {
        Some(Lexeme::Add)
    } else if c == '-' {
        Some(Lexeme::Sub)
    } else if c == '*' {
        Some(Lexeme::Mul)
    } else if c == '/' {
        Some(Lexeme::Quo)
    } else if c == '(' {
        Some(Lexeme::LParen)
    } else if c == ')' {
        Some(Lexeme::RParen)
    } else if c == ';' {
        Some(Lexeme::Semi)
    } else if c == '=' {
        Some(Lexeme::Assign)
    } else if c == '<' {
        Some(Lexeme::Lss)
    } else if c == '>' {
        Some(Lexeme::Grt)
    } else {
        None
    }
}

/// The operator that a character spells together with a following `=`.
pub open spec fn paired(c: char) -> Option<Lexeme> {
    if c == '=' {
        Some(Lexeme::Eq)
    } else if c == '!' {
        Some(Lexeme::Neq)
    } else if c == '<' {
        Some(Lexeme::Leq)
    } else if c == '>' {
        Some(Lexeme::Geq)
    } else {
        None
    }
}

/// The operator or punctuation mark that a text spells.
pub open spec fn punctuation(text: Seq<char>) -> Option<Lexeme> {
    if text.len() == 1 {
        single(text[0])
    } else if text.len() == 2 && text[1] == '=' {
        paired(text[0])
    } else {
        None
    }
}

/// Whether the character at `pos` is directly followed by `=`.
pub open spec fn before_equals(src: Seq<char>, pos: int) -> bool {
    pos + 1 < src.len() && src[pos + 1] == '='
}

/// Whether `text` stands in `src` at `pos`.
pub open spec fn starts_at(src: Seq<char>, pos: int, text: Seq<char>) -> bool {
    0 <= pos && pos + text.len() <= src.len() && src.subrange(pos, pos + text.len()) == text
}

/// Where the longest run of digits that starts at `pos` ends.
pub open spec fn digits_end(src: Seq<char>, pos: int) -> int
    decreases src.len() - pos,
{
    if 0 <= pos < src.len() && digit(src[pos]) {
        digits_end(src, pos + 1)
    } else {
        pos
    }
}

/// Where the longest run of identifier characters that starts at `pos` ends.
pub open spec fn name_end(src: Seq<char>, pos: int) -> int
    decreases src.len() - pos,
{
    if 0 <= pos < src.len() && name_char(src[pos]) {
        name_end(src, pos + 1)
    } else {
        pos
    }
}

/// The lexeme of a complete word: the keyword, or else an identifier.
pub open spec fn word(text: Seq<char>) -> Lexeme {
    if text == keyword() {
        Lexeme::Return
    } else {
        Lexeme::Ident(text)
    }
}

/// The lexeme that starts at `pos`, which holds no blank, and where it ends;
/// `None` where no lexeme starts with that character.
pub open spec fn lexeme_at(src: Seq<char>, pos: int) -> Option<(Lexeme, int)> {
    let c = src[pos];
    if digit(c) {
        let end = digits_end(src, pos);
        Some((Lexeme::Int(numeral_value(src.subrange(pos, end))), end))
    } else if name_start(c) {
        let end = name_end(src, pos);
        Some((word(src.subrange(pos, end)), end))
    } else if paired(c) is Some && before_equals(src, pos) {
        Some((paired(c)->0, pos + 2))
    } else if single(c) is Some {
        Some((single(c)->0, pos + 1))
    } else {
        None
    }
}

/// A lexeme with the span of source text that spells it.
pub open spec fn spanned(lexeme: Lexeme, start: int, end: int) -> Annot<Lexeme> {
    Annot { value: lexeme, loc: Loc(start as usize, end as usize) }
}

/// Puts one token in front of the outcome for the rest of the text.
pub open spec fn cons(first: Annot<Lexeme>, rest: Result<Seq<Annot<Lexeme>>, int>) -> Result<
    Seq<Annot<Lexeme>>,
    int,
> {
    match rest {
        Ok(tokens) => Ok(seq![first] + tokens),
        Err(at) => Err(at),
    }
}

/// Puts tokens already found in front of the outcome for the rest of the text.
pub open spec fn join(found: Seq<Annot<Lexeme>>, rest: Result<Seq<Annot<Lexeme>>, int>) -> Result<
    Seq<Annot<Lexeme>>,
    int,
> {
    match rest {
        Ok(tokens) => Ok(found + tokens),
        Err(at) => Err(at),
    }
}

/// The tokens of `src` from `pos` on, or the offset of the first character
/// that starts no token.
pub open spec fn scan(src: Seq<char>, pos: int) -> Result<Seq<Annot<Lexeme>>, int>
    decreases src.len() - pos,
{
    if pos < 0 || pos >= src.len() {
        Ok(Seq::empty())
    } else if space(src[pos]) {
        scan(src, pos + 1)
    } else {
        match lexeme_at(src, pos) {
            None => Err(pos),
            Some((lexeme, end)) => {
                proof {
                    lemma_lexeme_extent(src, pos);
                }
                cons(spanned(lexeme, pos, end), scan(src, end))
            },
        }
    }
}

/// The tokens of a whole source text.
pub open spec fn tokens_of(src: Seq<char>) -> Result<Seq<Annot<Lexeme>>, int> {
    scan(src, 0)
}

/// A run of digits lies inside the text, holds digits only and cannot be
/// extended.
pub proof fn lemma_digits_end(src: Seq<char>, pos: int)
    requires
        0 <= pos <= src.len(),
    ensures
        pos <= digits_end(src, pos) <= src.len(),
        forall|i: int| pos <= i < digits_end(src, pos) ==> digit(#[trigger] src[i]),
        digits_end(src, pos) < src.len() ==> !digit(src[digits_end(src, pos)]),
    decreases src.len() - pos,
{
    if pos < src.len() && digit(src[pos]) {
        lemma_digits_end(src, pos + 1);
    }
}

/// The end of a run of digits is the only place where the run stops.
pub proof fn lemma_digits_end_is(src: Seq<char>, pos: int, end: int)
    requires
        0 <= pos <= end <= src.len(),
        forall|i: int| pos <= i < end ==> digit(#[trigger] src[i]),
        end < src.len() ==> !digit(src[end]),
    ensures
        digits_end(src, pos) == end,
    decreases end - pos,
{
    if pos < end {
        assert(digit(src[pos]));
        lemma_digits_end_is(src, pos + 1, end);
    }
}

/// A run of identifier characters lies inside the text, holds identifier
/// characters only and cannot be extended.
pub proof fn lemma_name_end(src: Seq<char>, pos: int)
    requires
        0 <= pos <= src.len(),
    ensures
        pos <= name_end(src, pos) <= src.len(),
        forall|i: int| pos <= i < name_end(src, pos) ==> name_char(#[trigger] src[i]),
        name_end(src, pos) < src.len() ==> !name_char(src[name_end(src, pos)]),
    decreases src.len() - pos,
{
    if pos < src.len() && name_char(src[pos]) {
        lemma_name_end(src, pos + 1);
    }
}

/// The end of a run of identifier characters is the only place where the run
/// stops.
pub proof fn lemma_name_end_is(src: Seq<char>, pos: int, end: int)
    requires
        0 <= pos <= end <= src.len(),
        forall|i: int| pos <= i < end ==> name_char(#[trigger] src[i]),
        end < src.len() ==> !name_char(src[end]),
    ensures
        name_end(src, pos) == end,
    decreases end - pos,
{
    if pos < end {
        assert(name_char(src[pos]));
        lemma_name_end_is(src, pos + 1, end);
    }
}

/// Every lexeme spans at least one character and ends inside the text.
pub proof fn lemma_lexeme_extent(src: Seq<char>, pos: int)
    requires
        0 <= pos < src.len(),
    ensures
        match lexeme_at(src, pos) {
            Some((_, end)) => pos < end <= src.len(),
            None => true,
        },
{
    lemma_digits_end(src, pos);
    lemma_name_end(src, pos);
}

/// Moving one found token from the rest to the front changes nothing.
pub proof fn lemma_join_cons(
    found: Seq<Annot<Lexeme>>,
    first: Annot<Lexeme>,
    rest: Result<Seq<Annot<Lexeme>>, int>,
)
    ensures
        join(found, cons(first, rest)) == join(found.push(first), rest),
{
    if let Ok(tokens) = rest {
        assert(found + (seq![first] + tokens) =~= found.push(first) + tokens);
    }
}

/// Whether a lexeme has one spelling: a mark or the keyword.
pub open spec fn fixed(lexeme: Lexeme) -> bool {
    !(lexeme is Ident) && !(lexeme is Int) && !(lexeme is End)
}

/// A text spells the mark that it stands for, and no other mark.
pub proof fn lemma_punctuation(text: Seq<char>, lexeme: Lexeme)
    ensures
        punctuation(text) == Some(lexeme) <==> fixed(lexeme) && lexeme != Lexeme::Return
            && text == spelling(lexeme),
{
    if punctuation(text) == Some(lexeme) {
        if text.len() == 1 {
            assert(text =~= seq![text[0]]);
        } else {
            assert(text =~= seq![text[0], '=']);
        }
    }
    if fixed(lexeme) && lexeme != Lexeme::Return && text == spelling(lexeme) {
        assert(punctuation(spelling(lexeme)) == Some(lexeme));
    }
}

/// A word that starts at `pos` is the keyword exactly where the keyword
/// stands there and no identifier character follows it.
pub proof fn lemma_keyword_at(src: Seq<char>, pos: int)
    requires
        0 <= pos < src.len(),
    ensures
        (src.subrange(pos, name_end(src, pos)) == keyword()) <==> (starts_at(
            src,
            pos,
            keyword(),
        ) && (pos + 6 < src.len() ==> !name_char(src[pos + 6]))),
{
    let key = keyword();
    let end = name_end(src, pos);
    lemma_name_end(src, pos);
    if starts_at(src, pos, key) && (pos + 6 < src.len() ==> !name_char(src[pos + 6])) {
        assert forall|i: int| pos <= i < pos + 6 implies name_char(#[trigger] src[i]) by {
            assert(src[i] == src.subrange(pos, pos + 6)[i - pos]);
            assert(src[i] == key[i - pos]);
        }
        lemma_name_end_is(src, pos, pos + 6);
    }
    if src.subrange(pos, end) == key {
        assert(src.subrange(pos, end).len() == 6);
    }
}

/// Every token of a scan is the lexeme that stands at the token's start:
/// the token's span lies in the text behind `pos`, starts at a character
/// that is no blank, and covers exactly that lexeme.
pub proof fn lemma_scan_token(src: Seq<char>, pos: int, i: int)
    requires
        0 <= pos,
        src.len() <= usize::MAX,
        scan(src, pos) is Ok,
        0 <= i < scan(src, pos)->Ok_0.len(),
    ensures
        ({
            let token = scan(src, pos)->Ok_0[i];
            &&& pos <= token.loc.0 < token.loc.1 <= src.len()
            &&& !space(src[token.loc.0 as int])
            &&& lexeme_at(src, token.loc.0 as int) == Some((token.value, token.loc.1 as int))
        }),
    decreases src.len() - pos,
{
    if pos < src.len() {
        if space(src[pos]) {
            lemma_scan_token(src, pos + 1, i);
        } else {
            lemma_lexeme_extent(src, pos);
            match lexeme_at(src, pos) {
                Some((lexeme, end)) => {
                    let rest = scan(src, end)->Ok_0;
                    assert(scan(src, pos)->Ok_0 == seq![spanned(lexeme, pos, end)] + rest);
                    if i > 0 {
                        lemma_scan_token(src, end, i - 1);
                        assert(scan(src, pos)->Ok_0[i] == rest[i - 1]);
                    }
                },
                None => {},
            }
        }
    }
}

/// Tokens do not overlap and stand in the order of the text.
pub proof fn law_tokens_in_order(src: Seq<char>, i: int, j: int)
    requires
        src.len() <= usize::MAX,
        tokens_of(src) is Ok,
        0 <= i < j < tokens_of(src)->Ok_0.len(),
    ensures
        tokens_of(src)->Ok_0[i].loc.1 <= tokens_of(src)->Ok_0[j].loc.0,
{
    lemma_scan_order(src, 0, i, j);
}

/// Tokens of a scan from `pos` do not overlap and stand in the order of the
/// text.
pub proof fn lemma_scan_order(src: Seq<char>, pos: int, i: int, j: int)
    requires
        0 <= pos,
        src.len() <= usize::MAX,
        scan(src, pos) is Ok,
        0 <= i < j < scan(src, pos)->Ok_0.len(),
    ensures
        scan(src, pos)->Ok_0[i].loc.1 <= scan(src, pos)->Ok_0[j].loc.0,
    decreases src.len() - pos,
{
    if pos < src.len() {
        if space(src[pos]) {
            lemma_scan_order(src, pos + 1, i, j);
        } else {
            lemma_lexeme_extent(src, pos);
            match lexeme_at(src, pos) {
                Some((lexeme, end)) => {
                    let rest = scan(src, end)->Ok_0;
                    assert(scan(src, pos)->Ok_0 == seq![spanned(lexeme, pos, end)] + rest);
                    assert(scan(src, pos)->Ok_0[j] == rest[j - 1]);
                    if i > 0 {
                        assert(scan(src, pos)->Ok_0[i] == rest[i - 1]);
                        lemma_scan_order(src, end, i - 1, j - 1);
                    } else {
                        lemma_scan_token(src, end, j - 1);
                    }
                },
                None => {},
            }
        }
    }
}

/// What a scan has read is plain text: where it succeeds, every character
/// from `pos` on is one byte; where it fails, it fails at a character that
/// is no blank and starts no lexeme, and every character from `pos` up to
/// that one is one byte.
pub proof fn lemma_scan_ascii(src: Seq<char>, pos: int)
    requires
        0 <= pos <= src.len(),
    ensures
        match scan(src, pos) {
            Ok(_) => forall|i: int| pos <= i < src.len() ==> ascii(#[trigger] src[i]),
            Err(at) => {
                &&& pos <= at < src.len()
                &&& !space(src[at])
                &&& lexeme_at(src, at) is None
                &&& forall|i: int| pos <= i < at ==> ascii(#[trigger] src[i])
            },
        },
    decreases src.len() - pos,
{
    if pos < src.len() {
        if space(src[pos]) {
            lemma_scan_ascii(src, pos + 1);
        } else {
            lemma_lexeme_extent(src, pos);
            lemma_digits_end(src, pos);
            lemma_name_end(src, pos);
            match lexeme_at(src, pos) {
                Some((lexeme, end)) => {
                    lemma_scan_ascii(src, end);
                    assert forall|i: int| pos <= i < end implies ascii(#[trigger] src[i]) by {
                        if digit(src[pos]) {
                            assert(digit(src[i]));
                        } else if name_start(src[pos]) {
                            assert(name_char(src[i]));
                        }
                    }
                },
                None => {},
            }
        }
    }
}

/// Offsets count bytes: a text that has tokens is made of one-byte
/// characters only, and so is a text that has none up to the character at
/// which the scan fails, which is the first one that starts no token.
pub proof fn law_offsets_are_bytes(src: Seq<char>)
    ensures
        match tokens_of(src) {
            Ok(_) => forall|i: int| 0 <= i < src.len() ==> ascii(#[trigger] src[i]),
            Err(at) => {
                &&& 0 <= at < src.len()
                &&& !space(src[at])
                &&& lexeme_at(src, at) is None
                &&& forall|i: int| 0 <= i < at ==> ascii(#[trigger] src[i])
            },
        },
{
    lemma_scan_ascii(src, 0);
}

/// Maximal munch for numbers: an integer token covers a run of digits that
/// no digit follows, and its value is the value of that run.
pub proof fn law_longest_number(src: Seq<char>, i: int)
    requires
        src.len() <= usize::MAX,
        tokens_of(src) is Ok,
        0 <= i < tokens_of(src)->Ok_0.len(),
        tokens_of(src)->Ok_0[i].value is Int,
    ensures
        ({
            let token = tokens_of(src)->Ok_0[i];
            let (start, end) = (token.loc.0 as int, token.loc.1 as int);
            &&& 0 <= start < end <= src.len()
            &&& forall|k: int| start <= k < end ==> digit(#[trigger] src[k])
            &&& end < src.len() ==> !digit(src[end])
            &&& token.value == Lexeme::Int(numeral_value(src.subrange(start, end)))
        }),
{
    let token = tokens_of(src)->Ok_0[i];
    lemma_scan_token(src, 0, i);
    lemma_digits_end(src, token.loc.0 as int);
    lemma_name_end(src, token.loc.0 as int);
}

/// Maximal munch for words, and the keyword's boundary: an identifier or
/// keyword token covers a run of identifier characters that no identifier
/// character follows; it is the keyword exactly where that run spells
/// `return`, and else the identifier of that spelling.
pub proof fn law_longest_word(src: Seq<char>, i: int)
    requires
        src.len() <= usize::MAX,
        tokens_of(src) is Ok,
        0 <= i < tokens_of(src)->Ok_0.len(),
        tokens_of(src)->Ok_0[i].value is Ident || tokens_of(src)->Ok_0[i].value is Return,
    ensures
        ({
            let token = tokens_of(src)->Ok_0[i];
            let (start, end) = (token.loc.0 as int, token.loc.1 as int);
            &&& 0 <= start < end <= src.len()
            &&& name_start(src[start])
            &&& forall|k: int| start <= k < end ==> name_char(#[trigger] src[k])
            &&& end < src.len() ==> !name_char(src[end])
            &&& token.value is Return <==> src.subrange(start, end) == keyword()
            &&& token.value is Ident ==> token.value == Lexeme::Ident(src.subrange(start, end))
        }),
{
    let token = tokens_of(src)->Ok_0[i];
    lemma_scan_token(src, 0, i);
    lemma_digits_end(src, token.loc.0 as int);
    lemma_name_end(src, token.loc.0 as int);
}

/// Greedy operators: a mark covers its spelling in the text, and a `<`,
/// `>` or `=` that is a token of its own is not directly followed by `=`.
pub proof fn law_longest_operator(src: Seq<char>, i: int)
    requires
        src.len() <= usize::MAX,
        tokens_of(src) is Ok,
        0 <= i < tokens_of(src)->Ok_0.len(),
        fixed(tokens_of(src)->Ok_0[i].value),
        tokens_of(src)->Ok_0[i].value != Lexeme::Return,
    ensures
        ({
            let token = tokens_of(src)->Ok_0[i];
            let (start, end) = (token.loc.0 as int, token.loc.1 as int);
            &&& 0 <= start < end <= src.len()
            &&& src.subrange(start, end) == spelling(token.value)
            &&& token.value == Lexeme::Lss || token.value == Lexeme::Grt || token.value
                == Lexeme::Assign ==> !before_equals(src, start)
        }),
{
    let token = tokens_of(src)->Ok_0[i];
    let (start, end) = (token.loc.0 as int, token.loc.1 as int);
    lemma_scan_token(src, 0, i);
    lemma_digits_end(src, start);
    lemma_name_end(src, start);
    if end == start + 2 {
        assert(src.subrange(start, end) =~= seq![src[start], '=']);
    } else {
        assert(src.subrange(start, end) =~= seq![src[start]]);
    }
}

/// The lexemes of a token sequence, without the spans.
pub open spec fn lexemes_of(tokens: Seq<Annot<Lexeme>>) -> Seq<Lexeme> {
    Seq::new(tokens.len(), |i: int| tokens[i].value)
}

/// The canonical text of a lexeme sequence: each spelling, followed by one
/// blank.
pub open spec fn canonical(lexemes: Seq<Lexeme>) -> Seq<char>
    decreases lexemes.len(),
{
    if lexemes.len() == 0 {
        Seq::empty()
    } else {
        spelling(lexemes[0]) + seq![' '] + canonical(lexemes.drop_first())
    }
}

/// Whether a lexeme can come out of a source text and be written back: a
/// name is a word other than the keyword, a number is not negative, and the
/// end marker is no part of a text.
pub open spec fn plain(lexeme: Lexeme) -> bool {
    match lexeme {
        Lexeme::Ident(name) => name.len() > 0 && name_start(name[0]) && name != keyword()
            && forall|k: int| 0 <= k < name.len() ==> name_char(#[trigger] name[k]),
        Lexeme::Int(value) => value >= 0,
        Lexeme::End => false,
        _ => true,
    }
}

/// A plain lexeme whose spelling stands at `pos`, before a blank or the end
/// of the text, is the lexeme that the scan finds there.
pub proof fn lemma_lexeme_of_spelling(src: Seq<char>, pos: int, lexeme: Lexeme)
    requires
        plain(lexeme),
        starts_at(src, pos, spelling(lexeme)),
        pos + spelling(lexeme).len() < src.len() ==> src[pos + spelling(lexeme).len()] == ' ',
    ensures
        spelling(lexeme).len() > 0,
        !space(src[pos]),
        lexeme_at(src, pos) == Some((lexeme, pos + spelling(lexeme).len())),
{
    let text = spelling(lexeme);
    let end = pos + text.len();
    assert forall|k: int| pos <= k < end implies src[k] == #[trigger] text[k - pos] by {
        assert(src[k] == src.subrange(pos, end)[k - pos]);
    }
    match lexeme {
        Lexeme::Int(value) => {
            lemma_decimal_digits(value as nat);
            lemma_decimal_value(value as nat);
            assert(src[pos] == text[0]);
            assert forall|k: int| pos <= k < end implies digit(#[trigger] src[k]) by {
                assert(src[k] == text[k - pos]);
            }
            lemma_digits_end_is(src, pos, end);
        },
        Lexeme::Ident(name) => {
            assert(src[pos] == text[0]);
            assert forall|k: int| pos <= k < end implies name_char(#[trigger] src[k]) by {
                assert(src[k] == text[k - pos]);
            }
            lemma_name_end_is(src, pos, end);
        },
        Lexeme::Return => {
            assert(src[pos] == text[0]);
            assert forall|k: int| pos <= k < end implies name_char(#[trigger] src[k]) by {
                assert(src[k] == text[k - pos]);
            }
            lemma_name_end_is(src, pos, end);
        },
        _ => {
            assert(src[pos] == text[0]);
            if text.len() == 2 {
                assert(src[pos + 1] == text[1]);
            }
        },
    }
}

/// Scanning the canonical text of plain lexemes, wherever it stands at the
/// end of a text, finds these lexemes.
pub proof fn lemma_scan_canonical(prefix: Seq<char>, lexemes: Seq<Lexeme>)
    requires
        forall|i: int| 0 <= i < lexemes.len() ==> plain(#[trigger] lexemes[i]),
    ensures
        scan(prefix + canonical(lexemes), prefix.len() as int) is Ok,
        lexemes_of(scan(prefix + canonical(lexemes), prefix.len() as int)->Ok_0) == lexemes,
    decreases lexemes.len(),
{
    let src = prefix + canonical(lexemes);
    let pos = prefix.len() as int;
    if lexemes.len() == 0 {
        assert(lexemes_of(Seq::<Annot<Lexeme>>::empty()) =~= lexemes);
    } else {
        let first = lexemes[0];
        let rest = lexemes.drop_first();
        let text = spelling(first);
        let end = pos + text.len();
        assert(plain(first));
        assert(src.subrange(pos, end) =~= text);
        assert(src[end] == ' ');
        lemma_lexeme_of_spelling(src, pos, first);
        let before = prefix + text + seq![' '];
        assert(src =~= before + canonical(rest));
        assert forall|i: int| 0 <= i < rest.len() implies plain(#[trigger] rest[i]) by {
            assert(rest[i] == lexemes[i + 1]);
        }
        lemma_scan_canonical(before, rest);
        assert(scan(src, end) == scan(src, end + 1));
        let tail = scan(src, end + 1)->Ok_0;
        assert(scan(src, pos) == cons(spanned(first, pos, end), scan(src, end)));
        assert(lexemes_of(seq![spanned(first, pos, end)] + tail) =~= seq![first] + lexemes_of(
            tail,
        ));
        assert(seq![first] + rest =~= lexemes);
    }
}

/// Round trip: the canonical text of plain lexemes has exactly these
/// lexemes as its tokens.
pub proof fn law_round_trip(lexemes: Seq<Lexeme>)
    requires
        forall|i: int| 0 <= i < lexemes.len() ==> plain(#[trigger] lexemes[i]),
    ensures
        tokens_of(canonical(lexemes)) is Ok,
        lexemes_of(tokens_of(canonical(lexemes))->Ok_0) == lexemes,
{
    lemma_scan_canonical(Seq::empty(), lexemes);
    assert(Seq::<char>::empty() + canonical(lexemes) =~= canonical(lexemes));
}

/// Round trip from a source text: where the tokens of a text hold no
/// number that wrapped below zero, the canonical text of their lexemes has
/// the same lexemes as its tokens.
pub proof fn law_round_trip_of_text(src: Seq<char>)
    requires
        src.len() <= usize::MAX,
        tokens_of(src) is Ok,
        forall|i: int|
            0 <= i < tokens_of(src)->Ok_0.len() ==> match (#[trigger] tokens_of(
                src,
            )->Ok_0[i]).value {
                Lexeme::Int(value) => value >= 0,
                _ => true,
            },
    ensures
        tokens_of(canonical(lexemes_of(tokens_of(src)->Ok_0))) is Ok,
        lexemes_of(tokens_of(canonical(lexemes_of(tokens_of(src)->Ok_0)))->Ok_0) == lexemes_of(
            tokens_of(src)->Ok_0,
        ),
{
    let tokens = tokens_of(src)->Ok_0;
    let lexemes = lexemes_of(tokens);
    assert forall|i: int| 0 <= i < lexemes.len() implies plain(#[trigger] lexemes[i]) by {
        let token = tokens[i];
        assert(lexemes[i] == token.value);
        lemma_scan_token(src, 0, i);
        if token.value is Ident {
            law_longest_word(src, i);
            let name = src.subrange(token.loc.0 as int, token.loc.1 as int);
            assert forall|k: int| 0 <= k < name.len() implies name_char(#[trigger] name[k]) by {
                assert(name[k] == src[token.loc.0 + k]);
            }
        }
        lemma_digits_end(src, token.loc.0 as int);
        lemma_name_end(src, token.loc.0 as int);
    }
    law_round_trip(lexemes);
}

/// The spellings of the marks and of the keyword, as string literals.
pub proof fn lemma_marks()
    ensures
        "+"@ == spelling(Lexeme::Add),
        "-"@ == spelling(Lexeme::Sub),
        "*"@ == spelling(Lexeme::Mul),
        "/"@ == spelling(Lexeme::Quo),
        "("@ == spelling(Lexeme::LParen),
        ")"@ == spelling(Lexeme::RParen),
        ";"@ == spelling(Lexeme::Semi),
        "="@ == spelling(Lexeme::Assign),
        "=="@ == spelling(Lexeme::Eq),
        "!="@ == spelling(Lexeme::Neq),
        "<="@ == spelling(Lexeme::Leq),
        ">="@ == spelling(Lexeme::Geq),
        "<"@ == spelling(Lexeme::Lss),
        ">"@ == spelling(Lexeme::Grt),
        "return"@ == spelling(Lexeme::Return),
{
    reveal_strlit("+");
    reveal_strlit("-");
    reveal_strlit("*");
    reveal_strlit("/");
    reveal_strlit("(");
    reveal_strlit(")");
    reveal_strlit(";");
    reveal_strlit("=");
    reveal_strlit("==");
    reveal_strlit("!=");
    reveal_strlit("<=");
    reveal_strlit(">=");
    reveal_strlit("<");
    reveal_strlit(">");
    reveal_strlit("return");
    assert("+"@ =~= spelling(Lexeme::Add));
    assert("-"@ =~= spelling(Lexeme::Sub));
    assert("*"@ =~= spelling(Lexeme::Mul));
    assert("/"@ =~= spelling(Lexeme::Quo));
    assert("("@ =~= spelling(Lexeme::LParen));
    assert(")"@ =~= spelling(Lexeme::RParen));
    assert(";"@ =~= spelling(Lexeme::Semi));
    assert("="@ =~= spelling(Lexeme::Assign));
    assert("=="@ =~= spelling(Lexeme::Eq));
    assert("!="@ =~= spelling(Lexeme::Neq));
    assert("<="@ =~= spelling(Lexeme::Leq));
    assert(">="@ =~= spelling(Lexeme::Geq));
    assert("<"@ =~= spelling(Lexeme::Lss));
    assert(">"@ =~= spelling(Lexeme::Grt));
    assert("return"@ =~= spelling(Lexeme::Return));
}

/// The canonical text grows at its end as the lexemes do.
pub proof fn lemma_canonical_push(lexemes: Seq<Lexeme>, last: Lexeme)
    ensures
        canonical(lexemes.push(last)) == canonical(lexemes) + spelling(last) + seq![' '],
    decreases lexemes.len(),
{
    let grown = lexemes.push(last);
    if lexemes.len() == 0 {
        assert(grown.drop_first() =~= Seq::<Lexeme>::empty());
        assert(canonical(grown.drop_first()) =~= Seq::<char>::empty());
        assert(canonical(grown) =~= canonical(lexemes) + spelling(last) + seq![' ']);
    } else {
        assert(grown.drop_first() =~= lexemes.drop_first().push(last));
        lemma_canonical_push(lexemes.drop_first(), last);
        assert(canonical(grown) =~= canonical(lexemes) + spelling(last) + seq![' ']);
    }
}

} // verus!
