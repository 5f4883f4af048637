use rchan::lexer::{consume, lex, LexError, LexErrorKind, Loc, Token};

#[test]
fn test_1() -> Result<(), LexError> {
    let tokens = lex("1 + 1;")?;
    assert_eq!(
        tokens,
        vec!(
            Token::integer(1, Loc(0, 1)),
            Token::add(Loc(2, 3)),
            Token::integer(1, Loc(4, 5)),
            Token::eof(Loc(5, 6)),
        )
    );
    Ok(())
}

#[test]
fn test_2() -> Result<(), LexError> {
    let tokens = lex("(1-1)*1/1;")?;
    assert_eq!(
        tokens,
        vec!(
            Token::lparen(Loc(0, 1)),
            Token::integer(1, Loc(1, 2)),
            Token::sub(Loc(2, 3)),
            Token::integer(1, Loc(3, 4)),
            Token::rparen(Loc(4, 5)),
            Token::mul(Loc(5, 6)),
            Token::integer(1, Loc(6, 7)),
            Token::quo(Loc(7, 8)),
            Token::integer(1, Loc(8, 9)),
            Token::eof(Loc(9, 10)),
        )
    );
    Ok(())
}

#[test]
fn test_3() -> Result<(), LexError> {
    let tokens = lex("1>1>=1==1<=1<1!=1")?;
    assert_eq!(
        tokens,
        vec!(
            Token::integer(1, Loc(0, 1)),
            Token::grt(Loc(1, 2)),
            Token::integer(1, Loc(2, 3)),
            Token::geq(Loc(3, 5)),
            Token::integer(1, Loc(5, 6)),
            Token::eq(Loc(6, 8)),
            Token::integer(1, Loc(8, 9)),
            Token::leq(Loc(9, 11)),
            Token::integer(1, Loc(11, 12)),
            Token::lss(Loc(12, 13)),
            Token::integer(1, Loc(13, 14)),
            Token::neq(Loc(14, 16)),
            Token::integer(1, Loc(16, 17)),
        )
    );
    Ok(())
}

#[test]
fn test_4() -> Result<(), LexError> {
    let tokens = lex("return 1;")?;
    assert_eq!(
        tokens,
        vec!(
            Token::return_(Loc(0, 6)),
            Token::integer(1, Loc(7, 8)),
            Token::eof(Loc(8, 9)),
        )
    );
    Ok(())
}

#[test]
fn test_5() -> Result<(), LexError> {
    let tokens = lex("a = 1;")?;
    assert_eq!(
        tokens,
        vec!(
            Token::ident("a", Loc(0, 1)),
            Token::assign(Loc(2, 3)),
            Token::integer(1, Loc(4, 5)),
            Token::eof(Loc(5, 6)),
        )
    );
    Ok(())
}

#[test]
fn lex_takes_the_longest_word_and_number() {
    assert_eq!(lex("abc").unwrap(), vec![Token::ident("abc", Loc(0, 3))]);
    assert_eq!(lex("1234").unwrap(), vec![Token::integer(1234, Loc(0, 4))]);
    assert_eq!(lex("a1_b").unwrap(), vec![Token::ident("a1_b", Loc(0, 4))]);
    assert_eq!(
        lex("12ab").unwrap(),
        vec![Token::integer(12, Loc(0, 2)), Token::ident("ab", Loc(2, 4))]
    );
}

#[test]
fn lex_keyword_needs_a_boundary() {
    assert_eq!(lex("return").unwrap(), vec![Token::return_(Loc(0, 6))]);
    assert_eq!(lex("return_").unwrap(), vec![Token::ident("return_", Loc(0, 7))]);
    assert_eq!(lex("returnx").unwrap(), vec![Token::ident("returnx", Loc(0, 7))]);
    assert_eq!(lex("return1").unwrap(), vec![Token::ident("return1", Loc(0, 7))]);
    assert_eq!(lex("retur").unwrap(), vec![Token::ident("retur", Loc(0, 5))]);
    assert_eq!(
        lex("return;").unwrap(),
        vec![Token::return_(Loc(0, 6)), Token::eof(Loc(6, 7))]
    );
}

#[test]
fn lex_operators_of_one_and_two_characters() {
    assert_eq!(lex("<=").unwrap(), vec![Token::leq(Loc(0, 2))]);
    assert_eq!(lex(">=").unwrap(), vec![Token::geq(Loc(0, 2))]);
    assert_eq!(lex("==").unwrap(), vec![Token::eq(Loc(0, 2))]);
    assert_eq!(lex("!=").unwrap(), vec![Token::neq(Loc(0, 2))]);
    assert_eq!(lex("<").unwrap(), vec![Token::lss(Loc(0, 1))]);
    assert_eq!(lex(">").unwrap(), vec![Token::grt(Loc(0, 1))]);
    assert_eq!(lex("=").unwrap(), vec![Token::assign(Loc(0, 1))]);
    assert_eq!(
        lex("===").unwrap(),
        vec![Token::eq(Loc(0, 2)), Token::assign(Loc(2, 3))]
    );
    assert_eq!(
        lex("< =").unwrap(),
        vec![Token::lss(Loc(0, 1)), Token::assign(Loc(2, 3))]
    );
}

#[test]
fn lex_rejects_the_first_character_that_starts_no_token() {
    assert_eq!(
        lex("1 & 2;").unwrap_err(),
        LexError::invalid_char('&', Loc(2, 3))
    );
    assert_eq!(lex("!").unwrap_err(), LexError::invalid_char('!', Loc(0, 1)));
    assert_eq!(lex("1 !2").unwrap_err(), LexError::invalid_char('!', Loc(2, 3)));
    assert_eq!(lex("a\u{e9}").unwrap_err(), LexError::invalid_char('\u{e9}', Loc(1, 2)));
}

#[test]
fn lex_skips_blanks_and_accepts_empty_text() {
    assert_eq!(lex("").unwrap(), vec![]);
    assert_eq!(lex(" \t\n").unwrap(), vec![]);
    assert_eq!(
        lex("1\t2\n3").unwrap(),
        vec![
            Token::integer(1, Loc(0, 1)),
            Token::integer(2, Loc(2, 3)),
            Token::integer(3, Loc(4, 5)),
        ]
    );
}

#[test]
fn lex_integer_wraps_without_a_check() {
    assert_eq!(
        lex("9223372036854775807").unwrap(),
        vec![Token::integer(i64::MAX, Loc(0, 19))]
    );
    assert_eq!(
        lex("9223372036854775808").unwrap(),
        vec![Token::integer(i64::MIN, Loc(0, 19))]
    );
    assert_eq!(lex("007").unwrap(), vec![Token::integer(7, Loc(0, 3))]);
}

#[test]
fn consume_reads_a_fixed_text() {
    let input: Vec<char> = "a==b".chars().collect();
    assert_eq!(consume(&input, 1, "==").unwrap(), ("==".to_string(), 3));
    assert_eq!(
        consume(&input, 0, "==").unwrap_err(),
        LexError::invalid_char('a', Loc(0, 2))
    );
    assert_eq!(
        consume(&input, 3, "==").unwrap_err(),
        LexError::invalid_char('b', Loc(3, 4))
    );
    assert_eq!(
        consume(&input, 1, "=").unwrap(),
        ("=".to_string(), 2)
    );
    assert_eq!(consume(&input, 4, "==").unwrap_err(), LexError::eof(Loc(4, 4)));
    assert_eq!(consume(&input, 4, "==").unwrap_err().value, LexErrorKind::Eof);
}

#[test]
fn loc_merge_covers_both_spans() {
    assert_eq!(Loc(2, 5).merge(&Loc(3, 9)), Loc(2, 9));
    assert_eq!(Loc(4, 5).merge(&Loc(0, 1)), Loc(0, 5));
}

#[test]
fn canonical_text_lexes_to_the_same_kinds() {
    for text in [
        "1 + 1;",
        "a=3;return a+4;",
        "(1+2)*3;",
        "x1>=y_2!=3<4<=5>6==7/8-9",
        "return1 returnx _r",
        "007",
        "",
    ] {
        let tokens = lex(text).unwrap();
        let again = lex(&rchan::lexer::canonical_text(&tokens)).unwrap();
        let kinds: Vec<_> = tokens.iter().map(|t| t.value.clone()).collect();
        let kinds_again: Vec<_> = again.iter().map(|t| t.value.clone()).collect();
        assert_eq!(kinds, kinds_again);
    }
    assert_eq!(
        rchan::lexer::canonical_text(&lex("a<=12;return(b)").unwrap()),
        "a <= 12 ; return ( b ) "
    );
    assert_eq!(rchan::lexer::canonical_text(&lex("007").unwrap()), "7 ");
}

#[test]
fn canonical_text_of_a_wrapped_number_has_a_sign() {
    let tokens = lex("9223372036854775808").unwrap();
    let text = rchan::lexer::canonical_text(&tokens);
    assert_eq!(text, "-9223372036854775808 ");
    let again = lex(&text).unwrap();
    assert_eq!(again.len(), 2);
    assert_eq!(again[0], Token::sub(Loc(0, 1)));
}
