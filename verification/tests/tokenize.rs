use rchan::error::RError;
use rchan::tokenize::{tokenize, StringReader, Token, TokenKind};

fn print_token(tokens: &[Token]) -> String {
    let mut out = String::new();
    for token in tokens {
        match token.kind {
            TokenKind::Num => {
                out += &token.val.unwrap().to_string();
                out += "|";
            }
            TokenKind::Eof => out += "Eof",
            _ => {
                out += token.string.as_ref().unwrap();
                out += "|";
            }
        }
    }
    out
}

#[test]
fn tokenize_tokenize_test() {
    let t = tokenize("+").ok().unwrap();
    assert_eq!(print_token(&t), "+|Eof".to_string());
    let t = tokenize("+-").ok().unwrap();
    assert_eq!(print_token(&t), "+|-|Eof".to_string());
    let t = tokenize("1+2").ok().unwrap();
    assert_eq!(print_token(&t), "1|+|2|Eof".to_string());
    let t = tokenize("34+5").ok().unwrap();
    assert_eq!(print_token(&t), "34|+|5|Eof".to_string());
    let t = tokenize("67 - 8").ok().unwrap();
    assert_eq!(print_token(&t), "67|-|8|Eof".to_string());
    let t = tokenize("1*(2 + 3)/(4-2)").ok().unwrap();
    assert_eq!(print_token(&t), "1|*|(|2|+|3|)|/|(|4|-|2|)|Eof".to_string());
    let t = tokenize("1 >= 2").ok().unwrap();
    assert_eq!(print_token(&t), "1|>=|2|Eof".to_string());
    let t = tokenize("1 != 2").ok().unwrap();
    assert_eq!(print_token(&t), "1|!=|2|Eof".to_string());
    let t = tokenize("1 < 2").ok().unwrap();
    assert_eq!(print_token(&t), "1|<|2|Eof".to_string());
    let t = tokenize("a + 1").ok().unwrap();
    assert_eq!(print_token(&t), "a|+|1|Eof".to_string());
    let t = tokenize("a = 1;").ok().unwrap();
    assert_eq!(print_token(&t), "a|=|1|;|Eof".to_string());
    let t = tokenize("21;38").ok().unwrap();
    assert_eq!(print_token(&t), "21|;|38|Eof".to_string());
    let t = tokenize("ab=38").ok().unwrap();
    assert_eq!(print_token(&t), "ab|=|38|Eof".to_string());
    let t = tokenize("ab-c").ok().unwrap();
    assert_eq!(print_token(&t), "ab|-|c|Eof".to_string());
    let t = tokenize("return 0;").ok().unwrap();
    assert_eq!(t[0].kind, TokenKind::Return);
    let t = tokenize("return_ = 0").ok().unwrap();
    assert_ne!(t[0].kind, TokenKind::Return);
    let t = tokenize("return 0; a").ok().unwrap();
    assert_eq!(print_token(&t), "return|0|;|a|Eof".to_string());

    let t1 = tokenize("+").ok().unwrap();
    assert!(t1[0].string.clone().unwrap() == '+'.to_string());
    let t2 = tokenize("+-").ok().unwrap();
    assert!(t2[0].string.clone().unwrap() == '+'.to_string());
    let t3 = tokenize("1+2").ok().unwrap();
    assert!(t3[2].val.unwrap() == 2);
    let t4 = tokenize("34+5").ok().unwrap();
    assert!(t4[0].val.unwrap() == 34);
    let t5 = tokenize("67 - 8").ok().unwrap();
    assert!(t5[2].val.unwrap() == 8);
    let t6 = tokenize("91 + 2").ok().unwrap();
    assert!(t6[3].kind == TokenKind::Eof);
    let t7 = tokenize("1*(2 + 3)/(4-2)").ok().unwrap();
    assert_eq!(t7[0].val, Some(1));
    let t8 = tokenize("1 >= 2").ok().unwrap();
    assert_eq!(t8[1].string, Some(">=".to_string()));
    let t9 = tokenize("1 != 2").ok().unwrap();
    assert_eq!(t9[1].string, Some("!=".to_string()));
    let t10 = tokenize("1 < 2").ok().unwrap();
    assert_eq!(t10[1].string, Some("<".to_string()));
    let t11 = tokenize("a + 1").ok().unwrap();
    assert_eq!(t11[0].string, Some("a".to_string()));
    let t12 = tokenize("a = 1;").ok().unwrap();
    assert_eq!(t12[1].string, Some("=".to_string()));
    let t13 = tokenize("21;38").ok().unwrap();
    assert_eq!(t13[1].string, Some(";".to_string()));
    let t14 = tokenize("ab=38").ok().unwrap();
    assert_eq!(t14[0].string, Some("ab".to_string()));
    let t15 = tokenize("ab-c").ok().unwrap();
    assert_eq!(t15[0].string, Some("ab".to_string()));
    let t16 = tokenize("return 0").ok().unwrap();
    assert_eq!(t16[0].kind, TokenKind::Return);
    let t17 = tokenize("return_ = 0").ok().unwrap();
    assert_ne!(t17[0].kind, TokenKind::Return);
    let t18 = tokenize("return 0; a").ok().unwrap();
    assert_eq!(t18[1].string, Some("0".to_string()));
}

#[test]
fn tokenize_string_reader_test() {
    let mut reader = StringReader::new("abc");
    assert_eq!(reader.prev(), None);
    assert!(reader.compare("abc", None));
    assert!(reader.offset_is_map(1, |c| c == 'b'));
    assert_eq!(reader.next(), Some('a'));
    assert!(reader.next_is('b'));
    assert!(!reader.next_is('a'));
    assert_eq!(reader.next(), Some('b'));
    assert_eq!(reader.next(), Some('c'));
    assert!(!reader.next_is('a'));
    assert_eq!(reader.next(), None);
    assert_eq!(reader.prev(), Some('c'));
    assert_eq!(reader.prev(), Some('b'));
    assert_eq!(reader.prev(), Some('a'));
    assert_eq!(reader.prev(), None);
}

#[test]
fn tokenize_keeps_positions_and_lengths() {
    let t = tokenize("ab1 = 1234;").ok().unwrap();
    assert_eq!(print_token(&t), "ab1|=|1234|;|Eof".to_string());
    let spans: Vec<(usize, usize)> = t.iter().map(|x| (x.pos, x.len)).collect();
    assert_eq!(spans, vec![(0, 3), (4, 1), (6, 4), (10, 1), (11, 0)]);
    assert_eq!(t[0].kind, TokenKind::Identifier);
    assert_eq!(t[2].string, Some("1234".to_string()));
    assert_eq!(t[2].val, Some(1234));
}

#[test]
fn tokenize_blank_ends_the_open_token() {
    let t = tokenize("1 2").ok().unwrap();
    assert_eq!(print_token(&t), "1|2|Eof".to_string());
    let t = tokenize("a b").ok().unwrap();
    assert_eq!(print_token(&t), "a|b|Eof".to_string());
    let t = tokenize("a<b").ok().unwrap();
    assert_eq!(print_token(&t), "a|<|b|Eof".to_string());
    let t = tokenize("").ok().unwrap();
    assert_eq!(print_token(&t), "Eof".to_string());
}

#[test]
fn tokenize_keyword_needs_a_boundary() {
    let t = tokenize("return").ok().unwrap();
    assert_eq!(t[0].kind, TokenKind::Return);
    assert_eq!(t.len(), 2);
    let t = tokenize("returnx").ok().unwrap();
    assert_eq!(t[0].kind, TokenKind::Identifier);
    assert_eq!(t[0].string, Some("returnx".to_string()));
    let t = tokenize("return_").ok().unwrap();
    assert_eq!(t[0].kind, TokenKind::Identifier);
    let t = tokenize("1return;").ok().unwrap();
    assert_eq!(print_token(&t), "1|return|;|Eof".to_string());
    assert_eq!(t[1].kind, TokenKind::Return);
    let t = tokenize("areturn").ok().unwrap();
    assert_eq!(t[0].kind, TokenKind::Identifier);
    assert_eq!(t.len(), 2);
}

#[test]
fn tokenize_rejects_the_first_character_that_starts_no_token() {
    match tokenize("1 & 2;") {
        Err(RError::Tokenize(offset, message)) => {
            assert_eq!(offset, 2);
            assert_eq!(message, "Invalid character");
        }
        _ => panic!("no lexical error"),
    }
    match tokenize("a ! b") {
        Err(RError::Tokenize(offset, _)) => assert_eq!(offset, 2),
        _ => panic!("no lexical error"),
    }
}

#[test]
fn tokenize_agrees_with_lex() {
    for text in ["a=3;return a+4;", "(1+2)*3;", "1==1;", "x1 >= y_2 != 3", "return1 <= 10"] {
        let modal = tokenize(text).ok().unwrap();
        let direct = rchan::lexer::lex(text).unwrap();
        assert_eq!(modal.len(), direct.len() + 1);
        for (m, d) in modal.iter().zip(direct.iter()) {
            assert_eq!((m.pos, m.pos + m.len), (d.loc.0, d.loc.1));
        }
    }
}

#[test]
fn string_reader_take_and_foward() {
    let mut reader = StringReader::new("abcdef");
    assert_eq!(reader.take(3, None), "abc");
    assert_eq!(reader.take(3, Some(4)), "ef");
    assert_eq!(reader.take(3, Some(6)), "");
    assert_eq!(reader.take(3, Some(-1)), "");
    reader.foward(2);
    assert_eq!(reader.take(2, Some(-1)), "bc");
    assert_eq!(reader.next(), Some('c'));
    reader.foward(2);
    assert!(!reader.is_end());
    assert!(reader.offset_is_map(0, |c| c == 'f'));
    assert!(!reader.offset_is_map(1, |_| true));
    reader.foward(100);
    assert_eq!(reader.index, 105);
    assert!(reader.is_end());
    assert_eq!(reader.next(), None);
    assert_eq!(reader.index, 105);
    assert_eq!(reader.take(3, None), "");
    assert_eq!(reader.prev(), None);
    assert_eq!(reader.index, 104);
    assert_eq!(reader.take(2, Some(-100)), "ef");
}

#[test]
fn string_reader_counts_its_end_in_bytes() {
    let mut reader = StringReader::new("\u{e9}x");
    assert_eq!(reader.len, 3);
    assert_eq!(reader.next(), Some('\u{e9}'));
    assert_eq!(reader.next(), Some('x'));
    assert!(!reader.is_end());
    assert_eq!(reader.next(), None);
    assert_eq!(reader.index, 3);
    assert!(reader.is_end());
    assert_eq!(reader.next(), None);
    assert_eq!(reader.index, 3);
    assert_eq!(reader.prev(), None);
    assert_eq!(reader.prev(), Some('x'));
    assert!(reader.compare("x", None));
    assert!(reader.compare("\u{e9}x", Some(-1)));
    assert!(!reader.compare("\u{e9}", Some(-1)));
    assert_eq!(reader.take(3, Some(-1)), "\u{e9}x");
}

#[test]
fn token_length_counts_bytes() {
    let t = Token::new(TokenKind::Reserved, Some("\u{e9}".to_string()));
    assert_eq!(t.len, 2);
    assert_eq!(t.kind, TokenKind::Reserved);
    assert_eq!(t.string, Some("\u{e9}".to_string()));
    assert_eq!(t.val, None);
    assert_eq!(t.pos, 0);
    assert_eq!(Token::new(TokenKind::Identifier, Some("abc".to_string())).len, 3);
    assert_eq!(Token::new(TokenKind::Eof, None).len, 0);
}

#[test]
fn error_message_puts_a_caret_under_the_offset() {
    let e = RError::Tokenize(2, "Invalid character".to_string());
    assert_eq!(e.build_error_message("1 & 2;"), "1 & 2;\n  ^ Invalid character\n");
    assert_eq!(RError::Nothing.build_error_message("1"), "Unexpected Error");
}
