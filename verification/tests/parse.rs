use rchan::error::RError;
use rchan::parse::{
    consume, consume_identifier, expect, expect_number, get_identifier, is_expected, next_token,
    program, LocalVariable, LocalVariables, Node, NodeKind, Parser, TokenCursor,
};
use rchan::tokenize::{tokenize, Token, TokenKind};

fn cursor(text: &str) -> TokenCursor {
    TokenCursor::new(tokenize(text).ok().unwrap())
}

fn num(v: i64) -> Box<Node> {
    Box::new(Node::new_node_num(v))
}

fn var(offset: i32) -> Box<Node> {
    Box::new(Node::new_node_identifier(offset))
}

fn bin(kind: NodeKind, lhs: Box<Node>, rhs: Box<Node>) -> Box<Node> {
    Box::new(Node::new_node(kind, lhs, rhs))
}

fn parse_text(text: &str) -> Result<Vec<Box<Node>>, RError> {
    Parser::new(cursor(text)).program()
}

#[test]
fn parse_expect_number_test() {
    let t1 = &mut cursor("1");
    assert!(expect_number(t1) == Some(1));
    let t2 = &mut cursor("32");
    assert!(expect_number(t2) == Some(32));
}

#[test]
fn parse_consume_test() {
    let t1 = &mut cursor("+");
    assert!(consume("+", t1));
    let t2 = &mut cursor("-");
    assert!(consume("-", t2));
}

#[test]
fn get_identifier_test() {
    let t1 = &mut cursor("a");
    assert_eq!(get_identifier(t1), Some("a".to_string()));
    let t2 = &mut cursor("8");
    assert_eq!(get_identifier(t2), None);
    let t3 = &mut cursor("variable");
    assert_eq!(get_identifier(t3), Some("variable".to_string()));
}

#[test]
fn local_variable_find_test() {
    let t1 = &mut cursor("a=1;b=2;");
    let mut lvars = LocalVariables::new();
    assert_eq!(lvars.find(t1), None);

    lvars.list.push(LocalVariable {
        name: "a".to_string(),
        offset: 8,
    });
    assert!(lvars.find(t1).is_some());
}

#[test]
fn consume_identifier_test() {
    let t1 = &mut cursor("a");
    assert_eq!(consume_identifier(t1), Some('a'));
    let t2 = &mut cursor("8");
    assert_eq!(consume_identifier(t2), None);
}

#[test]
fn cursor_steps_and_stops_at_the_end() {
    let t = &mut cursor("1+");
    assert!(!is_expected("+", t));
    assert!(!consume("+", t));
    assert_eq!(t.pos, 0);
    next_token(t);
    assert!(is_expected("+", t));
    assert!(!is_expected("-", t));
    assert!(expect("+", t).is_ok());
    assert_eq!(t.pos, 2);
    assert!(!consume("+", t));
    next_token(t);
    assert_eq!(t.pos, 3);
    next_token(t);
    assert_eq!(t.pos, 3);
    assert_eq!(expect_number(t), None);
    assert!(t.current().is_none());
}

#[test]
fn expect_fails_with_the_offset_of_the_token() {
    let t = &mut cursor("12 )");
    next_token(t);
    match expect(";", t) {
        Err(RError::Parse(offset, message)) => {
            assert_eq!(offset, 3);
            assert_eq!(message, "Unexpected char");
        }
        _ => panic!("no parse error"),
    }
    assert_eq!(t.pos, 1);
}

#[test]
fn parse_precedence_and_associativity() {
    let code = parse_text("1+2*3;").unwrap();
    assert_eq!(
        code,
        vec![bin(NodeKind::Add, num(1), bin(NodeKind::Mul, num(2), num(3)))]
    );
    let code = parse_text("1-2-3;").unwrap();
    assert_eq!(
        code,
        vec![bin(NodeKind::Sub, bin(NodeKind::Sub, num(1), num(2)), num(3))]
    );
    let code = parse_text("(1+2)*3;").unwrap();
    assert_eq!(
        code,
        vec![bin(NodeKind::Mul, bin(NodeKind::Add, num(1), num(2)), num(3))]
    );
    let code = parse_text("8/4/2;").unwrap();
    assert_eq!(
        code,
        vec![bin(NodeKind::Div, bin(NodeKind::Div, num(8), num(4)), num(2))]
    );
    let code = parse_text("1==2!=3;").unwrap();
    assert_eq!(
        code,
        vec![bin(NodeKind::NotEqual, bin(NodeKind::Equal, num(1), num(2)), num(3))]
    );
    let code = parse_text("1<2==3<=4;").unwrap();
    assert_eq!(
        code,
        vec![bin(
            NodeKind::Equal,
            bin(NodeKind::LessThan, num(1), num(2)),
            bin(NodeKind::LessThanEqual, num(3), num(4))
        )]
    );
}

#[test]
fn parse_assignment_is_right_associative() {
    let code = parse_text("a=b=1;").unwrap();
    assert_eq!(
        code,
        vec![bin(NodeKind::Assign, var(8), bin(NodeKind::Assign, var(16), num(1)))]
    );
    let code = parse_text("1=2;").unwrap();
    assert_eq!(code, vec![bin(NodeKind::Assign, num(1), num(2))]);
}

#[test]
fn parse_unary_minus_is_zero_minus() {
    let code = parse_text("-3;").unwrap();
    assert_eq!(code, vec![bin(NodeKind::Sub, num(0), num(3))]);
    let code = parse_text("+3;").unwrap();
    assert_eq!(code, vec![num(3)]);
    let code = parse_text("2*-a;").unwrap();
    assert_eq!(
        code,
        vec![bin(NodeKind::Mul, num(2), bin(NodeKind::Sub, num(0), var(8)))]
    );
}

#[test]
fn parse_greater_than_swaps_the_operands() {
    assert_eq!(parse_text("1 > 2;").unwrap(), parse_text("2 < 1;").unwrap());
    assert_eq!(parse_text("1 >= 2;").unwrap(), parse_text("2 <= 1;").unwrap());
    assert_eq!(
        parse_text("1 > 2;").unwrap(),
        vec![bin(NodeKind::LessThan, num(2), num(1))]
    );
    assert_eq!(
        parse_text("1 > 2 > 3;").unwrap(),
        vec![bin(NodeKind::LessThan, num(3), bin(NodeKind::LessThan, num(2), num(1)))]
    );
}

#[test]
fn parse_gives_each_name_one_slot() {
    let mut parser = Parser::new(cursor("a=1;a=2;"));
    let code = parser.program().unwrap();
    assert_eq!(
        code,
        vec![
            bin(NodeKind::Assign, var(8), num(1)),
            bin(NodeKind::Assign, var(8), num(2)),
        ]
    );
    assert_eq!(parser.lvars.list.len(), 1);
    assert_eq!(parser.lvars.list[0].name, "a");
    assert_eq!(parser.lvars.list[0].offset, 8);
    assert_eq!(parser.lvars.offset, 8);

    let mut parser = Parser::new(cursor("a=1;bc=a;a=bc+d;"));
    let code = parser.program().unwrap();
    assert_eq!(
        code,
        vec![
            bin(NodeKind::Assign, var(8), num(1)),
            bin(NodeKind::Assign, var(16), var(8)),
            bin(NodeKind::Assign, var(8), bin(NodeKind::Add, var(16), var(24))),
        ]
    );
    let names: Vec<&str> = parser.lvars.list.iter().map(|v| v.name.as_str()).collect();
    assert_eq!(names, vec!["a", "bc", "d"]);
    assert_eq!(parser.lvars.offset, 24);
}

#[test]
fn parse_return_statement() {
    let code = parse_text("return a+4;").unwrap();
    assert_eq!(
        code,
        vec![Box::new(Node::new_node_return(bin(NodeKind::Add, var(8), num(4))))]
    );
    assert_eq!(parse_text("").unwrap(), vec![]);
}

#[test]
fn parse_free_functions_thread_the_table() {
    let t = &mut cursor("x; y; x;");
    let mut lvars = LocalVariables::new();
    let code = program(t, &mut lvars).unwrap();
    assert_eq!(code, vec![var(8), var(16), var(8)]);
    assert_eq!(t.pos, 6);
    assert_eq!(lvars.list.len(), 2);

    let t = &mut cursor("x=1; 2");
    let mut lvars = LocalVariables::new();
    assert_eq!(
        rchan::parse::stmt(t, &mut lvars).unwrap(),
        bin(NodeKind::Assign, var(8), num(1))
    );
    assert_eq!(t.pos, 4);
    assert_eq!(rchan::parse::expr(t, &mut lvars).unwrap(), num(2));
    let t = &mut cursor("y=x");
    assert_eq!(
        rchan::parse::assign(t, &mut lvars).unwrap(),
        bin(NodeKind::Assign, var(16), var(8))
    );
}

fn parse_offset(text: &str) -> usize {
    match parse_text(text) {
        Err(RError::Parse(offset, message)) => {
            assert_eq!(message, "Unexpected char");
            offset
        }
        other => panic!("no parse error: {:?}", other),
    }
}

#[test]
fn parse_errors_point_at_the_token() {
    assert_eq!(parse_offset("1"), 1);
    assert_eq!(parse_offset("1 2;"), 2);
    assert_eq!(parse_offset("(1+2;"), 4);
    assert_eq!(parse_offset("(1+2"), 4);
    assert_eq!(parse_offset("1+;"), 2);
    assert_eq!(parse_offset("1+"), 2);
    assert_eq!(parse_offset(";"), 0);
    assert_eq!(parse_offset("a = ;"), 4);
    assert_eq!(parse_offset("return;"), 6);
    assert_eq!(parse_offset("1; )"), 3);
    assert_eq!(parse_offset("return return 1;"), 7);
}

#[test]
fn is_expected_measures_the_text_in_bytes() {
    let mut plus = Token::new(TokenKind::Reserved, Some("+".to_string()));
    plus.pos = 0;
    let t = TokenCursor::new(vec![plus]);
    assert!(is_expected("+", &t));
    let mut odd = Token::new(TokenKind::Reserved, Some("+".to_string()));
    odd.len = 2;
    let t = TokenCursor::new(vec![odd]);
    assert!(!is_expected("+", &t));
    let accent = Token::new(TokenKind::Reserved, Some("\u{e9}".to_string()));
    let t = TokenCursor::new(vec![accent]);
    assert!(is_expected("\u{e9}", &t));
}
