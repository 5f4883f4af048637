use rchan::lexer::{lex, Loc, Token};
use rchan::grammar::MAX_VARIABLES;
use rchan::parser::{
    find_or_create_local_var, parse, slot_after, BinOp, BinOpKind, LocalVariable, LocalVariables,
    Node, NodeKind, ParseError, UniOp, UniOpKind,
};

fn parse_text(text: &str) -> Result<Vec<Node>, ParseError> {
    parse(lex(text).unwrap())
}

#[test]
fn parser_reads_a_sum() {
    let code = parse_text("1 + 1;").unwrap();
    assert_eq!(
        code,
        vec![Node::new_binop(
            BinOp::new_add(Loc(2, 3)),
            Node::new_int(1, Loc(0, 1)),
            Node::new_int(1, Loc(4, 5)),
            Loc(2, 3)
        )]
    );
}

#[test]
fn parser_precedence_and_associativity() {
    let code = parse_text("1+2*3-4;").unwrap();
    assert_eq!(
        code,
        vec![Node::new_binop(
            BinOp::new_sub(Loc(5, 6)),
            Node::new_binop(
                BinOp::new_add(Loc(1, 2)),
                Node::new_int(1, Loc(0, 1)),
                Node::new_binop(
                    BinOp::new_mul(Loc(3, 4)),
                    Node::new_int(2, Loc(2, 3)),
                    Node::new_int(3, Loc(4, 5)),
                    Loc(3, 4)
                ),
                Loc(1, 2)
            ),
            Node::new_int(4, Loc(6, 7)),
            Loc(5, 6)
        )]
    );
    let code = parse_text("(1+2)/3;").unwrap();
    assert_eq!(
        code,
        vec![Node::new_binop(
            BinOp::new_quo(Loc(5, 6)),
            Node::new_binop(
                BinOp::new_add(Loc(2, 3)),
                Node::new_int(1, Loc(1, 2)),
                Node::new_int(2, Loc(3, 4)),
                Loc(2, 3)
            ),
            Node::new_int(3, Loc(6, 7)),
            Loc(5, 6)
        )]
    );
}

#[test]
fn parser_greater_than_swaps_the_operands() {
    let code = parse_text("1 > 2;").unwrap();
    assert_eq!(
        code,
        vec![Node::new_binop(
            BinOp::new_lss(Loc(2, 3)),
            Node::new_int(2, Loc(4, 5)),
            Node::new_int(1, Loc(0, 1)),
            Loc(2, 3)
        )]
    );
    let code = parse_text("1 >= 2;").unwrap();
    assert_eq!(
        code,
        vec![Node::new_binop(
            BinOp::new_leq(Loc(2, 4)),
            Node::new_int(2, Loc(5, 6)),
            Node::new_int(1, Loc(0, 1)),
            Loc(2, 4)
        )]
    );
    let code = parse_text("1 == 2 != 3;").unwrap();
    assert_eq!(
        code,
        vec![Node::new_binop(
            BinOp::new_neq(Loc(7, 9)),
            Node::new_binop(
                BinOp::new_eq(Loc(2, 4)),
                Node::new_int(1, Loc(0, 1)),
                Node::new_int(2, Loc(5, 6)),
                Loc(2, 4)
            ),
            Node::new_int(3, Loc(10, 11)),
            Loc(7, 9)
        )]
    );
}

#[test]
fn parser_gives_each_name_one_slot() {
    let code = parse_text("a=1;a=2;").unwrap();
    assert_eq!(
        code,
        vec![
            Node::new_assign(
                Node::new_lvar(8, Loc(0, 1)),
                Node::new_int(1, Loc(2, 3)),
                Loc(1, 2)
            ),
            Node::new_assign(
                Node::new_lvar(8, Loc(4, 5)),
                Node::new_int(2, Loc(6, 7)),
                Loc(5, 6)
            ),
        ]
    );
    let code = parse_text("a;b;a;c;b;").unwrap();
    let offsets: Vec<i32> = code
        .iter()
        .map(|n| match n.value {
            NodeKind::LocalVariable(offset) => offset,
            _ => panic!("no variable"),
        })
        .collect();
    assert_eq!(offsets, vec![8, 16, 8, 24, 16]);
}

#[test]
fn parser_return_and_assignment() {
    let code = parse_text("return a=b=3;").unwrap();
    assert_eq!(
        code,
        vec![Node::new_return(
            Node::new_assign(
                Node::new_lvar(8, Loc(7, 8)),
                Node::new_assign(
                    Node::new_lvar(16, Loc(9, 10)),
                    Node::new_int(3, Loc(11, 12)),
                    Loc(10, 11)
                ),
                Loc(8, 9)
            ),
            Loc(0, 6)
        )]
    );
    assert_eq!(parse(vec![]).unwrap(), vec![]);
}

#[test]
fn parser_unary_minus_is_zero_minus() {
    let code = parse_text("-3;").unwrap();
    assert_eq!(
        code,
        vec![Node::new_binop(
            BinOp::new_sub(Loc(0, 1)),
            Node::new_int(0, Loc(0, 1)),
            Node::new_int(3, Loc(1, 2)),
            Loc(0, 1)
        )]
    );
    assert_eq!(
        code[0],
        Node::new_uniop(UniOp::new_minus(Loc(0, 1)), Node::new_int(3, Loc(1, 2)), Loc(0, 1))
    );
    assert_eq!(UniOp::new_minus(Loc(0, 1)).value, UniOpKind::Minus);
    assert_eq!(BinOp::new_quo(Loc(0, 1)).value, BinOpKind::Quo);
    assert_eq!(parse_text("+3;").unwrap(), vec![Node::new_int(3, Loc(1, 2))]);
}

#[test]
fn parser_errors() {
    assert_eq!(parse_text("1").unwrap_err(), ParseError::Eof);
    assert_eq!(parse_text("1 2;").unwrap_err(), ParseError::Eof);
    assert_eq!(parse_text("1 +").unwrap_err(), ParseError::Eof);
    assert_eq!(parse_text("(1 + 2").unwrap_err(), ParseError::Eof);
    assert_eq!(
        parse_text("(1 + 2;").unwrap_err(),
        ParseError::NotClosingParen(Token::eof(Loc(6, 7)))
    );
    assert_eq!(
        parse_text("1 + ;").unwrap_err(),
        ParseError::Unexpected(Token::eof(Loc(4, 5)))
    );
    assert_eq!(
        parse_text("a = )").unwrap_err(),
        ParseError::Unexpected(Token::rparen(Loc(4, 5)))
    );
    assert_eq!(
        parse_text("1; * 2;").unwrap_err(),
        ParseError::Unexpected(Token::mul(Loc(3, 4)))
    );
    assert_eq!(
        parse_text("return return;").unwrap_err(),
        ParseError::Unexpected(Token::return_(Loc(7, 13)))
    );
}

#[test]
fn local_variables_keep_the_slot_of_a_name() {
    let mut lvars = LocalVariables::new();
    assert_eq!(lvars.find_and_get_offset("a"), None);
    assert_eq!(lvars.push(LocalVariable::new("a")), 8);
    assert_eq!(lvars.push(LocalVariable::new("b")), 16);
    assert_eq!(lvars.find_and_get_offset("a"), Some(8));
    assert_eq!(lvars.find_and_get_offset("b"), Some(16));
    assert_eq!(lvars.find_and_get_offset("c"), None);
    assert_eq!(
        find_or_create_local_var("c", Loc(1, 2), &mut lvars),
        Node::new_lvar(24, Loc(1, 2))
    );
    assert_eq!(
        find_or_create_local_var("a", Loc(3, 4), &mut lvars),
        Node::new_lvar(8, Loc(3, 4))
    );
    assert_eq!(lvars.0.len(), 3);
}

#[test]
fn slots_run_out_where_offsets_would_not_fit() {
    assert_eq!(slot_after(0), Some(8));
    assert_eq!(slot_after(25), Some(208));
    assert_eq!(slot_after(MAX_VARIABLES - 1), Some(i32::MAX - 7));
    assert_eq!(slot_after(MAX_VARIABLES), None);
    assert_eq!(slot_after(usize::MAX), None);
}
