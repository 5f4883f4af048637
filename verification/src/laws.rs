//! Laws that relate the stages: what parsing and code generation make of
//! particular token sequences.

use crate::assembly::{program_code, program_text, FRAME_SIZE};
use crate::generator::exprs;
use crate::grammar;
use crate::grammar::{
    at_end, combined, int_node, is_add_op, is_equality_op, is_mul_op, is_relational_op, left,
    operation, parsed, peek, Names, Step, Tokens, Unit,
};
use crate::lexeme::{lexemes_of, spanned, tokens_of, Lexeme};
use crate::lexer::Annot;
use crate::machine::{
    entered, execute, framed, law_program_computes, run, variables, Machine, Outcome, Progress,
};
use crate::parser::{Node, NodeKind};
use vstd::prelude::*;

verus! {

/// An integer literal that no `*`, `/`, `+` or `-` follows is an operand
/// on its own at every level up to sums.
#[verifier::spinoff_prover]
pub proof fn lemma_literal_operand(tokens: Tokens, pos: int, vars: Names, value: i64)
    requires
        0 <= pos < tokens.len(),
        tokens[pos].value == Lexeme::Int(value),
        !is_mul_op(peek(tokens, pos + 1)),
        !is_add_op(peek(tokens, pos + 1)),
    ensures
        grammar::add(tokens, pos, vars) == Ok::<Step, grammar::Fault>(
            Step { node: int_node(value, tokens[pos].loc), pos: pos + 1, vars },
        ),
{
    reveal(grammar::primary);
    reveal(grammar::unary);
    reveal(grammar::mul_rest);
    reveal(grammar::mul);
    reveal(grammar::add_rest);
    reveal(grammar::add);
    let literal = Step { node: int_node(value, tokens[pos].loc), pos: pos + 1, vars };
    assert(grammar::primary(tokens, pos, vars) == Ok::<Step, grammar::Fault>(literal));
    assert(grammar::unary(tokens, pos, vars) == Ok::<Step, grammar::Fault>(literal));
    assert(grammar::mul_rest(tokens, literal) == Ok::<Step, grammar::Fault>(literal));
    assert(grammar::mul(tokens, pos, vars) == Ok::<Step, grammar::Fault>(literal));
    assert(grammar::add_rest(tokens, literal) == Ok::<Step, grammar::Fault>(literal));
}

/// The program `a op b ;` of two integer literals and a comparison by
/// order is one statement: the operation on the two literals.
#[verifier::spinoff_prover]
pub proof fn lemma_parse_comparison(tokens: Tokens, a: i64, b: i64)
    requires
        tokens.len() == 4,
        tokens[0].value == Lexeme::Int(a),
        is_relational_op(Some(tokens[1].value)),
        tokens[2].value == Lexeme::Int(b),
        tokens[3].value == Lexeme::Semi,
    ensures
        parsed(tokens) == Ok::<Unit, grammar::Fault>(
            Unit {
                nodes: seq![
                    operation(
                        tokens[1].value,
                        int_node(a, tokens[0].loc),
                        int_node(b, tokens[2].loc),
                        tokens[1].loc,
                    ),
                ],
                vars: Seq::empty(),
                end: 4,
            },
        ),
{
    let vars: Names = Seq::empty();
    let left = Step { node: int_node(a, tokens[0].loc), pos: 1, vars };
    let node = operation(
        tokens[1].value,
        int_node(a, tokens[0].loc),
        int_node(b, tokens[2].loc),
        tokens[1].loc,
    );
    let whole = Step { node, pos: 3, vars };
    lemma_literal_operand(tokens, 0, vars, a);
    lemma_literal_operand(tokens, 2, vars, b);
    reveal(grammar::add);
    reveal(grammar::relational_rest);
    reveal(grammar::relational);
    reveal(grammar::equality_rest);
    reveal(grammar::equality);
    reveal(grammar::assign);
    reveal(grammar::expr);
    reveal(grammar::stmt);
    reveal(grammar::program);
    assert(combined(tokens, left, grammar::add(tokens, 2, vars)) == Ok::<Step, grammar::Fault>(
        whole,
    ));
    assert(grammar::relational_rest(tokens, whole) == Ok::<Step, grammar::Fault>(whole));
    assert(grammar::relational_rest(tokens, left) == Ok::<Step, grammar::Fault>(whole));
    assert(grammar::relational(tokens, 0, vars) == Ok::<Step, grammar::Fault>(whole));
    assert(grammar::equality_rest(tokens, whole) == Ok::<Step, grammar::Fault>(whole));
    assert(grammar::equality(tokens, 0, vars) == Ok::<Step, grammar::Fault>(whole));
    assert(grammar::assign(tokens, 0, vars) == Ok::<Step, grammar::Fault>(whole));
    assert(grammar::expr(tokens, 0, vars) == Ok::<Step, grammar::Fault>(whole));
    let done = Step { node, pos: 4, vars };
    assert(grammar::stmt(tokens, 0, vars) == Ok::<Step, grammar::Fault>(done));
    assert(at_end(tokens, 4));
    assert(grammar::program(tokens, 4, vars) == Ok::<Unit, grammar::Fault>(
        Unit { nodes: Seq::empty(), vars, end: 4 },
    ));
    assert(seq![node] + Seq::<crate::parser::Node>::empty() =~= seq![node]);
}

/// Comparison normalization: for integer literals `a` and `b`, the program
/// `a > b ;` has the expressions and the code of `b < a ;`, and `a >= b ;`
/// those of `b <= a ;`.
#[verifier::spinoff_prover]
pub proof fn law_comparison_normalized(greater: Tokens, less: Tokens, a: i64, b: i64)
    requires
        (lexemes_of(greater) == seq![Lexeme::Int(a), Lexeme::Grt, Lexeme::Int(b), Lexeme::Semi]
            && lexemes_of(less) == seq![
            Lexeme::Int(b),
            Lexeme::Lss,
            Lexeme::Int(a),
            Lexeme::Semi,
        ]) || (lexemes_of(greater) == seq![
            Lexeme::Int(a),
            Lexeme::Geq,
            Lexeme::Int(b),
            Lexeme::Semi,
        ] && lexemes_of(less) == seq![Lexeme::Int(b), Lexeme::Leq, Lexeme::Int(a), Lexeme::Semi]),
    ensures
        parsed(greater) is Ok,
        parsed(less) is Ok,
        exprs(parsed(greater)->Ok_0.nodes) == exprs(parsed(less)->Ok_0.nodes),
        program_text(exprs(parsed(greater)->Ok_0.nodes)) == program_text(
            exprs(parsed(less)->Ok_0.nodes),
        ),
{
    assert(greater.len() == lexemes_of(greater).len());
    assert(less.len() == lexemes_of(less).len());
    assert(forall|i: int| 0 <= i < 4 ==> greater[i].value == lexemes_of(greater)[i]);
    assert(forall|i: int| 0 <= i < 4 ==> less[i].value == lexemes_of(less)[i]);
    lemma_parse_comparison(greater, a, b);
    lemma_parse_comparison(less, b, a);
    let first = parsed(greater)->Ok_0.nodes;
    let second = parsed(less)->Ok_0.nodes;
    assert(first[0].erase() == second[0].erase()) by {
        assert(int_node(a, greater[0].loc).erase() == int_node(a, less[2].loc).erase());
        assert(int_node(b, greater[2].loc).erase() == int_node(b, less[0].loc).erase());
    }
    assert(exprs(first) =~= exprs(second));
}

/// A token sequence with an end marker behind it.
pub open spec fn closed(tokens: Tokens, end: Annot<Lexeme>) -> Tokens {
    tokens.push(end)
}

/// Behind the last token the end marker stands where nothing stood; before
/// it the tokens are the same.
pub proof fn lemma_closed(tokens: Tokens, end: Annot<Lexeme>, pos: int)
    requires
        end.value == Lexeme::End,
        0 <= pos <= tokens.len(),
    ensures
        pos < tokens.len() ==> closed(tokens, end)[pos] == tokens[pos] && peek(
            closed(tokens, end),
            pos,
        ) == peek(tokens, pos),
        pos == tokens.len() ==> peek(closed(tokens, end), pos) == Some(Lexeme::End) && peek(
            tokens,
            pos,
        ) is None,
        left(closed(tokens, end), pos) == left(tokens, pos) + 1,
{
}

#[verifier::spinoff_prover]
pub proof fn lemma_primary_closed(tokens: Tokens, end: Annot<Lexeme>, pos: int, vars: Names)
    requires
        end.value == Lexeme::End,
        0 <= pos <= tokens.len(),
    ensures
        grammar::primary(closed(tokens, end), pos, vars) == grammar::primary(tokens, pos, vars),
    decreases left(tokens, pos), 0nat,
{
    reveal(grammar::primary);
    reveal(grammar::expr);
    lemma_closed(tokens, end, pos);
    if peek(tokens, pos) == Some(Lexeme::LParen) {
        lemma_expr_closed(tokens, end, pos + 1, vars);
        grammar::lemma_expr(tokens, pos + 1, vars);
        if let Ok(inner) = grammar::expr(tokens, pos + 1, vars) {
            lemma_closed(tokens, end, inner.pos);
        }
    }
}

#[verifier::spinoff_prover]
pub proof fn lemma_unary_closed(tokens: Tokens, end: Annot<Lexeme>, pos: int, vars: Names)
    requires
        end.value == Lexeme::End,
        0 <= pos <= tokens.len(),
    ensures
        grammar::unary(closed(tokens, end), pos, vars) == grammar::unary(tokens, pos, vars),
    decreases left(tokens, pos), 1nat,
{
    reveal(grammar::unary);
    reveal(grammar::primary);
    lemma_closed(tokens, end, pos);
    if peek(tokens, pos) == Some(Lexeme::Add) || peek(tokens, pos) == Some(Lexeme::Sub) {
        lemma_primary_closed(tokens, end, pos + 1, vars);
    } else {
        lemma_primary_closed(tokens, end, pos, vars);
    }
}

#[verifier::spinoff_prover]
pub proof fn lemma_mul_rest_closed(tokens: Tokens, end: Annot<Lexeme>, lhs: Step)
    requires
        end.value == Lexeme::End,
        0 <= lhs.pos <= tokens.len(),
    ensures
        grammar::mul_rest(closed(tokens, end), lhs) == grammar::mul_rest(tokens, lhs),
    decreases left(tokens, lhs.pos), 2nat,
{
    reveal(grammar::mul_rest);
    reveal(grammar::unary);
    lemma_closed(tokens, end, lhs.pos);
    if is_mul_op(peek(tokens, lhs.pos)) {
        lemma_unary_closed(tokens, end, lhs.pos + 1, lhs.vars);
        grammar::lemma_unary(tokens, lhs.pos + 1, lhs.vars);
        match combined(tokens, lhs, grammar::unary(tokens, lhs.pos + 1, lhs.vars)) {
            Ok(next) => {
                lemma_mul_rest_closed(tokens, end, next);
            },
            Err(_) => {},
        }
    }
}

#[verifier::spinoff_prover]
pub proof fn lemma_mul_closed(tokens: Tokens, end: Annot<Lexeme>, pos: int, vars: Names)
    requires
        end.value == Lexeme::End,
        0 <= pos <= tokens.len(),
    ensures
        grammar::mul(closed(tokens, end), pos, vars) == grammar::mul(tokens, pos, vars),
    decreases left(tokens, pos), 3nat,
{
    reveal(grammar::mul);
    reveal(grammar::mul_rest);
    reveal(grammar::unary);
    lemma_unary_closed(tokens, end, pos, vars);
    grammar::lemma_unary(tokens, pos, vars);
    match grammar::unary(tokens, pos, vars) {
        Ok(first) => {
            lemma_mul_rest_closed(tokens, end, first);
        },
        Err(_) => {},
    }
}

#[verifier::spinoff_prover]
pub proof fn lemma_add_rest_closed(tokens: Tokens, end: Annot<Lexeme>, lhs: Step)
    requires
        end.value == Lexeme::End,
        0 <= lhs.pos <= tokens.len(),
    ensures
        grammar::add_rest(closed(tokens, end), lhs) == grammar::add_rest(tokens, lhs),
    decreases left(tokens, lhs.pos), 4nat,
{
    reveal(grammar::add_rest);
    reveal(grammar::mul);
    lemma_closed(tokens, end, lhs.pos);
    if is_add_op(peek(tokens, lhs.pos)) {
        lemma_mul_closed(tokens, end, lhs.pos + 1, lhs.vars);
        grammar::lemma_mul(tokens, lhs.pos + 1, lhs.vars);
        match combined(tokens, lhs, grammar::mul(tokens, lhs.pos + 1, lhs.vars)) {
            Ok(next) => {
                lemma_add_rest_closed(tokens, end, next);
            },
            Err(_) => {},
        }
    }
}

#[verifier::spinoff_prover]
pub proof fn lemma_add_closed(tokens: Tokens, end: Annot<Lexeme>, pos: int, vars: Names)
    requires
        end.value == Lexeme::End,
        0 <= pos <= tokens.len(),
    ensures
        grammar::add(closed(tokens, end), pos, vars) == grammar::add(tokens, pos, vars),
    decreases left(tokens, pos), 5nat,
{
    reveal(grammar::add);
    reveal(grammar::add_rest);
    reveal(grammar::mul);
    lemma_mul_closed(tokens, end, pos, vars);
    grammar::lemma_mul(tokens, pos, vars);
    match grammar::mul(tokens, pos, vars) {
        Ok(first) => {
            lemma_add_rest_closed(tokens, end, first);
        },
        Err(_) => {},
    }
}

#[verifier::spinoff_prover]
pub proof fn lemma_relational_rest_closed(tokens: Tokens, end: Annot<Lexeme>, lhs: Step)
    requires
        end.value == Lexeme::End,
        0 <= lhs.pos <= tokens.len(),
    ensures
        grammar::relational_rest(closed(tokens, end), lhs) == grammar::relational_rest(tokens, lhs),
    decreases left(tokens, lhs.pos), 6nat,
{
    reveal(grammar::relational_rest);
    reveal(grammar::add);
    lemma_closed(tokens, end, lhs.pos);
    if is_relational_op(peek(tokens, lhs.pos)) {
        lemma_add_closed(tokens, end, lhs.pos + 1, lhs.vars);
        grammar::lemma_add(tokens, lhs.pos + 1, lhs.vars);
        match combined(tokens, lhs, grammar::add(tokens, lhs.pos + 1, lhs.vars)) {
            Ok(next) => {
                lemma_relational_rest_closed(tokens, end, next);
            },
            Err(_) => {},
        }
    }
}

#[verifier::spinoff_prover]
pub proof fn lemma_relational_closed(tokens: Tokens, end: Annot<Lexeme>, pos: int, vars: Names)
    requires
        end.value == Lexeme::End,
        0 <= pos <= tokens.len(),
    ensures
        grammar::relational(closed(tokens, end), pos, vars) == grammar::relational(
            tokens,
            pos,
            vars,
        ),
    decreases left(tokens, pos), 7nat,
{
    reveal(grammar::relational);
    reveal(grammar::relational_rest);
    reveal(grammar::add);
    lemma_add_closed(tokens, end, pos, vars);
    grammar::lemma_add(tokens, pos, vars);
    match grammar::add(tokens, pos, vars) {
        Ok(first) => {
            lemma_relational_rest_closed(tokens, end, first);
        },
        Err(_) => {},
    }
}

#[verifier::spinoff_prover]
pub proof fn lemma_equality_rest_closed(tokens: Tokens, end: Annot<Lexeme>, lhs: Step)
    requires
        end.value == Lexeme::End,
        0 <= lhs.pos <= tokens.len(),
    ensures
        grammar::equality_rest(closed(tokens, end), lhs) == grammar::equality_rest(tokens, lhs),
    decreases left(tokens, lhs.pos), 8nat,
{
    reveal(grammar::equality_rest);
    reveal(grammar::relational);
    lemma_closed(tokens, end, lhs.pos);
    if is_equality_op(peek(tokens, lhs.pos)) {
        lemma_relational_closed(tokens, end, lhs.pos + 1, lhs.vars);
        grammar::lemma_relational(tokens, lhs.pos + 1, lhs.vars);
        match combined(tokens, lhs, grammar::relational(tokens, lhs.pos + 1, lhs.vars)) {
            Ok(next) => {
                lemma_equality_rest_closed(tokens, end, next);
            },
            Err(_) => {},
        }
    }
}

#[verifier::spinoff_prover]
pub proof fn lemma_equality_closed(tokens: Tokens, end: Annot<Lexeme>, pos: int, vars: Names)
    requires
        end.value == Lexeme::End,
        0 <= pos <= tokens.len(),
    ensures
        grammar::equality(closed(tokens, end), pos, vars) == grammar::equality(tokens, pos, vars),
    decreases left(tokens, pos), 9nat,
{
    reveal(grammar::equality);
    reveal(grammar::equality_rest);
    reveal(grammar::relational);
    lemma_relational_closed(tokens, end, pos, vars);
    grammar::lemma_relational(tokens, pos, vars);
    match grammar::relational(tokens, pos, vars) {
        Ok(first) => {
            lemma_equality_rest_closed(tokens, end, first);
        },
        Err(_) => {},
    }
}

#[verifier::spinoff_prover]
pub proof fn lemma_assign_closed(tokens: Tokens, end: Annot<Lexeme>, pos: int, vars: Names)
    requires
        end.value == Lexeme::End,
        0 <= pos <= tokens.len(),
    ensures
        grammar::assign(closed(tokens, end), pos, vars) == grammar::assign(tokens, pos, vars),
    decreases left(tokens, pos), 10nat,
{
    reveal(grammar::assign);
    reveal(grammar::equality);
    lemma_equality_closed(tokens, end, pos, vars);
    grammar::lemma_equality(tokens, pos, vars);
    match grammar::equality(tokens, pos, vars) {
        Ok(lhs) => {
            lemma_closed(tokens, end, lhs.pos);
            if peek(tokens, lhs.pos) == Some(Lexeme::Assign) {
                lemma_assign_closed(tokens, end, lhs.pos + 1, lhs.vars);
            }
        },
        Err(_) => {},
    }
}

#[verifier::spinoff_prover]
pub proof fn lemma_expr_closed(tokens: Tokens, end: Annot<Lexeme>, pos: int, vars: Names)
    requires
        end.value == Lexeme::End,
        0 <= pos <= tokens.len(),
    ensures
        grammar::expr(closed(tokens, end), pos, vars) == grammar::expr(tokens, pos, vars),
    decreases left(tokens, pos), 11nat,
{
    reveal(grammar::expr);
    reveal(grammar::assign);
    lemma_assign_closed(tokens, end, pos, vars);
}

#[verifier::spinoff_prover]
pub proof fn lemma_stmt_closed(tokens: Tokens, end: Annot<Lexeme>, pos: int, vars: Names)
    requires
        end.value == Lexeme::End,
        0 <= pos <= tokens.len(),
    ensures
        grammar::stmt(closed(tokens, end), pos, vars) == grammar::stmt(tokens, pos, vars),
{
    reveal(grammar::stmt);
    lemma_closed(tokens, end, pos);
    let start = if peek(tokens, pos) == Some(Lexeme::Return) {
        pos + 1
    } else {
        pos
    };
    lemma_expr_closed(tokens, end, start, vars);
    grammar::lemma_expr(tokens, start, vars);
    if let Ok(body) = grammar::expr(tokens, start, vars) {
        lemma_closed(tokens, end, body.pos);
    }
}

/// An end marker behind the tokens changes nothing: the statements, the
/// variables, the place where the statements end, and the fault of a
/// sequence that has none of them, are the same with the marker and without.
#[verifier::spinoff_prover]
pub proof fn law_end_marker(tokens: Tokens, end: Annot<Lexeme>, pos: int, vars: Names)
    requires
        end.value == Lexeme::End,
        0 <= pos <= tokens.len(),
    ensures
        grammar::program(closed(tokens, end), pos, vars) == grammar::program(tokens, pos, vars),
    decreases left(tokens, pos),
{
    reveal(grammar::program);
    lemma_closed(tokens, end, pos);
    if !at_end(tokens, pos) {
        lemma_stmt_closed(tokens, end, pos, vars);
        grammar::lemma_stmt(tokens, pos, vars);
        match grammar::stmt(tokens, pos, vars) {
            Ok(first) => {
                law_end_marker(tokens, end, first.pos, first.vars);
            },
            Err(_) => {},
        }
    }
}

/// The two tokenizers feed the grammar alike: the tokens of a text with
/// the end marker behind them, which `tokenize` answers, have the program
/// of the tokens alone, which `lex` answers.
pub proof fn law_tokenizers_agree(src: Seq<char>)
    requires
        tokens_of(src) is Ok,
    ensures
        parsed(
            tokens_of(src)->Ok_0.push(spanned(Lexeme::End, src.len() as int, src.len() as int)),
        ) == parsed(tokens_of(src)->Ok_0),
{
    law_end_marker(
        tokens_of(src)->Ok_0,
        spanned(Lexeme::End, src.len() as int, src.len() as int),
        0,
        Seq::empty(),
    );
}

/// The number of variables that the frame has room for.
pub open spec fn frame_slots() -> int {
    FRAME_SIZE as int / 8
}

/// A tree whose variables are among the first variables that the frame has
/// room for stands for an expression whose variables lie in the frame.
pub proof fn lemma_slotted_framed(node: Node, count: int)
    requires
        grammar::slotted(node, count),
        count <= frame_slots(),
    ensures
        framed(node.erase()),
    decreases node,
{
    match node.value {
        NodeKind::Int(_) => {},
        NodeKind::LocalVariable(offset) => {
            let i = choose|i: int| 0 <= i < count && offset == grammar::slot(i);
            assert(offset == (i + 1) * 8);
        },
        NodeKind::Assign { lhs, rhs } => {
            lemma_slotted_framed(*lhs, count);
            lemma_slotted_framed(*rhs, count);
        },
        NodeKind::Return(expr) => {
            lemma_slotted_framed(*expr, count);
        },
        NodeKind::BinOp { op, lhs, rhs } => {
            lemma_slotted_framed(*lhs, count);
            lemma_slotted_framed(*rhs, count);
        },
    }
}

/// End to end: the code of a program that parses, uses no more variables
/// than the frame has room for, and assigns to variables only, returns to
/// its caller what the statements of the program come to: the value of the
/// first `return` that is reached, or else of the last statement; and it
/// traps where a division that is reached has no result.
pub proof fn law_compiled_program(tokens: Tokens, m: Machine)
    requires
        parsed(tokens) is Ok,
        parsed(tokens)->Ok_0.vars.len() <= frame_slots(),
        program_code(exprs(parsed(tokens)->Ok_0.nodes)) is Some,
        i64::MIN + FRAME_SIZE + 8 <= m.rsp <= i64::MAX,
    ensures
        run(program_code(exprs(parsed(tokens)->Ok_0.nodes))->0, m) == match execute(
            exprs(parsed(tokens)->Ok_0.nodes),
            variables(entered(m)),
        ) {
            Progress::Going(_, Some(value)) => Outcome::Returned(value),
            Progress::Going(_, None) => Outcome::Returned(m.rax),
            Progress::Returned(value) => Outcome::Returned(value),
            Progress::Fault => Outcome::Fault,
        },
{
    let unit = parsed(tokens)->Ok_0;
    let stmts = exprs(unit.nodes);
    grammar::law_program_keeps_slots(tokens, 0, Seq::empty());
    assert forall|i: int| 0 <= i < stmts.len() implies framed(#[trigger] stmts[i]) by {
        lemma_slotted_framed(unit.nodes[i], unit.vars.len() as int);
    }
    law_program_computes(stmts, m);
}

} // verus!
