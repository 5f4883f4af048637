//! The grammar model: what the statements of a token sequence are.
//!
//! ```text
//! program    := stmt* until the end
//! stmt       := "return"? expr ";"
//! expr       := assign
//! assign     := equality ( "=" assign )?
//! equality   := relational ( ("==" | "!=") relational )*
//! relational := add ( ("<=" | ">=" | "<" | ">") add )*
//! add        := mul ( ("+" | "-") mul )*
//! mul        := unary ( ("*" | "/") unary )*
//! unary      := ("+" | "-")? primary
//! primary    := "(" expr ")" | identifier | integer
//! ```
//!
//! Each rule is a function from a position in the token sequence and the
//! variables met so far to the tree it reads, the position after it and the
//! variables met by then, or to the fault that stops the parse. Both parsers
//! of this crate are proved against these functions.

use crate::lexeme::Lexeme;
use crate::lexer::{Annot, Loc};
use crate::parser::{BinOpKind, Node, NodeKind};
use vstd::prelude::*;

verus! {

/// A token sequence as the grammar sees it.
pub type Tokens = Seq<Annot<Lexeme>>;

/// The names of the variables met so far, in the order of their first use.
pub type Names = Seq<Seq<char>>;

/// What a rule has read: the tree, where the rest begins, and the variables
/// met by then.
pub struct Step {
    pub node: Node,
    pub pos: int,
    pub vars: Names,
}

pub enum FaultKind {
    /// An expression has to start here, and this token starts none.
    Unexpected,
    /// A `)` has to stand here.
    NotClosingParen,
    /// A `;` has to stand here.
    NoSemicolon,
    /// The name here is new, and no slot is left for it.
    NoSlot,
}

/// Why a parse stops, and at which token: `at` is the length of the
/// sequence where the tokens ran out.
pub struct Fault {
    pub kind: FaultKind,
    pub at: int,
}

/// The statements of a program and the variables they use.
pub struct Unit {
    pub nodes: Seq<Node>,
    pub vars: Names,
    /// Where the statements end: at the end marker, or after the last
    /// token.
    pub end: int,
}

/// The most variables that a program may have: each takes a slot of eight
/// bytes, and the offsets are 32-bit.
pub const MAX_VARIABLES: usize = 0x0fff_ffff;

/// Whether a use of `name` finds a slot: the name was met before, or a slot
/// is left.
pub open spec fn room(vars: Names, name: Seq<char>) -> bool {
    vars.contains(name) || vars.len() < MAX_VARIABLES
}

/// The size of a stack slot in bytes.
pub open spec fn word_size() -> int {
    8
}

/// The frame offset of the variable that was met as the `index`-th new one,
/// counted from 0.
pub open spec fn slot(index: int) -> i32 {
    ((index + 1) * word_size()) as i32
}

/// The variables after a use of `name`, and the offset that the name has:
/// a name met before keeps its slot, a new name takes the next one.
pub open spec fn resolve(vars: Names, name: Seq<char>) -> (Names, i32) {
    if vars.contains(name) {
        (vars, slot(vars.index_of(name)))
    } else {
        (vars.push(name), slot(vars.len() as int))
    }
}

/// How many tokens are left from `pos` on.
pub open spec fn left(tokens: Tokens, pos: int) -> nat {
    if pos <= tokens.len() {
        (tokens.len() - pos) as nat
    } else {
        0
    }
}

/// The lexeme at `pos`, if a token stands there.
pub open spec fn peek(tokens: Tokens, pos: int) -> Option<Lexeme> {
    if 0 <= pos < tokens.len() {
        Some(tokens[pos].value)
    } else {
        None
    }
}

pub open spec fn fault(kind: FaultKind, at: int) -> Result<Step, Fault> {
    Err(Fault { kind, at })
}

/// `step` itself: every rule reads at least one token (`lemma_progress`), so
/// the test never fails. It makes the recursion of the rules evidently
/// finite.
pub open spec fn after(pos: int, step: Result<Step, Fault>) -> Result<Step, Fault> {
    match step {
        Ok(s) => if s.pos > pos {
            Ok(s)
        } else {
            fault(FaultKind::Unexpected, pos)
        },
        Err(f) => Err(f),
    }
}

pub open spec fn int_node(value: i64, loc: Loc) -> Node {
    Annot { value: NodeKind::Int(value), loc }
}

pub open spec fn var_node(offset: i32, loc: Loc) -> Node {
    Annot { value: NodeKind::LocalVariable(offset), loc }
}

pub open spec fn return_node(expr: Node, loc: Loc) -> Node {
    Annot { value: NodeKind::Return(Box::new(expr)), loc }
}

pub open spec fn assign_node(lhs: Node, rhs: Node, loc: Loc) -> Node {
    Annot { value: NodeKind::Assign { lhs: Box::new(lhs), rhs: Box::new(rhs) }, loc }
}

pub open spec fn binary_node(kind: BinOpKind, lhs: Node, rhs: Node, loc: Loc) -> Node {
    Annot {
        value: NodeKind::BinOp {
            op: Annot { value: kind, loc },
            lhs: Box::new(lhs),
            rhs: Box::new(rhs),
        },
        loc,
    }
}

/// The tree of `-operand`: zero minus the operand.
pub open spec fn negation(operand: Node, loc: Loc) -> Node {
    binary_node(BinOpKind::Sub, int_node(0, loc), operand, loc)
}

/// The tree of `lhs op rhs` for an operator token. `>` and `>=` become `<`
/// and `<=` with the operands exchanged.
pub open spec fn operation(op: Lexeme, lhs: Node, rhs: Node, loc: Loc) -> Node {
    match op {
        Lexeme::Add => binary_node(BinOpKind::Add, lhs, rhs, loc),
        Lexeme::Sub => binary_node(BinOpKind::Sub, lhs, rhs, loc),
        Lexeme::Mul => binary_node(BinOpKind::Mul, lhs, rhs, loc),
        Lexeme::Quo => binary_node(BinOpKind::Quo, lhs, rhs, loc),
        Lexeme::Eq => binary_node(BinOpKind::EQ, lhs, rhs, loc),
        Lexeme::Neq => binary_node(BinOpKind::NEQ, lhs, rhs, loc),
        Lexeme::Lss => binary_node(BinOpKind::LSS, lhs, rhs, loc),
        Lexeme::Leq => binary_node(BinOpKind::LEQ, lhs, rhs, loc),
        Lexeme::Grt => binary_node(BinOpKind::LSS, rhs, lhs, loc),
        Lexeme::Geq => binary_node(BinOpKind::LEQ, rhs, lhs, loc),
        _ => lhs,
    }
}

pub open spec fn is_mul_op(lexeme: Option<Lexeme>) -> bool {
    lexeme == Some(Lexeme::Mul) || lexeme == Some(Lexeme::Quo)
}

pub open spec fn is_add_op(lexeme: Option<Lexeme>) -> bool {
    lexeme == Some(Lexeme::Add) || lexeme == Some(Lexeme::Sub)
}

pub open spec fn is_relational_op(lexeme: Option<Lexeme>) -> bool {
    lexeme == Some(Lexeme::Leq) || lexeme == Some(Lexeme::Geq) || lexeme == Some(Lexeme::Lss)
        || lexeme == Some(Lexeme::Grt)
}

pub open spec fn is_equality_op(lexeme: Option<Lexeme>) -> bool {
    lexeme == Some(Lexeme::Eq) || lexeme == Some(Lexeme::Neq)
}

/// What follows a left operand and its operator at `lhs.pos`: the right
/// operand joins the left one in a new tree.
pub open spec fn combined(tokens: Tokens, lhs: Step, rhs: Result<Step, Fault>) -> Result<
    Step,
    Fault,
> {
    match after(lhs.pos + 1, rhs) {
        Ok(r) => Ok(
            Step {
                node: operation(tokens[lhs.pos].value, lhs.node, r.node, tokens[lhs.pos].loc),
                pos: r.pos,
                vars: r.vars,
            },
        ),
        Err(f) => Err(f),
    }
}

#[verifier::opaque]
pub open spec fn primary(tokens: Tokens, pos: int, vars: Names) -> Result<Step, Fault>
    decreases left(tokens, pos), 0nat,
{
    match peek(tokens, pos) {
        Some(Lexeme::LParen) => match expr(tokens, pos + 1, vars) {
            Ok(inner) => if peek(tokens, inner.pos) == Some(Lexeme::RParen) {
                Ok(Step { node: inner.node, pos: inner.pos + 1, vars: inner.vars })
            } else {
                fault(FaultKind::NotClosingParen, inner.pos)
            },
            Err(f) => Err(f),
        },
        Some(Lexeme::Ident(name)) => if room(vars, name) {
            Ok(
                Step {
                    node: var_node(resolve(vars, name).1, tokens[pos].loc),
                    pos: pos + 1,
                    vars: resolve(vars, name).0,
                },
            )
        } else {
            fault(FaultKind::NoSlot, pos)
        },
        Some(Lexeme::Int(value)) => Ok(
            Step { node: int_node(value, tokens[pos].loc), pos: pos + 1, vars },
        ),
        _ => fault(FaultKind::Unexpected, pos),
    }
}

#[verifier::opaque]
pub open spec fn unary(tokens: Tokens, pos: int, vars: Names) -> Result<Step, Fault>
    decreases left(tokens, pos), 1nat,
{
    match peek(tokens, pos) {
        Some(Lexeme::Add) => primary(tokens, pos + 1, vars),
        Some(Lexeme::Sub) => match primary(tokens, pos + 1, vars) {
            Ok(operand) => Ok(
                Step {
                    node: negation(operand.node, tokens[pos].loc),
                    pos: operand.pos,
                    vars: operand.vars,
                },
            ),
            Err(f) => Err(f),
        },
        _ => primary(tokens, pos, vars),
    }
}

/// The operators and operands that follow the left operand `lhs` of a
/// product.
#[verifier::opaque]
pub open spec fn mul_rest(tokens: Tokens, lhs: Step) -> Result<Step, Fault>
    decreases left(tokens, lhs.pos), 2nat,
{
    if is_mul_op(peek(tokens, lhs.pos)) {
        match combined(tokens, lhs, unary(tokens, lhs.pos + 1, lhs.vars)) {
            Ok(product) => mul_rest(tokens, product),
            Err(f) => Err(f),
        }
    } else {
        Ok(lhs)
    }
}

#[verifier::opaque]
pub open spec fn mul(tokens: Tokens, pos: int, vars: Names) -> Result<Step, Fault>
    decreases left(tokens, pos), 3nat,
{
    match after(pos, unary(tokens, pos, vars)) {
        Ok(first) => mul_rest(tokens, first),
        Err(f) => Err(f),
    }
}

/// The operators and operands that follow the left operand `lhs` of a sum.
#[verifier::opaque]
pub open spec fn add_rest(tokens: Tokens, lhs: Step) -> Result<Step, Fault>
    decreases left(tokens, lhs.pos), 4nat,
{
    if is_add_op(peek(tokens, lhs.pos)) {
        match combined(tokens, lhs, self::mul(tokens, lhs.pos + 1, lhs.vars)) {
            Ok(sum) => add_rest(tokens, sum),
            Err(f) => Err(f),
        }
    } else {
        Ok(lhs)
    }
}

#[verifier::opaque]
pub open spec fn add(tokens: Tokens, pos: int, vars: Names) -> Result<Step, Fault>
    decreases left(tokens, pos), 5nat,
{
    match after(pos, self::mul(tokens, pos, vars)) {
        Ok(first) => add_rest(tokens, first),
        Err(f) => Err(f),
    }
}

/// The operators and operands that follow the left operand `lhs` of a
/// comparison by order.
#[verifier::opaque]
pub open spec fn relational_rest(tokens: Tokens, lhs: Step) -> Result<Step, Fault>
    decreases left(tokens, lhs.pos), 6nat,
{
    if is_relational_op(peek(tokens, lhs.pos)) {
        match combined(tokens, lhs, self::add(tokens, lhs.pos + 1, lhs.vars)) {
            Ok(comparison) => relational_rest(tokens, comparison),
            Err(f) => Err(f),
        }
    } else {
        Ok(lhs)
    }
}

#[verifier::opaque]
pub open spec fn relational(tokens: Tokens, pos: int, vars: Names) -> Result<Step, Fault>
    decreases left(tokens, pos), 7nat,
{
    match after(pos, self::add(tokens, pos, vars)) {
        Ok(first) => relational_rest(tokens, first),
        Err(f) => Err(f),
    }
}

/// The operators and operands that follow the left operand `lhs` of a
/// comparison for equality.
#[verifier::opaque]
pub open spec fn equality_rest(tokens: Tokens, lhs: Step) -> Result<Step, Fault>
    decreases left(tokens, lhs.pos), 8nat,
{
    if is_equality_op(peek(tokens, lhs.pos)) {
        match combined(tokens, lhs, relational(tokens, lhs.pos + 1, lhs.vars)) {
            Ok(comparison) => equality_rest(tokens, comparison),
            Err(f) => Err(f),
        }
    } else {
        Ok(lhs)
    }
}

#[verifier::opaque]
pub open spec fn equality(tokens: Tokens, pos: int, vars: Names) -> Result<Step, Fault>
    decreases left(tokens, pos), 9nat,
{
    match after(pos, relational(tokens, pos, vars)) {
        Ok(first) => equality_rest(tokens, first),
        Err(f) => Err(f),
    }
}

#[verifier::opaque]
pub open spec fn assign(tokens: Tokens, pos: int, vars: Names) -> Result<Step, Fault>
    decreases left(tokens, pos), 10nat,
{
    match after(pos, equality(tokens, pos, vars)) {
        Ok(lhs) => if peek(tokens, lhs.pos) == Some(Lexeme::Assign) {
            match assign(tokens, lhs.pos + 1, lhs.vars) {
                Ok(rhs) => Ok(
                    Step {
                        node: assign_node(lhs.node, rhs.node, tokens[lhs.pos].loc),
                        pos: rhs.pos,
                        vars: rhs.vars,
                    },
                ),
                Err(f) => Err(f),
            }
        } else {
            Ok(lhs)
        },
        Err(f) => Err(f),
    }
}

#[verifier::opaque]
pub open spec fn expr(tokens: Tokens, pos: int, vars: Names) -> Result<Step, Fault>
    decreases left(tokens, pos), 11nat,
{
    assign(tokens, pos, vars)
}

/// An expression followed by `;`.
pub open spec fn terminated(tokens: Tokens, body: Result<Step, Fault>) -> Result<Step, Fault> {
    match body {
        Ok(e) => if peek(tokens, e.pos) == Some(Lexeme::Semi) {
            Ok(Step { node: e.node, pos: e.pos + 1, vars: e.vars })
        } else {
            fault(FaultKind::NoSemicolon, e.pos)
        },
        Err(f) => Err(f),
    }
}

#[verifier::opaque]
pub open spec fn stmt(tokens: Tokens, pos: int, vars: Names) -> Result<Step, Fault> {
    if peek(tokens, pos) == Some(Lexeme::Return) {
        match terminated(tokens, expr(tokens, pos + 1, vars)) {
            Ok(s) => Ok(
                Step { node: return_node(s.node, tokens[pos].loc), pos: s.pos, vars: s.vars },
            ),
            Err(f) => Err(f),
        }
    } else {
        terminated(tokens, expr(tokens, pos, vars))
    }
}

/// Whether the statements end at `pos`: the tokens have run out, or the end
/// marker stands there.
pub open spec fn at_end(tokens: Tokens, pos: int) -> bool {
    peek(tokens, pos) is None || peek(tokens, pos) == Some(Lexeme::End)
}

/// The statements from `pos` on.
#[verifier::opaque]
pub open spec fn program(tokens: Tokens, pos: int, vars: Names) -> Result<Unit, Fault>
    decreases left(tokens, pos),
{
    if at_end(tokens, pos) {
        Ok(Unit { nodes: Seq::empty(), vars, end: pos })
    } else {
        match after(pos, stmt(tokens, pos, vars)) {
            Ok(first) => match program(tokens, first.pos, first.vars) {
                Ok(rest) => Ok(
                    Unit { nodes: seq![first.node] + rest.nodes, vars: rest.vars, end: rest.end },
                ),
                Err(f) => Err(f),
            },
            Err(f) => Err(f),
        }
    }
}

/// The statements of a whole token sequence.
pub open spec fn parsed(tokens: Tokens) -> Result<Unit, Fault> {
    program(tokens, 0, Seq::empty())
}

/// Whether a later table still holds every variable of an earlier one at
/// its place.
pub open spec fn kept(before: Names, later: Names) -> bool {
    before.len() <= later.len() && forall|i: int|
        0 <= i < before.len() ==> #[trigger] later[i] == before[i]
}

/// A use of a name keeps the names met before in place, adds at most one
/// name, holds the name afterwards, and keeps the names distinct.
pub proof fn lemma_resolve(vars: Names, name: Seq<char>)
    ensures
        kept(vars, resolve(vars, name).0),
        resolve(vars, name).0.len() <= vars.len() + 1,
        resolve(vars, name).0.contains(name),
        vars.no_duplicates() ==> resolve(vars, name).0.no_duplicates(),
{
    if !vars.contains(name) {
        let after = vars.push(name);
        assert(after[vars.len() as int] == name);
        if vars.no_duplicates() {
            assert forall|i: int, j: int|
                0 <= i < after.len() && 0 <= j < after.len() && i != j implies after[i]
                != after[j] by {
                if i < vars.len() && j < vars.len() {
                } else if i < vars.len() {
                    assert(vars.contains(after[i]));
                } else {
                    assert(vars.contains(after[j]));
                }
            }
        }
    }
}

/// Slot stability: a name that has a slot keeps it in every later table,
/// and its use changes that table no more.
pub proof fn law_slot_is_stable(vars: Names, later: Names, name: Seq<char>)
    requires
        vars.contains(name),
        kept(vars, later),
        later.no_duplicates(),
    ensures
        resolve(later, name) == (later, resolve(vars, name).1),
{
    let i = vars.index_of(name);
    assert(later[i] == name);
    assert(later.contains(name));
    let j = later.index_of(name);
    assert(later[j] == name);
}

/// Whether every variable in the tree has the offset of one of the first
/// `count` slots.
pub open spec fn slotted(node: Node, count: int) -> bool
    decreases node,
{
    match node.value {
        NodeKind::Int(_) => true,
        NodeKind::LocalVariable(offset) => exists|i: int| 0 <= i < count && offset == slot(i),
        NodeKind::Assign { lhs, rhs } => slotted(*lhs, count) && slotted(*rhs, count),
        NodeKind::Return(expr) => slotted(*expr, count),
        NodeKind::BinOp { op, lhs, rhs } => slotted(*lhs, count) && slotted(*rhs, count),
    }
}

/// A tree whose variables lie in a table lies in every longer table.
pub proof fn lemma_slotted_longer(node: Node, count: int, longer: int)
    requires
        slotted(node, count),
        count <= longer,
    ensures
        slotted(node, longer),
    decreases node,
{
    match node.value {
        NodeKind::Int(_) => {},
        NodeKind::LocalVariable(offset) => {
            let i = choose|i: int| 0 <= i < count && offset == slot(i);
            assert(0 <= i < longer && offset == slot(i));
        },
        NodeKind::Assign { lhs, rhs } => {
            lemma_slotted_longer(*lhs, count, longer);
            lemma_slotted_longer(*rhs, count, longer);
        },
        NodeKind::Return(expr) => {
            lemma_slotted_longer(*expr, count, longer);
        },
        NodeKind::BinOp { op, lhs, rhs } => {
            lemma_slotted_longer(*lhs, count, longer);
            lemma_slotted_longer(*rhs, count, longer);
        },
    }
}

/// What holds of a rule that was applied at `pos` with the variables
/// `vars`: where it succeeds it has read at least one token, has kept the
/// variables met before, has met at most one new variable for each token
/// read, has kept the names distinct, and every variable of its tree has
/// the offset of a variable in the table; where it fails, the fault lies
/// at or behind `pos`.
pub open spec fn advances(tokens: Tokens, pos: int, vars: Names, r: Result<Step, Fault>) -> bool {
    match r {
        Ok(s) => {
            &&& pos < s.pos <= tokens.len()
            &&& kept(vars, s.vars)
            &&& s.vars.len() - vars.len() <= s.pos - pos
            &&& vars.no_duplicates() ==> s.vars.no_duplicates()
            &&& slotted(s.node, s.vars.len() as int)
        },
        Err(f) => pos <= f.at <= tokens.len(),
    }
}

/// What holds of the rest of a chain behind the left operand `lhs`: as
/// `advances`, but it may have read nothing.
pub open spec fn continues(tokens: Tokens, lhs: Step, r: Result<Step, Fault>) -> bool {
    match r {
        Ok(s) => {
            &&& lhs.pos <= s.pos <= tokens.len()
            &&& kept(lhs.vars, s.vars)
            &&& s.vars.len() - lhs.vars.len() <= s.pos - lhs.pos
            &&& lhs.vars.no_duplicates() ==> s.vars.no_duplicates()
            &&& slotted(s.node, s.vars.len() as int)
        },
        Err(f) => lhs.pos <= f.at <= tokens.len(),
    }
}

#[verifier::spinoff_prover]
pub proof fn lemma_primary(tokens: Tokens, pos: int, vars: Names)
    requires
        0 <= pos <= tokens.len(),
    ensures
        advances(tokens, pos, vars, primary(tokens, pos, vars)),
    decreases left(tokens, pos), 0nat,
{
    reveal(primary);
    reveal(expr);
    match peek(tokens, pos) {
        Some(Lexeme::LParen) => {
            lemma_expr(tokens, pos + 1, vars);
        },
        Some(Lexeme::Ident(name)) => {
            lemma_resolve(vars, name);
            if vars.contains(name) {
                let i = vars.index_of(name);
                assert(0 <= i < vars.len() && resolve(vars, name).1 == slot(i));
            } else {
                let i = vars.len() as int;
                assert(0 <= i < vars.len() + 1 && resolve(vars, name).1 == slot(i));
            }
        },
        _ => {},
    }
}

#[verifier::spinoff_prover]
pub proof fn lemma_unary(tokens: Tokens, pos: int, vars: Names)
    requires
        0 <= pos <= tokens.len(),
    ensures
        advances(tokens, pos, vars, unary(tokens, pos, vars)),
    decreases left(tokens, pos), 1nat,
{
    reveal(unary);
    reveal(primary);
    match peek(tokens, pos) {
        Some(Lexeme::Add) => {
            lemma_primary(tokens, pos + 1, vars);
        },
        Some(Lexeme::Sub) => {
            lemma_primary(tokens, pos + 1, vars);
            if let Ok(operand) = primary(tokens, pos + 1, vars) {
                assert(slotted(int_node(0, tokens[pos].loc), operand.vars.len() as int));
            }
        },
        _ => {
            lemma_primary(tokens, pos, vars);
        },
    }
}

#[verifier::spinoff_prover]
pub proof fn lemma_mul_rest(tokens: Tokens, lhs: Step)
    requires
        0 <= lhs.pos <= tokens.len(),
        slotted(lhs.node, lhs.vars.len() as int),
    ensures
        continues(tokens, lhs, mul_rest(tokens, lhs)),
    decreases left(tokens, lhs.pos), 2nat,
{
    reveal(mul_rest);
    reveal(unary);
    if is_mul_op(peek(tokens, lhs.pos)) {
        lemma_unary(tokens, lhs.pos + 1, lhs.vars);
        match combined(tokens, lhs, unary(tokens, lhs.pos + 1, lhs.vars)) {
            Ok(next) => {
                lemma_slotted_longer(lhs.node, lhs.vars.len() as int, next.vars.len() as int);
                lemma_mul_rest(tokens, next);
            },
            Err(_) => {},
        }
    }
}

#[verifier::spinoff_prover]
pub proof fn lemma_mul(tokens: Tokens, pos: int, vars: Names)
    requires
        0 <= pos <= tokens.len(),
    ensures
        advances(tokens, pos, vars, self::mul(tokens, pos, vars)),
    decreases left(tokens, pos), 3nat,
{
    reveal(mul);
    reveal(mul_rest);
    reveal(unary);
    lemma_unary(tokens, pos, vars);
    match unary(tokens, pos, vars) {
        Ok(first) => {
            lemma_mul_rest(tokens, first);
        },
        Err(_) => {},
    }
}

#[verifier::spinoff_prover]
pub proof fn lemma_add_rest(tokens: Tokens, lhs: Step)
    requires
        0 <= lhs.pos <= tokens.len(),
        slotted(lhs.node, lhs.vars.len() as int),
    ensures
        continues(tokens, lhs, add_rest(tokens, lhs)),
    decreases left(tokens, lhs.pos), 4nat,
{
    reveal(add_rest);
    reveal(mul);
    if is_add_op(peek(tokens, lhs.pos)) {
        lemma_mul(tokens, lhs.pos + 1, lhs.vars);
        match combined(tokens, lhs, self::mul(tokens, lhs.pos + 1, lhs.vars)) {
            Ok(next) => {
                lemma_slotted_longer(lhs.node, lhs.vars.len() as int, next.vars.len() as int);
                lemma_add_rest(tokens, next);
            },
            Err(_) => {},
        }
    }
}

#[verifier::spinoff_prover]
pub proof fn lemma_add(tokens: Tokens, pos: int, vars: Names)
    requires
        0 <= pos <= tokens.len(),
    ensures
        advances(tokens, pos, vars, self::add(tokens, pos, vars)),
    decreases left(tokens, pos), 5nat,
{
    reveal(add);
    reveal(add_rest);
    reveal(mul);
    lemma_mul(tokens, pos, vars);
    match self::mul(tokens, pos, vars) {
        Ok(first) => {
            lemma_add_rest(tokens, first);
        },
        Err(_) => {},
    }
}

#[verifier::spinoff_prover]
pub proof fn lemma_relational_rest(tokens: Tokens, lhs: Step)
    requires
        0 <= lhs.pos <= tokens.len(),
        slotted(lhs.node, lhs.vars.len() as int),
    ensures
        continues(tokens, lhs, relational_rest(tokens, lhs)),
    decreases left(tokens, lhs.pos), 6nat,
{
    reveal(relational_rest);
    reveal(add);
    if is_relational_op(peek(tokens, lhs.pos)) {
        lemma_add(tokens, lhs.pos + 1, lhs.vars);
        match combined(tokens, lhs, self::add(tokens, lhs.pos + 1, lhs.vars)) {
            Ok(next) => {
                lemma_slotted_longer(lhs.node, lhs.vars.len() as int, next.vars.len() as int);
                lemma_relational_rest(tokens, next);
            },
            Err(_) => {},
        }
    }
}

#[verifier::spinoff_prover]
pub proof fn lemma_relational(tokens: Tokens, pos: int, vars: Names)
    requires
        0 <= pos <= tokens.len(),
    ensures
        advances(tokens, pos, vars, relational(tokens, pos, vars)),
    decreases left(tokens, pos), 7nat,
{
    reveal(relational);
    reveal(relational_rest);
    reveal(add);
    lemma_add(tokens, pos, vars);
    match self::add(tokens, pos, vars) {
        Ok(first) => {
            lemma_relational_rest(tokens, first);
        },
        Err(_) => {},
    }
}

#[verifier::spinoff_prover]
pub proof fn lemma_equality_rest(tokens: Tokens, lhs: Step)
    requires
        0 <= lhs.pos <= tokens.len(),
        slotted(lhs.node, lhs.vars.len() as int),
    ensures
        continues(tokens, lhs, equality_rest(tokens, lhs)),
    decreases left(tokens, lhs.pos), 8nat,
{
    reveal(equality_rest);
    reveal(relational);
    if is_equality_op(peek(tokens, lhs.pos)) {
        lemma_relational(tokens, lhs.pos + 1, lhs.vars);
        match combined(tokens, lhs, relational(tokens, lhs.pos + 1, lhs.vars)) {
            Ok(next) => {
                lemma_slotted_longer(lhs.node, lhs.vars.len() as int, next.vars.len() as int);
                lemma_equality_rest(tokens, next);
            },
            Err(_) => {},
        }
    }
}

#[verifier::spinoff_prover]
pub proof fn lemma_equality(tokens: Tokens, pos: int, vars: Names)
    requires
        0 <= pos <= tokens.len(),
    ensures
        advances(tokens, pos, vars, equality(tokens, pos, vars)),
    decreases left(tokens, pos), 9nat,
{
    reveal(equality);
    reveal(equality_rest);
    reveal(relational);
    lemma_relational(tokens, pos, vars);
    match relational(tokens, pos, vars) {
        Ok(first) => {
            lemma_equality_rest(tokens, first);
        },
        Err(_) => {},
    }
}

#[verifier::spinoff_prover]
pub proof fn lemma_assign(tokens: Tokens, pos: int, vars: Names)
    requires
        0 <= pos <= tokens.len(),
    ensures
        advances(tokens, pos, vars, assign(tokens, pos, vars)),
    decreases left(tokens, pos), 10nat,
{
    reveal(assign);
    reveal(equality);
    lemma_equality(tokens, pos, vars);
    match equality(tokens, pos, vars) {
        Ok(lhs) => {
            if peek(tokens, lhs.pos) == Some(Lexeme::Assign) {
                lemma_assign(tokens, lhs.pos + 1, lhs.vars);
                if let Ok(rhs) = assign(tokens, lhs.pos + 1, lhs.vars) {
                    lemma_slotted_longer(lhs.node, lhs.vars.len() as int, rhs.vars.len() as int);
                }
            }
        },
        Err(_) => {},
    }
}

#[verifier::spinoff_prover]
pub proof fn lemma_expr(tokens: Tokens, pos: int, vars: Names)
    requires
        0 <= pos <= tokens.len(),
    ensures
        advances(tokens, pos, vars, expr(tokens, pos, vars)),
    decreases left(tokens, pos), 11nat,
{
    reveal(expr);
    reveal(assign);
    lemma_assign(tokens, pos, vars);
}

#[verifier::spinoff_prover]
pub proof fn lemma_stmt(tokens: Tokens, pos: int, vars: Names)
    requires
        0 <= pos <= tokens.len(),
    ensures
        advances(tokens, pos, vars, stmt(tokens, pos, vars)),
{
    reveal(stmt);
    if peek(tokens, pos) == Some(Lexeme::Return) {
        lemma_expr(tokens, pos + 1, vars);
    } else {
        lemma_expr(tokens, pos, vars);
    }
}

/// Every rule reads at least one token, so the test in `after` never
/// fails.
#[verifier::spinoff_prover]
pub proof fn lemma_progress(tokens: Tokens, pos: int, vars: Names)
    requires
        0 <= pos <= tokens.len(),
    ensures
        after(pos, unary(tokens, pos, vars)) == unary(tokens, pos, vars),
        after(pos, self::mul(tokens, pos, vars)) == self::mul(tokens, pos, vars),
        after(pos, self::add(tokens, pos, vars)) == self::add(tokens, pos, vars),
        after(pos, relational(tokens, pos, vars)) == relational(tokens, pos, vars),
        after(pos, equality(tokens, pos, vars)) == equality(tokens, pos, vars),
        after(pos, stmt(tokens, pos, vars)) == stmt(tokens, pos, vars),
{
    lemma_unary(tokens, pos, vars);
    lemma_mul(tokens, pos, vars);
    lemma_add(tokens, pos, vars);
    lemma_relational(tokens, pos, vars);
    lemma_equality(tokens, pos, vars);
    lemma_stmt(tokens, pos, vars);
}

/// Slot stability over a program: the variables that a program is read
/// with keep their places, the names of its variables are distinct, no
/// more variables are met than tokens read, and every variable in a
/// statement has the offset of a variable in the table.
#[verifier::spinoff_prover]
pub proof fn law_program_keeps_slots(tokens: Tokens, pos: int, vars: Names)
    requires
        0 <= pos <= tokens.len(),
        vars.no_duplicates(),
    ensures
        match program(tokens, pos, vars) {
            Ok(unit) => {
                &&& pos <= unit.end <= tokens.len()
                &&& at_end(tokens, unit.end)
                &&& kept(vars, unit.vars)
                &&& unit.vars.no_duplicates()
                &&& unit.vars.len() - vars.len() <= unit.end - pos
                &&& forall|i: int|
                    0 <= i < unit.nodes.len() ==> slotted(
                        #[trigger] unit.nodes[i],
                        unit.vars.len() as int,
                    )
            },
            Err(f) => pos <= f.at <= tokens.len(),
        },
    decreases left(tokens, pos),
{
    reveal(program);
    if !at_end(tokens, pos) {
        lemma_stmt(tokens, pos, vars);
        match stmt(tokens, pos, vars) {
            Ok(first) => {
                law_program_keeps_slots(tokens, first.pos, first.vars);
                if let Ok(rest) = program(tokens, first.pos, first.vars) {
                    lemma_slotted_longer(
                        first.node,
                        first.vars.len() as int,
                        rest.vars.len() as int,
                    );
                    let nodes = seq![first.node] + rest.nodes;
                    assert forall|i: int| 0 <= i < nodes.len() implies slotted(
                        #[trigger] nodes[i],
                        rest.vars.len() as int,
                    ) by {
                        if i > 0 {
                            assert(nodes[i] == rest.nodes[i - 1]);
                        }
                    }
                }
            },
            Err(_) => {},
        }
    }
}

} // verus!
