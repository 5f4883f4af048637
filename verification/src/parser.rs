//! The parser over located tokens: recursive descent, one function for each
//! rule of the grammar.

use crate::assembly::Expr;
use crate::grammar;
use crate::grammar::{Fault, FaultKind, Names, Step, Unit, MAX_VARIABLES};
use crate::lexeme::Lexeme;
use crate::lexer::{tokens_view, Annot, Loc, Token, TokenKind};
use vstd::prelude::*;

verus! {

#[derive(Debug, PartialEq)]
pub enum NodeKind {
    Int(i64),
    /// A variable, by the offset of its slot below the frame base.
    LocalVariable(i32),
    Assign { lhs: Box<Node>, rhs: Box<Node> },
    Return(Box<Node>),
    BinOp { op: BinOp, lhs: Box<Node>, rhs: Box<Node> },
}

#[derive(Debug, PartialEq, Eq, Structural, Clone, Copy)]
pub enum UniOpKind {
    Minus,
}

#[derive(Debug, PartialEq, Eq, Structural, Clone, Copy)]
pub enum BinOpKind {
    Add,
    Sub,
    Mul,
    Quo,
    EQ,
    NEQ,
    LSS,
    LEQ,
}

pub type Node = Annot<NodeKind>;

pub type UniOp = Annot<UniOpKind>;

pub type BinOp = Annot<BinOpKind>;

impl Annot<NodeKind> {
    /// The expression that the tree stands for, without the spans.
    pub open spec fn erase(self) -> Expr
        decreases self,
    {
        match self.value {
            NodeKind::Int(value) => Expr::Int(value),
            NodeKind::LocalVariable(offset) => Expr::Var(offset),
            NodeKind::Assign { lhs, rhs } => Expr::Assign(
                Box::new(lhs.erase()),
                Box::new(rhs.erase()),
            ),
            NodeKind::Return(expr) => Expr::Return(Box::new(expr.erase())),
            NodeKind::BinOp { op, lhs, rhs } => Expr::Binary(
                op.value,
                Box::new(lhs.erase()),
                Box::new(rhs.erase()),
            ),
        }
    }

    pub fn new_int(n: i64, loc: Loc) -> (node: Self)
        ensures
            node == grammar::int_node(n, loc),
    {
        Self::new(NodeKind::Int(n), loc)
    }

    pub fn new_lvar(offset: i32, loc: Loc) -> (node: Self)
        ensures
            node == grammar::var_node(offset, loc),
    {
        Self::new(NodeKind::LocalVariable(offset), loc)
    }

    pub fn new_return(expr: Node, loc: Loc) -> (node: Self)
        ensures
            node == grammar::return_node(expr, loc),
    {
        Self::new(NodeKind::Return(Box::new(expr)), loc)
    }

    pub fn new_assign(lhs: Node, rhs: Node, loc: Loc) -> (node: Self)
        ensures
            node == grammar::assign_node(lhs, rhs, loc),
    {
        Self::new(NodeKind::Assign { lhs: Box::new(lhs), rhs: Box::new(rhs) }, loc)
    }

    /// The tree of a unary operation. The language has no unary node: minus
    /// is zero minus the operand.
    pub fn new_uniop(op: UniOp, e: Node, loc: Loc) -> (node: Self)
        ensures
            node == grammar::binary_node(BinOpKind::Sub, grammar::int_node(0, op.loc), e, loc),
    {
        match op.value {
            UniOpKind::Minus => Self::new(
                NodeKind::BinOp {
                    op: BinOp::new(BinOpKind::Sub, loc),
                    lhs: Box::new(Self::new_int(0, op.loc)),
                    rhs: Box::new(e),
                },
                loc,
            ),
        }
    }

    pub fn new_binop(op: BinOp, lhs: Node, rhs: Node, loc: Loc) -> (node: Self)
        ensures
            node == (Annot {
                value: NodeKind::BinOp { op, lhs: Box::new(lhs), rhs: Box::new(rhs) },
                loc,
            }),
    {
        Self::new(NodeKind::BinOp { op, lhs: Box::new(lhs), rhs: Box::new(rhs) }, loc)
    }
}

impl Annot<UniOpKind> {
    pub fn new_minus(loc: Loc) -> (op: Self)
        ensures
            op == (Annot { value: UniOpKind::Minus, loc }),
    {
        Self::new(UniOpKind::Minus, loc)
    }
}

impl Annot<BinOpKind> {
    pub fn new_add(loc: Loc) -> (op: Self)
        ensures
            op == (Annot { value: BinOpKind::Add, loc }),
    {
        Self::new(BinOpKind::Add, loc)
    }

    pub fn new_sub(loc: Loc) -> (op: Self)
        ensures
            op == (Annot { value: BinOpKind::Sub, loc }),
    {
        Self::new(BinOpKind::Sub, loc)
    }

    pub fn new_mul(loc: Loc) -> (op: Self)
        ensures
            op == (Annot { value: BinOpKind::Mul, loc }),
    {
        Self::new(BinOpKind::Mul, loc)
    }

    pub fn new_quo(loc: Loc) -> (op: Self)
        ensures
            op == (Annot { value: BinOpKind::Quo, loc }),
    {
        Self::new(BinOpKind::Quo, loc)
    }

    pub fn new_eq(loc: Loc) -> (op: Self)
        ensures
            op == (Annot { value: BinOpKind::EQ, loc }),
    {
        Self::new(BinOpKind::EQ, loc)
    }

    pub fn new_neq(loc: Loc) -> (op: Self)
        ensures
            op == (Annot { value: BinOpKind::NEQ, loc }),
    {
        Self::new(BinOpKind::NEQ, loc)
    }

    pub fn new_lss(loc: Loc) -> (op: Self)
        ensures
            op == (Annot { value: BinOpKind::LSS, loc }),
    {
        Self::new(BinOpKind::LSS, loc)
    }

    pub fn new_leq(loc: Loc) -> (op: Self)
        ensures
            op == (Annot { value: BinOpKind::LEQ, loc }),
    {
        Self::new(BinOpKind::LEQ, loc)
    }
}

/// The offset of the slot that the next new variable takes where `count`
/// variables have theirs, if a slot is left.
pub fn slot_after(count: usize) -> (r: Option<i32>)
    ensures
        r == if count < MAX_VARIABLES {
            Some(grammar::slot(count as int))
        } else {
            None
        },
{
    if count < MAX_VARIABLES {
        Some(((count + 1) * 8) as i32)
    } else {
        None
    }
}

#[derive(Debug, PartialEq)]
pub struct LocalVariable {
    pub name: String,
}

impl LocalVariable {
    pub fn new(name: &str) -> (var: Self)
        ensures
            var.name@ == name@,
    {
        LocalVariable { name: name.to_owned() }
    }
}

/// The variables of a program in the order of their first use. The variable
/// at index `i` has the offset `8 * (i + 1)`.
#[derive(Debug)]
pub struct LocalVariables(pub Vec<LocalVariable>);

impl View for LocalVariables {
    type V = Names;

    open spec fn view(&self) -> Names {
        Seq::new(self.0@.len(), |i: int| self.0@[i].name@)
    }
}

impl LocalVariables {
    /// No name stands twice, and every offset fits.
    pub open spec fn wf(&self) -> bool {
        self@.no_duplicates() && self@.len() <= MAX_VARIABLES
    }

    pub fn new() -> (vars: Self)
        ensures
            vars@ == Seq::<Seq<char>>::empty(),
            vars.wf(),
    {
        let vars = LocalVariables(Vec::<LocalVariable>::new());
        proof {
            assert(vars@ =~= Seq::<Seq<char>>::empty());
        }
        vars
    }

    /// Adds a variable and answers its offset.
    pub fn push(&mut self, var: LocalVariable) -> (offset: i32)
        requires
            old(self)@.len() < MAX_VARIABLES,
        ensures
            final(self)@ == old(self)@.push(var.name@),
            offset == grammar::slot(old(self)@.len() as int),
    {
        self.0.push(var);
        proof {
            assert(self@ =~= old(self)@.push(var.name@));
        }
        (self.0.len() * 8) as i32
    }

    /// The offset of the variable of that name, if there is one.
    pub fn find_and_get_offset(&mut self, s: &str) -> (r: Option<i32>)
        requires
            old(self).wf(),
        ensures
            *final(self) == *old(self),
            r == if old(self)@.contains(s@) {
                Some(grammar::slot(old(self)@.index_of(s@)))
            } else {
                None
            },
    {
        let needle: String = s.to_owned();
        let mut i: usize = 0;
        while i < self.0.len()
            invariant
                *self == *old(self),
                self.wf(),
                needle@ == s@,
                i <= self.0@.len(),
                forall|k: int| 0 <= k < i ==> self@[k] != s@,
            decreases self.0@.len() - i,
        {
            if self.0[i].name == needle {
                proof {
                    assert(self@[i as int] == s@);
                    assert(self@.contains(s@));
                    let j = self@.index_of(s@);
                    assert(self@[j] == s@);
                }
                return Some(((i + 1) * 8) as i32);
            }
            i += 1;
        }
        None
    }
}

/// The variable node for a use of the name `s`: a name met before keeps its
/// slot, a new name takes the next one.
pub fn find_or_create_local_var(s: &str, loc: Loc, lvars: &mut LocalVariables) -> (node: Node)
    requires
        old(lvars).wf(),
        grammar::room(old(lvars)@, s@),
    ensures
        node == grammar::var_node(grammar::resolve(old(lvars)@, s@).1, loc),
        final(lvars)@ == grammar::resolve(old(lvars)@, s@).0,
        final(lvars).wf(),
        grammar::kept(old(lvars)@, final(lvars)@),
        final(lvars)@.len() <= old(lvars)@.len() + 1,
{
    proof {
        grammar::lemma_resolve(old(lvars)@, s@);
    }
    match lvars.find_and_get_offset(s) {
        Some(offset) => Node::new_lvar(offset, loc),
        None => {
            let offset = lvars.push(LocalVariable::new(s));
            Node::new_lvar(offset, loc)
        },
    }
}

#[derive(Debug, PartialEq)]
pub enum ParseError {
    /// An expression has to start at this token, and it starts none.
    Unexpected(Token),
    /// A `)` has to stand in place of this token.
    NotClosingParen(Token),
    /// A `;` is missing, or the tokens ran out.
    Eof,
    /// The name at this token is new, and no slot is left for it.
    TooManyVariables(Token),
}

/// The error that a fault of the grammar is answered with.
pub open spec fn error_of(tokens: Seq<Token>, fault: Fault) -> ParseError {
    if 0 <= fault.at < tokens.len() {
        match fault.kind {
            FaultKind::Unexpected => ParseError::Unexpected(tokens[fault.at]),
            FaultKind::NotClosingParen => ParseError::NotClosingParen(tokens[fault.at]),
            FaultKind::NoSemicolon => ParseError::Eof,
            FaultKind::NoSlot => ParseError::TooManyVariables(tokens[fault.at]),
        }
    } else {
        ParseError::Eof
    }
}

/// A token equal to the given one.
pub fn copy_token(token: &Token) -> (copy: Token)
    ensures
        copy == *token,
{
    let value = match &token.value {
        TokenKind::Ident(name) => TokenKind::Ident(name.clone()),
        TokenKind::Int(n) => TokenKind::Int(*n),
        TokenKind::Return => TokenKind::Return,
        TokenKind::Eof => TokenKind::Eof,
        TokenKind::Add => TokenKind::Add,
        TokenKind::Sub => TokenKind::Sub,
        TokenKind::Mul => TokenKind::Mul,
        TokenKind::Quo => TokenKind::Quo,
        TokenKind::LParen => TokenKind::LParen,
        TokenKind::RParen => TokenKind::RParen,
        TokenKind::ASSIGN => TokenKind::ASSIGN,
        TokenKind::EQ => TokenKind::EQ,
        TokenKind::NEQ => TokenKind::NEQ,
        TokenKind::LEQ => TokenKind::LEQ,
        TokenKind::GEQ => TokenKind::GEQ,
        TokenKind::LSS => TokenKind::LSS,
        TokenKind::GRT => TokenKind::GRT,
    };
    Token::new(value, token.loc)
}

/// What a rule asks for: the position lies in the token sequence, and the
/// table is in order.
pub open spec fn ready(tokens: Seq<Token>, pos: usize, lvars: LocalVariables) -> bool {
    pos <= tokens.len() && lvars.wf()
}

/// What a rule owes: the tree, the position and the variables that the
/// grammar gives, or the error for the grammar's fault.
pub open spec fn step_done(
    tokens: Seq<Token>,
    model: Result<Step, Fault>,
    r: Result<(Node, usize), ParseError>,
    vars: Names,
) -> bool {
    match model {
        Ok(step) => match r {
            Ok((node, pos)) => node == step.node && pos == step.pos && vars == step.vars,
            Err(_) => false,
        },
        Err(fault) => r == Err::<(Node, usize), ParseError>(error_of(tokens, fault)),
    }
}

/// A rule leaves the table in order and the variables met before in place,
/// whether it succeeds or not; a rule that succeeds has read at least one
/// token.
pub open spec fn moved(
    tokens: Seq<Token>,
    pos: usize,
    r: Result<(Node, usize), ParseError>,
    before: LocalVariables,
    lvars: LocalVariables,
) -> bool {
    &&& lvars.wf()
    &&& grammar::kept(before@, lvars@)
    &&& match r {
        Ok((_, next)) => pos < next <= tokens.len(),
        Err(_) => true,
    }
}

/// `"(" expr ")"`, where `(` stands at `pos`.
#[verifier::spinoff_prover]
pub fn consume_parens(tokens: &Vec<Token>, pos: usize, lvars: &mut LocalVariables) -> (r: Result<
    (Node, usize),
    ParseError,
>)
    requires
        ready(tokens@, pos, *old(lvars)),
        pos < tokens@.len(),
        tokens@[pos as int].value == TokenKind::LParen,
    ensures
        step_done(
            tokens@,
            grammar::primary(tokens_view(tokens@), pos as int, old(lvars)@),
            r,
            final(lvars)@,
        ),
        moved(tokens@, pos, r, *old(lvars), *final(lvars)),
    decreases tokens@.len() - pos, 0nat,
{
    proof {
        reveal(grammar::expr);
        reveal(grammar::primary);
    }
    let end: usize = tokens.len();
    let (node, next) = match expr(tokens, pos + 1, lvars) {
        Ok(inner) => inner,
        Err(error) => {
            return Err(error);
        },
    };
    if next < end {
        match &tokens[next].value {
            TokenKind::RParen => Ok((node, next + 1)),
            _ => Err(ParseError::NotClosingParen(copy_token(&tokens[next]))),
        }
    } else {
        Err(ParseError::Eof)
    }
}

#[verifier::spinoff_prover]
pub fn primary(tokens: &Vec<Token>, pos: usize, lvars: &mut LocalVariables) -> (r: Result<
    (Node, usize),
    ParseError,
>)
    requires
        ready(tokens@, pos, *old(lvars)),
    ensures
        step_done(
            tokens@,
            grammar::primary(tokens_view(tokens@), pos as int, old(lvars)@),
            r,
            final(lvars)@,
        ),
        moved(tokens@, pos, r, *old(lvars), *final(lvars)),
    decreases tokens@.len() - pos, 1nat,
{
    proof {
        reveal(grammar::primary);
    }
    if pos >= tokens.len() {
        return Err(ParseError::Eof);
    }
    match &tokens[pos].value {
        TokenKind::LParen => consume_parens(tokens, pos, lvars),
        TokenKind::Ident(s) => {
            if slot_after(lvars.0.len()).is_none() && lvars.find_and_get_offset(
                s.as_str(),
            ).is_none() {
                return Err(ParseError::TooManyVariables(copy_token(&tokens[pos])));
            }
            let node = find_or_create_local_var(s.as_str(), tokens[pos].loc, lvars);
            Ok((node, pos + 1))
        },
        TokenKind::Int(n) => Ok((Node::new_int(*n, tokens[pos].loc), pos + 1)),
        _ => Err(ParseError::Unexpected(copy_token(&tokens[pos]))),
    }
}

#[verifier::spinoff_prover]
pub fn unary(tokens: &Vec<Token>, pos: usize, lvars: &mut LocalVariables) -> (r: Result<
    (Node, usize),
    ParseError,
>)
    requires
        ready(tokens@, pos, *old(lvars)),
    ensures
        step_done(
            tokens@,
            grammar::unary(tokens_view(tokens@), pos as int, old(lvars)@),
            r,
            final(lvars)@,
        ),
        moved(tokens@, pos, r, *old(lvars), *final(lvars)),
    decreases tokens@.len() - pos, 2nat,
{
    proof {
        reveal(grammar::primary);
        reveal(grammar::unary);
    }
    if pos >= tokens.len() {
        return primary(tokens, pos, lvars);
    }
    match &tokens[pos].value {
        TokenKind::Add => primary(tokens, pos + 1, lvars),
        TokenKind::Sub => {
            let loc = tokens[pos].loc;
            match primary(tokens, pos + 1, lvars) {
                Ok((operand, next)) => Ok(
                    (Node::new_uniop(UniOp::new_minus(loc), operand, loc), next),
                ),
                Err(error) => Err(error),
            }
        },
        _ => primary(tokens, pos, lvars),
    }
}

#[verifier::spinoff_prover]
pub fn mul(tokens: &Vec<Token>, pos: usize, lvars: &mut LocalVariables) -> (r: Result<
    (Node, usize),
    ParseError,
>)
    requires
        ready(tokens@, pos, *old(lvars)),
    ensures
        step_done(
            tokens@,
            grammar::mul(tokens_view(tokens@), pos as int, old(lvars)@),
            r,
            final(lvars)@,
        ),
        moved(tokens@, pos, r, *old(lvars), *final(lvars)),
    decreases tokens@.len() - pos, 3nat,
{
    proof {
        reveal(grammar::unary);
        reveal(grammar::mul_rest);
        reveal(grammar::mul);
    }
    let ghost model = tokens_view(tokens@);
    let (mut node, mut at) = match unary(tokens, pos, lvars) {
        Ok(first) => first,
        Err(error) => {
            return Err(error);
        },
    };
    loop
        invariant
            pos < at <= tokens@.len(),
            model == tokens_view(tokens@),
            lvars.wf(),
            grammar::kept(old(lvars)@, lvars@),
            grammar::mul_rest(model, Step { node, pos: at as int, vars: lvars@ }) == grammar::mul(
                model,
                pos as int,
                old(lvars)@,
            ),
        decreases tokens@.len() - at,
    {
        proof {
            reveal(grammar::unary);
            reveal(grammar::mul);
            reveal(grammar::mul_rest);
        }
        if at >= tokens.len() {
            return Ok((node, at));
        }
        let loc = tokens[at].loc;
        let op = match &tokens[at].value {
            TokenKind::Mul => BinOp::new_mul(loc),
            TokenKind::Quo => BinOp::new_quo(loc),
            _ => {
                return Ok((node, at));
            },
        };
        match unary(tokens, at + 1, lvars) {
            Ok((rhs, next)) => {
                node = Node::new_binop(op, node, rhs, loc);
                at = next;
            },
            Err(error) => {
                return Err(error);
            },
        }
    }
}

#[verifier::spinoff_prover]
pub fn add(tokens: &Vec<Token>, pos: usize, lvars: &mut LocalVariables) -> (r: Result<
    (Node, usize),
    ParseError,
>)
    requires
        ready(tokens@, pos, *old(lvars)),
    ensures
        step_done(
            tokens@,
            grammar::add(tokens_view(tokens@), pos as int, old(lvars)@),
            r,
            final(lvars)@,
        ),
        moved(tokens@, pos, r, *old(lvars), *final(lvars)),
    decreases tokens@.len() - pos, 5nat,
{
    proof {
        reveal(grammar::mul);
        reveal(grammar::add_rest);
        reveal(grammar::add);
    }
    let ghost model = tokens_view(tokens@);
    let (mut node, mut at) = match self::mul(tokens, pos, lvars) {
        Ok(first) => first,
        Err(error) => {
            return Err(error);
        },
    };
    loop
        invariant
            pos < at <= tokens@.len(),
            model == tokens_view(tokens@),
            lvars.wf(),
            grammar::kept(old(lvars)@, lvars@),
            grammar::add_rest(model, Step { node, pos: at as int, vars: lvars@ }) == grammar::add(
                model,
                pos as int,
                old(lvars)@,
            ),
        decreases tokens@.len() - at,
    {
        proof {
            reveal(grammar::mul);
            reveal(grammar::add);
            reveal(grammar::add_rest);
        }
        if at >= tokens.len() {
            return Ok((node, at));
        }
        let loc = tokens[at].loc;
        let op = match &tokens[at].value {
            TokenKind::Add => BinOp::new_add(loc),
            TokenKind::Sub => BinOp::new_sub(loc),
            _ => {
                return Ok((node, at));
            },
        };
        match self::mul(tokens, at + 1, lvars) {
            Ok((rhs, next)) => {
                node = Node::new_binop(op, node, rhs, loc);
                at = next;
            },
            Err(error) => {
                return Err(error);
            },
        }
    }
}

#[verifier::spinoff_prover]
pub fn relational(tokens: &Vec<Token>, pos: usize, lvars: &mut LocalVariables) -> (r: Result<
    (Node, usize),
    ParseError,
>)
    requires
        ready(tokens@, pos, *old(lvars)),
    ensures
        step_done(
            tokens@,
            grammar::relational(tokens_view(tokens@), pos as int, old(lvars)@),
            r,
            final(lvars)@,
        ),
        moved(tokens@, pos, r, *old(lvars), *final(lvars)),
    decreases tokens@.len() - pos, 7nat,
{
    proof {
        reveal(grammar::add);
        reveal(grammar::relational_rest);
        reveal(grammar::relational);
    }
    let ghost model = tokens_view(tokens@);
    let (mut node, mut at) = match self::add(tokens, pos, lvars) {
        Ok(first) => first,
        Err(error) => {
            return Err(error);
        },
    };
    loop
        invariant
            pos < at <= tokens@.len(),
            model == tokens_view(tokens@),
            lvars.wf(),
            grammar::kept(old(lvars)@, lvars@),
            grammar::relational_rest(model, Step { node, pos: at as int, vars: lvars@ })
                == grammar::relational(model, pos as int, old(lvars)@),
        decreases tokens@.len() - at,
    {
        proof {
            reveal(grammar::add);
            reveal(grammar::relational);
            reveal(grammar::relational_rest);
        }
        if at >= tokens.len() {
            return Ok((node, at));
        }
        let loc = tokens[at].loc;
        let (op, swap) = match &tokens[at].value {
            TokenKind::LEQ => (BinOp::new_leq(loc), false),
            TokenKind::GEQ => (BinOp::new_leq(loc), true),
            TokenKind::LSS => (BinOp::new_lss(loc), false),
            TokenKind::GRT => (BinOp::new_lss(loc), true),
            _ => {
                return Ok((node, at));
            },
        };
        match self::add(tokens, at + 1, lvars) {
            Ok((rhs, next)) => {
                node = if swap {
                    Node::new_binop(op, rhs, node, loc)
                } else {
                    Node::new_binop(op, node, rhs, loc)
                };
                at = next;
            },
            Err(error) => {
                return Err(error);
            },
        }
    }
}

#[verifier::spinoff_prover]
pub fn equality(tokens: &Vec<Token>, pos: usize, lvars: &mut LocalVariables) -> (r: Result<
    (Node, usize),
    ParseError,
>)
    requires
        ready(tokens@, pos, *old(lvars)),
    ensures
        step_done(
            tokens@,
            grammar::equality(tokens_view(tokens@), pos as int, old(lvars)@),
            r,
            final(lvars)@,
        ),
        moved(tokens@, pos, r, *old(lvars), *final(lvars)),
    decreases tokens@.len() - pos, 9nat,
{
    proof {
        reveal(grammar::relational);
        reveal(grammar::equality_rest);
        reveal(grammar::equality);
    }
    let ghost model = tokens_view(tokens@);
    let (mut node, mut at) = match relational(tokens, pos, lvars) {
        Ok(first) => first,
        Err(error) => {
            return Err(error);
        },
    };
    loop
        invariant
            pos < at <= tokens@.len(),
            model == tokens_view(tokens@),
            lvars.wf(),
            grammar::kept(old(lvars)@, lvars@),
            grammar::equality_rest(model, Step { node, pos: at as int, vars: lvars@ })
                == grammar::equality(model, pos as int, old(lvars)@),
        decreases tokens@.len() - at,
    {
        proof {
            reveal(grammar::relational);
            reveal(grammar::equality);
            reveal(grammar::equality_rest);
        }
        if at >= tokens.len() {
            return Ok((node, at));
        }
        let loc = tokens[at].loc;
        let op = match &tokens[at].value {
            TokenKind::EQ => BinOp::new_eq(loc),
            TokenKind::NEQ => BinOp::new_neq(loc),
            _ => {
                return Ok((node, at));
            },
        };
        match relational(tokens, at + 1, lvars) {
            Ok((rhs, next)) => {
                node = Node::new_binop(op, node, rhs, loc);
                at = next;
            },
            Err(error) => {
                return Err(error);
            },
        }
    }
}

#[verifier::spinoff_prover]
pub fn assign(tokens: &Vec<Token>, pos: usize, lvars: &mut LocalVariables) -> (r: Result<
    (Node, usize),
    ParseError,
>)
    requires
        ready(tokens@, pos, *old(lvars)),
    ensures
        step_done(
            tokens@,
            grammar::assign(tokens_view(tokens@), pos as int, old(lvars)@),
            r,
            final(lvars)@,
        ),
        moved(tokens@, pos, r, *old(lvars), *final(lvars)),
    decreases tokens@.len() - pos, 10nat,
{
    proof {
        reveal(grammar::equality);
        reveal(grammar::assign);
    }
    let (node, at) = match equality(tokens, pos, lvars) {
        Ok(lhs) => lhs,
        Err(error) => {
            return Err(error);
        },
    };
    if at >= tokens.len() {
        return Ok((node, at));
    }
    match &tokens[at].value {
        TokenKind::ASSIGN => {
            let loc = tokens[at].loc;
            match assign(tokens, at + 1, lvars) {
                Ok((rhs, next)) => Ok((Node::new_assign(node, rhs, loc), next)),
                Err(error) => Err(error),
            }
        },
        _ => Ok((node, at)),
    }
}

#[verifier::spinoff_prover]
pub fn expr(tokens: &Vec<Token>, pos: usize, lvars: &mut LocalVariables) -> (r: Result<
    (Node, usize),
    ParseError,
>)
    requires
        ready(tokens@, pos, *old(lvars)),
    ensures
        step_done(
            tokens@,
            grammar::expr(tokens_view(tokens@), pos as int, old(lvars)@),
            r,
            final(lvars)@,
        ),
        moved(tokens@, pos, r, *old(lvars), *final(lvars)),
    decreases tokens@.len() - pos, 11nat,
{
    proof {
        reveal(grammar::assign);
        reveal(grammar::expr);
    }
    assign(tokens, pos, lvars)
}

/// The `;` that closes a statement whose expression ends at `at`.
pub fn semicolon(tokens: &Vec<Token>, at: usize) -> (r: Result<usize, ParseError>)
    requires
        at <= tokens@.len(),
    ensures
        r == if grammar::peek(tokens_view(tokens@), at as int) == Some(Lexeme::Semi) {
            Ok::<usize, ParseError>((at + 1) as usize)
        } else {
            Err::<usize, ParseError>(ParseError::Eof)
        },
{
    if at < tokens.len() {
        match &tokens[at].value {
            TokenKind::Eof => Ok(at + 1),
            _ => Err(ParseError::Eof),
        }
    } else {
        Err(ParseError::Eof)
    }
}

#[verifier::spinoff_prover]
pub fn stmt(tokens: &Vec<Token>, pos: usize, lvars: &mut LocalVariables) -> (r: Result<
    (Node, usize),
    ParseError,
>)
    requires
        ready(tokens@, pos, *old(lvars)),
    ensures
        step_done(
            tokens@,
            grammar::stmt(tokens_view(tokens@), pos as int, old(lvars)@),
            r,
            final(lvars)@,
        ),
        moved(tokens@, pos, r, *old(lvars), *final(lvars)),
{
    proof {
        reveal(grammar::stmt);
    }
    let is_return = pos < tokens.len() && match &tokens[pos].value {
        TokenKind::Return => true,
        _ => false,
    };
    if is_return {
        let loc = tokens[pos].loc;
        let (node, at) = match expr(tokens, pos + 1, lvars) {
            Ok(body) => body,
            Err(error) => {
                return Err(error);
            },
        };
        match semicolon(tokens, at) {
            Ok(next) => Ok((Node::new_return(node, loc), next)),
            Err(error) => Err(error),
        }
    } else {
        let (node, at) = match expr(tokens, pos, lvars) {
            Ok(body) => body,
            Err(error) => {
                return Err(error);
            },
        };
        match semicolon(tokens, at) {
            Ok(next) => Ok((node, next)),
            Err(error) => Err(error),
        }
    }
}

/// Puts statements already read in front of the outcome for the rest.
pub open spec fn prepend(nodes: Seq<Node>, rest: Result<Unit, Fault>) -> Result<Unit, Fault> {
    match rest {
        Ok(unit) => Ok(Unit { nodes: nodes + unit.nodes, vars: unit.vars, end: unit.end }),
        Err(fault) => Err(fault),
    }
}

/// What `parse` owes for a token sequence: the statements that the grammar
/// gives, or the error for the grammar's fault.
pub open spec fn parse_done(tokens: Seq<Token>, r: Result<Vec<Node>, ParseError>) -> bool {
    match grammar::parsed(tokens_view(tokens)) {
        Ok(unit) => match r {
            Ok(code) => code@ == unit.nodes,
            Err(_) => false,
        },
        Err(fault) => r == Err::<Vec<Node>, ParseError>(error_of(tokens, fault)),
    }
}

/// Reads the statements of a program. The first use of a name gives it the
/// next slot of eight bytes; later uses find the same slot. A new name for
/// which no slot is left is answered as an error.
pub fn parse(tokens: Vec<Token>) -> (r: Result<Vec<Node>, ParseError>)
    ensures
        parse_done(tokens@, r),
{
    let ghost model = tokens_view(tokens@);
    let mut lvars = LocalVariables::new();
    let mut code = Vec::<Node>::new();
    let mut pos: usize = 0;
    proof {
        if let Ok(unit) = grammar::parsed(model) {
            assert(code@ + unit.nodes =~= unit.nodes);
        }
    }
    while pos < tokens.len()
        invariant
            ready(tokens@, pos, lvars),
            model == tokens_view(tokens@),
            prepend(code@, grammar::program(model, pos as int, lvars@)) == grammar::parsed(model),
        decreases tokens@.len() - pos,
    {
        let ghost before = code@;
        proof {
            reveal(grammar::program);
        }
        match stmt(&tokens, pos, &mut lvars) {
            Ok((node, next)) => {
                code.push(node);
                proof {
                    if let Ok(rest) = grammar::program(model, next as int, lvars@) {
                        assert(before + (seq![node] + rest.nodes) =~= before.push(node)
                            + rest.nodes);
                    }
                }
                pos = next;
            },
            Err(error) => {
                return Err(error);
            },
        }
    }
    proof {
        reveal(grammar::program);
        assert(code@ + Seq::<Node>::empty() =~= code@);
    }
    Ok(code)
}

} // verus!
