//! The parser over the modal tokenizer's tokens: a token cursor, the table
//! of local variables, and one function for each rule of the grammar.

use crate::assembly::Expr;
use crate::chars::{bytes_of, lemma_bytes_of};
use crate::error::RError;
use crate::grammar;
use crate::grammar::{Fault, FaultKind, Names, Step, Unit, MAX_VARIABLES};
use crate::lexeme::{fixed, lemma_marks, lemma_punctuation, punctuation, spelling, Lexeme};
use crate::parser::{slot_after, BinOpKind};
use crate::tokenize::{tokens_view, Token, TokenKind};
use vstd::prelude::*;

verus! {

#[derive(Debug, PartialEq, Eq, Structural, Clone, Copy)]
pub enum NodeKind {
    Add,
    Sub,
    Mul,
    Div,
    Equal,
    NotEqual,
    LessThan,
    LessThanEqual,
    Assign,
    LocalVariable,
    Num,
    Return,
}

#[derive(Debug, PartialEq)]
pub struct Node {
    pub kind: NodeKind,
    pub lhs: Option<Box<Node>>,
    pub rhs: Option<Box<Node>>,
    pub val: Option<i64>,
    pub offset: Option<i32>,
}

/// The node kind of a binary operator.
pub open spec fn binary_kind(kind: BinOpKind) -> NodeKind {
    match kind {
        BinOpKind::Add => NodeKind::Add,
        BinOpKind::Sub => NodeKind::Sub,
        BinOpKind::Mul => NodeKind::Mul,
        BinOpKind::Quo => NodeKind::Div,
        BinOpKind::EQ => NodeKind::Equal,
        BinOpKind::NEQ => NodeKind::NotEqual,
        BinOpKind::LSS => NodeKind::LessThan,
        BinOpKind::LEQ => NodeKind::LessThanEqual,
    }
}

/// The binary operator of a node kind, if it is one.
pub open spec fn operator_of(kind: NodeKind) -> Option<BinOpKind> {
    match kind {
        NodeKind::Add => Some(BinOpKind::Add),
        NodeKind::Sub => Some(BinOpKind::Sub),
        NodeKind::Mul => Some(BinOpKind::Mul),
        NodeKind::Div => Some(BinOpKind::Quo),
        NodeKind::Equal => Some(BinOpKind::EQ),
        NodeKind::NotEqual => Some(BinOpKind::NEQ),
        NodeKind::LessThan => Some(BinOpKind::LSS),
        NodeKind::LessThanEqual => Some(BinOpKind::LEQ),
        _ => None,
    }
}

impl Node {
    /// The node that stands for an expression: the fields that the kind
    /// uses are set, the others are empty.
    pub open spec fn of(expr: Expr) -> Node
        decreases expr,
    {
        match expr {
            Expr::Int(value) => Node {
                kind: NodeKind::Num,
                lhs: None,
                rhs: None,
                val: Some(value),
                offset: None,
            },
            Expr::Var(offset) => Node {
                kind: NodeKind::LocalVariable,
                lhs: None,
                rhs: None,
                val: None,
                offset: Some(offset),
            },
            Expr::Assign(lhs, rhs) => Node {
                kind: NodeKind::Assign,
                lhs: Some(Box::new(Node::of(*lhs))),
                rhs: Some(Box::new(Node::of(*rhs))),
                val: None,
                offset: None,
            },
            Expr::Return(result) => Node {
                kind: NodeKind::Return,
                lhs: Some(Box::new(Node::of(*result))),
                rhs: None,
                val: None,
                offset: None,
            },
            Expr::Binary(kind, lhs, rhs) => Node {
                kind: binary_kind(kind),
                lhs: Some(Box::new(Node::of(*lhs))),
                rhs: Some(Box::new(Node::of(*rhs))),
                val: None,
                offset: None,
            },
        }
    }

    /// The expression that a node stands for; `None` where a field that the
    /// kind uses is empty.
    pub open spec fn expr(self) -> Option<Expr>
        decreases self,
    {
        match self.kind {
            NodeKind::Num => match self.val {
                Some(value) => Some(Expr::Int(value)),
                None => None,
            },
            NodeKind::LocalVariable => match self.offset {
                Some(offset) => Some(Expr::Var(offset)),
                None => None,
            },
            NodeKind::Return => match self.lhs {
                Some(result) => match result.expr() {
                    Some(e) => Some(Expr::Return(Box::new(e))),
                    None => None,
                },
                None => None,
            },
            _ => match (self.lhs, self.rhs) {
                (Some(lhs), Some(rhs)) => match (lhs.expr(), rhs.expr()) {
                    (Some(l), Some(r)) => if self.kind == NodeKind::Assign {
                        Some(Expr::Assign(Box::new(l), Box::new(r)))
                    } else {
                        Some(Expr::Binary(operator_of(self.kind)->0, Box::new(l), Box::new(r)))
                    },
                    _ => None,
                },
                _ => None,
            },
        }
    }

    pub fn new_node(kind: NodeKind, lhs: Box<Node>, rhs: Box<Node>) -> (node: Node)
        ensures
            node == (Node { kind, lhs: Some(lhs), rhs: Some(rhs), val: None, offset: None }),
    {
        Node { kind: kind, lhs: Some(lhs), rhs: Some(rhs), val: None, offset: None }
    }

    pub fn new_node_num(val: i64) -> (node: Node)
        ensures
            node == Node::of(Expr::Int(val)),
    {
        Node { kind: NodeKind::Num, lhs: None, rhs: None, val: Some(val), offset: None }
    }

    pub fn new_node_identifier(offset: i32) -> (node: Node)
        ensures
            node == Node::of(Expr::Var(offset)),
    {
        Node {
            kind: NodeKind::LocalVariable,
            lhs: None,
            rhs: None,
            val: None,
            offset: Some(offset),
        }
    }

    pub fn new_node_return(lhs: Box<Node>) -> (node: Node)
        ensures
            node == (Node {
                kind: NodeKind::Return,
                lhs: Some(lhs),
                rhs: None,
                val: None,
                offset: None,
            }),
    {
        Node { kind: NodeKind::Return, lhs: Some(lhs), rhs: None, val: None, offset: None }
    }
}

/// The node of an expression stands for that expression: what `program`
/// answers is what `codegen::gen` takes.
pub proof fn lemma_of_expr(expr: Expr)
    ensures
        Node::of(expr).expr() == Some(expr),
    decreases expr,
{
    match expr {
        Expr::Int(_) => {},
        Expr::Var(_) => {},
        Expr::Assign(lhs, rhs) => {
            lemma_of_expr(*lhs);
            lemma_of_expr(*rhs);
        },
        Expr::Return(result) => {
            lemma_of_expr(*result);
        },
        Expr::Binary(kind, lhs, rhs) => {
            lemma_of_expr(*lhs);
            lemma_of_expr(*rhs);
            assert(operator_of(binary_kind(kind)) == Some(kind));
        },
    }
}

/// A position in a token sequence.
#[derive(Debug)]
pub struct TokenCursor {
    pub tokens: Vec<Token>,
    pub pos: usize,
}

impl TokenCursor {
    /// The tokens are well formed and the position lies in the sequence or
    /// at its end.
    pub open spec fn wf(&self) -> bool {
        &&& self.pos <= self.tokens@.len()
        &&& forall|i: int| 0 <= i < self.tokens@.len() ==> (#[trigger] self.tokens@[i]).wf()
    }

    /// The token sequence as the grammar sees it.
    pub open spec fn model(&self) -> Seq<crate::lexer::Annot<Lexeme>> {
        tokens_view(self.tokens@)
    }

    /// The lexeme under the cursor.
    pub open spec fn peek(&self) -> Option<Lexeme> {
        grammar::peek(self.model(), self.pos as int)
    }

    /// The token under the cursor, if there is one.
    pub open spec fn here(&self) -> Option<Token> {
        if self.pos < self.tokens@.len() {
            Some(self.tokens@[self.pos as int])
        } else {
            None
        }
    }

    /// Whether the token under the cursor is the mark or the keyword with
    /// the given spelling.
    pub open spec fn stands(&self, text: Seq<char>) -> bool {
        match self.here() {
            Some(token) => spelled(token, text),
            None => false,
        }
    }

    /// The text of the token under the cursor, if it has one.
    pub open spec fn string_here(&self) -> Option<String> {
        match self.here() {
            Some(token) => token.string,
            None => None,
        }
    }

    /// The name under the cursor, if an identifier stands there.
    pub open spec fn name_here(&self) -> Option<String> {
        match self.here() {
            Some(token) => if token.kind == TokenKind::Identifier {
                token.string
            } else {
                None
            },
            None => None,
        }
    }

    /// The first letter of the name under the cursor, if it is a
    /// lower-case letter.
    pub open spec fn initial_here(&self) -> Option<char> {
        match self.name_here() {
            Some(name) => if name@.len() > 0 && 'a' <= name@[0] <= 'z' {
                Some(name@[0])
            } else {
                None
            },
            None => None,
        }
    }

    /// The value of the token under the cursor, if it has one.
    pub open spec fn value_here(&self) -> Option<i64> {
        match self.here() {
            Some(token) => token.val,
            None => None,
        }
    }

    pub fn new(tokens: Vec<Token>) -> (cursor: Self)
        ensures
            cursor.tokens == tokens,
            cursor.pos == 0,
    {
        TokenCursor { tokens: tokens, pos: 0 }
    }

    /// The token under the cursor.
    pub fn current(&self) -> (r: Option<&Token>)
        ensures
            r == match self.here() {
                Some(token) => Some(&token),
                None => None,
            },
    {
        if self.pos < self.tokens.len() {
            Some(&self.tokens[self.pos])
        } else {
            None
        }
    }
}

/// Steps over the token under the cursor, if there is one.
pub fn next_token(token: &mut TokenCursor)
    ensures
        final(token).tokens == old(token).tokens,
        old(token).here() is Some ==> final(token).pos == old(token).pos + 1,
        old(token).here() is None ==> final(token).pos == old(token).pos,
{
    if token.pos < token.tokens.len() {
        token.pos += 1;
    }
}

/// Whether a token is a mark or the keyword with the given spelling.
pub open spec fn spelled(token: Token, text: Seq<char>) -> bool {
    &&& token.kind == TokenKind::Reserved || token.kind == TokenKind::Return
    &&& token.string is Some
    &&& token.text() == text
    &&& token.len == bytes_of(text)
}

/// Whether the token under the cursor is the mark or the keyword `op`.
pub fn is_expected(op: &str, token: &TokenCursor) -> (r: bool)
    ensures
        r == token.stands(op@),
{
    if let Some(t) = token.current() {
        match t.kind {
            TokenKind::Reserved | TokenKind::Return => (),
            _ => {
                return false;
            },
        }
        if let Some(s) = &t.string {
            let wanted: String = op.to_owned();
            if s.as_str().as_bytes().len() != t.len {
                return false;
            }
            return *s == wanted;
        }
    }
    false
}

/// Steps over the token under the cursor if it is `op`, and says whether it
/// was.
pub fn consume(op: &str, token: &mut TokenCursor) -> (r: bool)
    ensures
        final(token).tokens == old(token).tokens,
        r == old(token).stands(op@),
        r ==> final(token).pos == old(token).pos + 1,
        !r ==> final(token).pos == old(token).pos,
{
    if is_expected(op, token) {
        next_token(token);
        return true;
    }
    false
}

/// The name under the cursor, if an identifier stands there.
pub fn get_identifier(token: &TokenCursor) -> (r: Option<String>)
    ensures
        r == token.name_here(),
{
    if let Some(t) = token.current() {
        if t.kind == TokenKind::Identifier {
            if let Some(s) = &t.string {
                return Some(s.clone());
            }
        }
    }
    None
}

/// Steps over an identifier that starts with a lower-case letter and
/// answers that letter.
pub fn consume_identifier(token: &mut TokenCursor) -> (r: Option<char>)
    ensures
        final(token).tokens == old(token).tokens,
        r == old(token).initial_here(),
        r is Some ==> final(token).pos == old(token).pos + 1,
        r is None ==> final(token).pos == old(token).pos,
{
    let mut first: Option<char> = None;
    if let Some(t) = token.current() {
        if t.kind == TokenKind::Identifier {
            if let Some(s) = &t.string {
                if s.as_str().unicode_len() > 0 {
                    let c = s.as_str().get_char(0);
                    if 'a' <= c && c <= 'z' {
                        first = Some(c);
                    }
                }
            }
        }
    }
    if first.is_some() {
        next_token(token);
    }
    first
}

/// The message of a parse error.
pub open spec fn unexpected_char() -> Seq<char> {
    "Unexpected char"@
}

/// The source offset that an error at the token `at` points to: the start
/// of that token, or the end of the last one where the tokens ran out.
pub open spec fn offset_at(tokens: Seq<Token>, at: int) -> usize {
    if 0 <= at < tokens.len() {
        tokens[at].pos
    } else if tokens.len() > 0 {
        (tokens.last().pos + tokens.last().len) as usize
    } else {
        0
    }
}

/// Whether `error` is the parse error at the token `at`.
pub open spec fn fails_at(tokens: Seq<Token>, at: int, error: RError) -> bool {
    match error {
        RError::Parse(offset, message) => offset == offset_at(tokens, at) && message@
            == unexpected_char(),
        _ => false,
    }
}

/// The message for a new name that finds no slot.
pub open spec fn too_many_variables() -> Seq<char> {
    "Too many variables"@
}

/// Whether `error` is the error for a fault of the grammar: it points at
/// the token of the fault, and its message says whether a token is out of
/// place or a name finds no slot.
pub open spec fn failed(tokens: Seq<Token>, fault: Fault, error: RError) -> bool {
    match fault.kind {
        FaultKind::NoSlot => match error {
            RError::Parse(offset, message) => offset == offset_at(tokens, fault.at) && message@
                == too_many_variables(),
            _ => false,
        },
        _ => fails_at(tokens, fault.at, error),
    }
}

/// The source offset of the token under the cursor, or of the end of the
/// last token where the tokens ran out.
pub fn offset_here(token: &TokenCursor) -> (offset: usize)
    requires
        token.wf(),
    ensures
        offset == offset_at(token.tokens@, token.pos as int),
{
    let n: usize = token.tokens.len();
    if token.pos < n {
        token.tokens[token.pos].pos
    } else if n > 0 {
        token.tokens[n - 1].pos + token.tokens[n - 1].len
    } else {
        0
    }
}

/// The parse error at the token under the cursor.
pub fn unexpected(token: &TokenCursor) -> (error: RError)
    requires
        token.wf(),
    ensures
        fails_at(token.tokens@, token.pos as int, error),
{
    RError::Parse(offset_here(token), "Unexpected char".to_owned())
}

/// Steps over `op`, which has to stand under the cursor.
pub fn expect(op: &str, token: &mut TokenCursor) -> (r: Result<(), RError>)
    requires
        old(token).wf(),
    ensures
        final(token).tokens == old(token).tokens,
        match r {
            Ok(_) => old(token).stands(op@) && final(token).pos == old(token).pos + 1,
            Err(error) => !old(token).stands(op@) && final(token).pos == old(token).pos
                && fails_at(old(token).tokens@, old(token).pos as int, error),
        },
{
    if is_expected(op, token) {
        next_token(token);
        Ok(())
    } else {
        Err(unexpected(token))
    }
}

/// Steps over the token under the cursor and answers its value, if it has
/// one.
pub fn expect_number(token: &mut TokenCursor) -> (r: Option<i64>)
    ensures
        final(token).tokens == old(token).tokens,
        r == old(token).value_here(),
        old(token).here() is Some ==> final(token).pos == old(token).pos + 1,
        old(token).here() is None ==> final(token).pos == old(token).pos,
{
    let ret: Option<i64> = match token.current() {
        Some(t) => t.val,
        None => None,
    };
    next_token(token);
    ret
}

#[derive(Debug, PartialEq)]
pub struct LocalVariable {
    pub name: String,
    pub offset: i32,
}

impl LocalVariable {
    /// The variable named by the token under the cursor, at the given
    /// offset.
    pub fn new(token: &TokenCursor, offset: i32) -> (r: Option<Self>)
        ensures
            match r {
                Some(var) => token.string_here() == Some(var.name) && var.offset == offset,
                None => token.string_here() is None,
            },
    {
        if let Some(t) = token.current() {
            if let Some(s) = &t.string {
                return Some(LocalVariable { name: s.clone(), offset: offset });
            }
        }
        None
    }
}

/// The variables of a program in the order of their first use, each with
/// its offset, and the offset given out last.
#[derive(Debug)]
pub struct LocalVariables {
    pub list: Vec<LocalVariable>,
    pub offset: i32,
}

impl View for LocalVariables {
    type V = Names;

    open spec fn view(&self) -> Names {
        Seq::new(self.list@.len(), |i: int| self.list@[i].name@)
    }
}

impl LocalVariables {
    /// No name stands twice; the variable at index `i` has the offset
    /// `8 * (i + 1)`, and `offset` is that of the last one.
    pub open spec fn wf(&self) -> bool {
        &&& self@.no_duplicates()
        &&& self.list@.len() <= MAX_VARIABLES
        &&& self.offset == 8 * self.list@.len()
        &&& forall|i: int|
            0 <= i < self.list@.len() ==> (#[trigger] self.list@[i]).offset == grammar::slot(i)
    }

    pub fn new() -> (vars: Self)
        ensures
            vars@ == Seq::<Seq<char>>::empty(),
            vars.wf(),
    {
        let vars = Self { list: Vec::new(), offset: 0 };
        proof {
            assert(vars@ =~= Seq::<Seq<char>>::empty());
        }
        vars
    }

    /// The first variable that has the name under the cursor.
    pub fn find(&self, token: &TokenCursor) -> (r: Option<&LocalVariable>)
        ensures
            match r {
                Some(var) => token.string_here() is Some && exists|i: int|
                    0 <= i < self.list@.len() && *var == #[trigger] self.list@[i] && self@[i]
                        == token.string_here()->0@ && forall|k: int|
                        0 <= k < i ==> self@[k] != token.string_here()->0@,
                None => !(token.string_here() is Some && self@.contains(
                    token.string_here()->0@,
                )),
            },
    {
        if let Some(t) = token.current() {
            if let Some(s) = &t.string {
                let mut i: usize = 0;
                while i < self.list.len()
                    invariant
                        i <= self.list@.len(),
                        token.pos < token.tokens@.len(),
                        token.tokens@[token.pos as int].string == Some(*s),
                        forall|k: int| 0 <= k < i ==> self@[k] != s@,
                    decreases self.list@.len() - i,
                {
                    if self.list[i].name == *s {
                        proof {
                            assert(self@[i as int] == s@);
                            assert(self.list[i as int] == self.list@[i as int]);
                        }
                        return Some(&self.list[i]);
                    }
                    i += 1;
                }
            }
        }
        None
    }
}

/// A well-formed token has the spelling of a mark or of the keyword
/// exactly where it stands for that lexeme.
pub proof fn lemma_spelled(token: Token, lexeme: Lexeme)
    requires
        token.wf(),
        fixed(lexeme),
    ensures
        spelled(token, spelling(lexeme)) <==> token.lexeme() == lexeme,
{
    lemma_bytes_of(spelling(lexeme));
    if token.kind == TokenKind::Reserved {
        lemma_punctuation(token.text(), lexeme);
        lemma_punctuation(token.text(), punctuation(token.text())->0);
    }
}

/// Only the end marker stands for the end.
pub proof fn lemma_end(token: Token)
    requires
        token.wf(),
    ensures
        token.lexeme() == Lexeme::End <==> token.kind == TokenKind::Eof,
{
    if token.kind == TokenKind::Reserved {
        lemma_punctuation(token.text(), punctuation(token.text())->0);
    }
}

/// Whether the token under the cursor stands for `lexeme`; the rules learn
/// this from `consume`.
pub proof fn lemma_peek(token: TokenCursor, lexeme: Lexeme)
    requires
        token.wf(),
        fixed(lexeme),
    ensures
        token.stands(spelling(lexeme)) <==> token.peek() == Some(lexeme),
{
    if token.pos < token.tokens@.len() {
        lemma_spelled(token.tokens@[token.pos as int], lexeme);
    }
}

/// What a rule asks for: the tokens are well formed and the table is in
/// order.
pub open spec fn ready(token: TokenCursor, lvars: LocalVariables) -> bool {
    token.wf() && lvars.wf()
}

/// What a rule owes: the node of the tree that the grammar gives, the
/// cursor at the position and the variables that the grammar gives; or the
/// error at the token of the grammar's fault. Either way the tokens are
/// the same, the cursor has not moved back, and the table is in order with
/// the variables met before in place.
pub open spec fn rule_done(
    before: TokenCursor,
    met: LocalVariables,
    model: Result<Step, Fault>,
    r: Result<Box<Node>, RError>,
    after: TokenCursor,
    vars: LocalVariables,
) -> bool {
    &&& after.tokens == before.tokens
    &&& before.pos <= after.pos <= after.tokens@.len()
    &&& vars.wf()
    &&& grammar::kept(met@, vars@)
    &&& match model {
        Ok(step) => match r {
            Ok(node) => *node == Node::of(step.node.erase()) && after.pos == step.pos && vars@
                == step.vars && before.pos < after.pos && ready(after, vars),
            Err(_) => false,
        },
        Err(fault) => match r {
            Ok(_) => false,
            Err(error) => failed(before.tokens@, fault, error),
        },
    }
}

#[verifier::spinoff_prover]
pub fn primary(token: &mut TokenCursor, lvars: &mut LocalVariables) -> (r: Result<
    Box<Node>,
    RError,
>)
    requires
        ready(*old(token), *old(lvars)),
    ensures
        rule_done(
            *old(token),
            *old(lvars),
            grammar::primary(old(token).model(), old(token).pos as int, old(lvars)@),
            r,
            *final(token),
            *final(lvars),
        ),
    decreases old(token).tokens@.len() - old(token).pos, 0nat,
{
    proof {
        reveal(grammar::primary);
        reveal(grammar::expr);
        lemma_marks();
        lemma_peek(*token, Lexeme::LParen);
    }
    if consume("(", token) {
        let node = match expr(token, lvars) {
            Ok(node) => node,
            Err(error) => {
                return Err(error);
            },
        };
        proof {
            lemma_peek(*token, Lexeme::RParen);
        }
        return match expect(")", token) {
            Ok(_) => Ok(node),
            Err(error) => Err(error),
        };
    }
    if let Some(name) = get_identifier(token) {
        let found: Option<i32> = match lvars.find(token) {
            Some(lvar) => Some(lvar.offset),
            None => None,
        };
        proof {
            grammar::lemma_resolve(lvars@, name@);
        }
        let offset: i32 = match found {
            Some(offset) => offset,
            None => {
                if slot_after(lvars.list.len()).is_none() {
                    return Err(
                        RError::Parse(offset_here(token), "Too many variables".to_owned()),
                    );
                }
                let offset: i32 = lvars.offset + 8;
                match LocalVariable::new(token, offset) {
                    Some(lvar) => {
                        lvars.offset = offset;
                        lvars.list.push(lvar);
                        proof {
                            assert(lvars@ =~= old(lvars)@.push(name@));
                        }
                    },
                    None => {},
                }
                offset
            },
        };
        next_token(token);
        Ok(Box::new(Node::new_node_identifier(offset)))
    } else {
        let error = unexpected(token);
        match expect_number(token) {
            Some(value) => Ok(Box::new(Node::new_node_num(value))),
            None => Err(error),
        }
    }
}

#[verifier::spinoff_prover]
pub fn unary(token: &mut TokenCursor, lvars: &mut LocalVariables) -> (r: Result<
    Box<Node>,
    RError,
>)
    requires
        ready(*old(token), *old(lvars)),
    ensures
        rule_done(
            *old(token),
            *old(lvars),
            grammar::unary(old(token).model(), old(token).pos as int, old(lvars)@),
            r,
            *final(token),
            *final(lvars),
        ),
    decreases old(token).tokens@.len() - old(token).pos, 1nat,
{
    proof {
        reveal(grammar::primary);
        reveal(grammar::unary);
        lemma_marks();
        lemma_peek(*token, Lexeme::Add);
        lemma_peek(*token, Lexeme::Sub);
    }
    if consume("+", token) {
        primary(token, lvars)
    } else if consume("-", token) {
        let ghost loc = old(token).model()[old(token).pos as int].loc;
        match primary(token, lvars) {
            Ok(operand) => {
                proof {
                    assert(grammar::int_node(0, loc).erase() == Expr::Int(0));
                    assert(Node::of(Expr::Int(0)).kind == NodeKind::Num);
                }
                Ok(
                    Box::new(
                        Node::new_node(NodeKind::Sub, Box::new(Node::new_node_num(0)), operand),
                    ),
                )
            },
            Err(error) => Err(error),
        }
    } else {
        primary(token, lvars)
    }
}

#[verifier::spinoff_prover]
pub fn mul(token: &mut TokenCursor, lvars: &mut LocalVariables) -> (r: Result<
    Box<Node>,
    RError,
>)
    requires
        ready(*old(token), *old(lvars)),
    ensures
        rule_done(
            *old(token),
            *old(lvars),
            grammar::mul(old(token).model(), old(token).pos as int, old(lvars)@),
            r,
            *final(token),
            *final(lvars),
        ),
    decreases old(token).tokens@.len() - old(token).pos, 3nat,
{
    proof {
        reveal(grammar::unary);
        reveal(grammar::mul_rest);
        reveal(grammar::mul);
    }
    let ghost model = token.model();
    let mut node = match unary(token, lvars) {
        Ok(first) => first,
        Err(error) => {
            return Err(error);
        },
    };
    let ghost mut tree = grammar::unary(model, old(token).pos as int, old(lvars)@)->Ok_0.node;
    loop
        invariant
            token.tokens == old(token).tokens,
            model == old(token).model(),
            ready(*token, *lvars),
            grammar::kept(old(lvars)@, lvars@),
            old(token).pos < token.pos,
            *node == Node::of(tree.erase()),
            grammar::mul_rest(model, Step { node: tree, pos: token.pos as int, vars: lvars@ })
                == grammar::mul(model, old(token).pos as int, old(lvars)@),
        decreases token.tokens@.len() - token.pos,
    {
        let ghost at = token.pos as int;
        let ghost vars = lvars@;
        proof {
            reveal(grammar::unary);
            reveal(grammar::mul_rest);
            reveal(grammar::mul);
            lemma_marks();
            lemma_peek(*token, Lexeme::Mul);
            lemma_peek(*token, Lexeme::Quo);
        }
        if consume("*", token) {
            let rhs = match unary(token, lvars) {
                Ok(rhs) => rhs,
                Err(error) => {
                    return Err(error);
                },
            };
            proof {
                tree = grammar::combined(
                    model,
                    Step { node: tree, pos: at, vars },
                    grammar::unary(model, at + 1, vars),
                )->Ok_0.node;
            }
            node = Box::new(Node::new_node(NodeKind::Mul, node, rhs));
        } else if consume("/", token) {
            let rhs = match unary(token, lvars) {
                Ok(rhs) => rhs,
                Err(error) => {
                    return Err(error);
                },
            };
            proof {
                tree = grammar::combined(
                    model,
                    Step { node: tree, pos: at, vars },
                    grammar::unary(model, at + 1, vars),
                )->Ok_0.node;
            }
            node = Box::new(Node::new_node(NodeKind::Div, node, rhs));
        } else {
            return Ok(node);
        }
    }
}

#[verifier::spinoff_prover]
pub fn add(token: &mut TokenCursor, lvars: &mut LocalVariables) -> (r: Result<
    Box<Node>,
    RError,
>)
    requires
        ready(*old(token), *old(lvars)),
    ensures
        rule_done(
            *old(token),
            *old(lvars),
            grammar::add(old(token).model(), old(token).pos as int, old(lvars)@),
            r,
            *final(token),
            *final(lvars),
        ),
    decreases old(token).tokens@.len() - old(token).pos, 5nat,
{
    proof {
        reveal(grammar::mul);
        reveal(grammar::add_rest);
        reveal(grammar::add);
    }
    let ghost model = token.model();
    let mut node = match self::mul(token, lvars) {
        Ok(first) => first,
        Err(error) => {
            return Err(error);
        },
    };
    let ghost mut tree = grammar::mul(model, old(token).pos as int, old(lvars)@)->Ok_0.node;
    loop
        invariant
            token.tokens == old(token).tokens,
            model == old(token).model(),
            ready(*token, *lvars),
            grammar::kept(old(lvars)@, lvars@),
            old(token).pos < token.pos,
            *node == Node::of(tree.erase()),
            grammar::add_rest(model, Step { node: tree, pos: token.pos as int, vars: lvars@ })
                == grammar::add(model, old(token).pos as int, old(lvars)@),
        decreases token.tokens@.len() - token.pos,
    {
        let ghost at = token.pos as int;
        let ghost vars = lvars@;
        proof {
            reveal(grammar::mul);
            reveal(grammar::add_rest);
            reveal(grammar::add);
            lemma_marks();
            lemma_peek(*token, Lexeme::Add);
            lemma_peek(*token, Lexeme::Sub);
        }
        if consume("+", token) {
            let rhs = match self::mul(token, lvars) {
                Ok(rhs) => rhs,
                Err(error) => {
                    return Err(error);
                },
            };
            proof {
                tree = grammar::combined(
                    model,
                    Step { node: tree, pos: at, vars },
                    grammar::mul(model, at + 1, vars),
                )->Ok_0.node;
            }
            node = Box::new(Node::new_node(NodeKind::Add, node, rhs));
        } else if consume("-", token) {
            let rhs = match self::mul(token, lvars) {
                Ok(rhs) => rhs,
                Err(error) => {
                    return Err(error);
                },
            };
            proof {
                tree = grammar::combined(
                    model,
                    Step { node: tree, pos: at, vars },
                    grammar::mul(model, at + 1, vars),
                )->Ok_0.node;
            }
            node = Box::new(Node::new_node(NodeKind::Sub, node, rhs));
        } else {
            return Ok(node);
        }
    }
}

#[verifier::spinoff_prover]
pub fn relational(token: &mut TokenCursor, lvars: &mut LocalVariables) -> (r: Result<
    Box<Node>,
    RError,
>)
    requires
        ready(*old(token), *old(lvars)),
    ensures
        rule_done(
            *old(token),
            *old(lvars),
            grammar::relational(old(token).model(), old(token).pos as int, old(lvars)@),
            r,
            *final(token),
            *final(lvars),
        ),
    decreases old(token).tokens@.len() - old(token).pos, 7nat,
{
    proof {
        reveal(grammar::add);
        reveal(grammar::relational_rest);
        reveal(grammar::relational);
    }
    let ghost model = token.model();
    let mut node = match self::add(token, lvars) {
        Ok(first) => first,
        Err(error) => {
            return Err(error);
        },
    };
    let ghost mut tree = grammar::add(model, old(token).pos as int, old(lvars)@)->Ok_0.node;
    loop
        invariant
            token.tokens == old(token).tokens,
            model == old(token).model(),
            ready(*token, *lvars),
            grammar::kept(old(lvars)@, lvars@),
            old(token).pos < token.pos,
            *node == Node::of(tree.erase()),
            grammar::relational_rest(
                model,
                Step { node: tree, pos: token.pos as int, vars: lvars@ },
            ) == grammar::relational(model, old(token).pos as int, old(lvars)@),
        decreases token.tokens@.len() - token.pos,
    {
        let ghost at = token.pos as int;
        let ghost vars = lvars@;
        proof {
            reveal(grammar::add);
            reveal(grammar::relational_rest);
            reveal(grammar::relational);
            lemma_marks();
            lemma_peek(*token, Lexeme::Leq);
            lemma_peek(*token, Lexeme::Geq);
            lemma_peek(*token, Lexeme::Lss);
            lemma_peek(*token, Lexeme::Grt);
        }
        if consume("<=", token) {
            let rhs = match self::add(token, lvars) {
                Ok(rhs) => rhs,
                Err(error) => {
                    return Err(error);
                },
            };
            proof {
                tree = grammar::combined(
                    model,
                    Step { node: tree, pos: at, vars },
                    grammar::add(model, at + 1, vars),
                )->Ok_0.node;
            }
            node = Box::new(Node::new_node(NodeKind::LessThanEqual, node, rhs));
        } else if consume(">=", token) {
            let rhs = match self::add(token, lvars) {
                Ok(rhs) => rhs,
                Err(error) => {
                    return Err(error);
                },
            };
            proof {
                tree = grammar::combined(
                    model,
                    Step { node: tree, pos: at, vars },
                    grammar::add(model, at + 1, vars),
                )->Ok_0.node;
            }
            node = Box::new(Node::new_node(NodeKind::LessThanEqual, rhs, node));
        } else if consume("<", token) {
            let rhs = match self::add(token, lvars) {
                Ok(rhs) => rhs,
                Err(error) => {
                    return Err(error);
                },
            };
            proof {
                tree = grammar::combined(
                    model,
                    Step { node: tree, pos: at, vars },
                    grammar::add(model, at + 1, vars),
                )->Ok_0.node;
            }
            node = Box::new(Node::new_node(NodeKind::LessThan, node, rhs));
        } else if consume(">", token) {
            let rhs = match self::add(token, lvars) {
                Ok(rhs) => rhs,
                Err(error) => {
                    return Err(error);
                },
            };
            proof {
                tree = grammar::combined(
                    model,
                    Step { node: tree, pos: at, vars },
                    grammar::add(model, at + 1, vars),
                )->Ok_0.node;
            }
            node = Box::new(Node::new_node(NodeKind::LessThan, rhs, node));
        } else {
            return Ok(node);
        }
    }
}

#[verifier::spinoff_prover]
pub fn equality(token: &mut TokenCursor, lvars: &mut LocalVariables) -> (r: Result<
    Box<Node>,
    RError,
>)
    requires
        ready(*old(token), *old(lvars)),
    ensures
        rule_done(
            *old(token),
            *old(lvars),
            grammar::equality(old(token).model(), old(token).pos as int, old(lvars)@),
            r,
            *final(token),
            *final(lvars),
        ),
    decreases old(token).tokens@.len() - old(token).pos, 9nat,
{
    proof {
        reveal(grammar::relational);
        reveal(grammar::equality_rest);
        reveal(grammar::equality);
    }
    let ghost model = token.model();
    let mut node = match relational(token, lvars) {
        Ok(first) => first,
        Err(error) => {
            return Err(error);
        },
    };
    let ghost mut tree = grammar::relational(model, old(token).pos as int, old(lvars)@)->Ok_0.node;
    loop
        invariant
            token.tokens == old(token).tokens,
            model == old(token).model(),
            ready(*token, *lvars),
            grammar::kept(old(lvars)@, lvars@),
            old(token).pos < token.pos,
            *node == Node::of(tree.erase()),
            grammar::equality_rest(model, Step { node: tree, pos: token.pos as int, vars: lvars@ })
                == grammar::equality(model, old(token).pos as int, old(lvars)@),
        decreases token.tokens@.len() - token.pos,
    {
        let ghost at = token.pos as int;
        let ghost vars = lvars@;
        proof {
            reveal(grammar::relational);
            reveal(grammar::equality_rest);
            reveal(grammar::equality);
            lemma_marks();
            lemma_peek(*token, Lexeme::Eq);
            lemma_peek(*token, Lexeme::Neq);
        }
        if consume("==", token) {
            let rhs = match relational(token, lvars) {
                Ok(rhs) => rhs,
                Err(error) => {
                    return Err(error);
                },
            };
            proof {
                tree = grammar::combined(
                    model,
                    Step { node: tree, pos: at, vars },
                    grammar::relational(model, at + 1, vars),
                )->Ok_0.node;
            }
            node = Box::new(Node::new_node(NodeKind::Equal, node, rhs));
        } else if consume("!=", token) {
            let rhs = match relational(token, lvars) {
                Ok(rhs) => rhs,
                Err(error) => {
                    return Err(error);
                },
            };
            proof {
                tree = grammar::combined(
                    model,
                    Step { node: tree, pos: at, vars },
                    grammar::relational(model, at + 1, vars),
                )->Ok_0.node;
            }
            node = Box::new(Node::new_node(NodeKind::NotEqual, node, rhs));
        } else {
            return Ok(node);
        }
    }
}

#[verifier::spinoff_prover]
pub fn assign(token: &mut TokenCursor, lvars: &mut LocalVariables) -> (r: Result<
    Box<Node>,
    RError,
>)
    requires
        ready(*old(token), *old(lvars)),
    ensures
        rule_done(
            *old(token),
            *old(lvars),
            grammar::assign(old(token).model(), old(token).pos as int, old(lvars)@),
            r,
            *final(token),
            *final(lvars),
        ),
    decreases old(token).tokens@.len() - old(token).pos, 10nat,
{
    proof {
        reveal(grammar::equality);
        reveal(grammar::assign);
    }
    let mut node = match equality(token, lvars) {
        Ok(lhs) => lhs,
        Err(error) => {
            return Err(error);
        },
    };
    proof {
        lemma_marks();
        lemma_peek(*token, Lexeme::Assign);
    }
    if consume("=", token) {
        let rhs = match assign(token, lvars) {
            Ok(rhs) => rhs,
            Err(error) => {
                return Err(error);
            },
        };
        node = Box::new(Node::new_node(NodeKind::Assign, node, rhs));
    }
    Ok(node)
}

#[verifier::spinoff_prover]
pub fn expr(token: &mut TokenCursor, lvars: &mut LocalVariables) -> (r: Result<
    Box<Node>,
    RError,
>)
    requires
        ready(*old(token), *old(lvars)),
    ensures
        rule_done(
            *old(token),
            *old(lvars),
            grammar::expr(old(token).model(), old(token).pos as int, old(lvars)@),
            r,
            *final(token),
            *final(lvars),
        ),
    decreases old(token).tokens@.len() - old(token).pos, 11nat,
{
    proof {
        reveal(grammar::assign);
        reveal(grammar::expr);
    }
    assign(token, lvars)
}

#[verifier::spinoff_prover]
pub fn stmt(token: &mut TokenCursor, lvars: &mut LocalVariables) -> (r: Result<
    Box<Node>,
    RError,
>)
    requires
        ready(*old(token), *old(lvars)),
    ensures
        rule_done(
            *old(token),
            *old(lvars),
            grammar::stmt(old(token).model(), old(token).pos as int, old(lvars)@),
            r,
            *final(token),
            *final(lvars),
        ),
{
    proof {
        reveal(grammar::stmt);
        lemma_marks();
        lemma_peek(*token, Lexeme::Return);
    }
    let node = if consume("return", token) {
        match expr(token, lvars) {
            Ok(result) => Box::new(Node::new_node_return(result)),
            Err(error) => {
                return Err(error);
            },
        }
    } else {
        match expr(token, lvars) {
            Ok(node) => node,
            Err(error) => {
                return Err(error);
            },
        }
    };
    proof {
        lemma_peek(*token, Lexeme::Semi);
    }
    match expect(";", token) {
        Ok(_) => Ok(node),
        Err(error) => Err(error),
    }
}

/// The nodes that a sequence of boxes holds.
pub open spec fn unboxed(code: Seq<Box<Node>>) -> Seq<Node> {
    Seq::new(code.len(), |i: int| *code[i])
}

/// The nodes that stand for a sequence of trees.
pub open spec fn nodes_of(trees: Seq<crate::parser::Node>) -> Seq<Node> {
    Seq::new(trees.len(), |i: int| Node::of(trees[i].erase()))
}

/// What `program` owes: the nodes of the statements that the grammar gives,
/// the cursor where they end and the variables they use; or the error at
/// the token of the grammar's fault.
pub open spec fn program_done(
    before: TokenCursor,
    met: LocalVariables,
    model: Result<Unit, Fault>,
    r: Result<Vec<Box<Node>>, RError>,
    after: TokenCursor,
    vars: LocalVariables,
) -> bool {
    &&& after.tokens == before.tokens
    &&& before.pos <= after.pos <= after.tokens@.len()
    &&& vars.wf()
    &&& grammar::kept(met@, vars@)
    &&& match model {
        Ok(unit) => match r {
            Ok(code) => unboxed(code@) == nodes_of(unit.nodes) && after.pos == unit.end && vars@
                == unit.vars && ready(after, vars),
            Err(_) => false,
        },
        Err(fault) => match r {
            Ok(_) => false,
            Err(error) => failed(before.tokens@, fault, error),
        },
    }
}

/// Reads statements up to the end marker. The first use of a name gives it
/// the next slot of eight bytes; later uses find the same slot.
pub fn program(token: &mut TokenCursor, lvars: &mut LocalVariables) -> (r: Result<
    Vec<Box<Node>>,
    RError,
>)
    requires
        ready(*old(token), *old(lvars)),
    ensures
        program_done(
            *old(token),
            *old(lvars),
            grammar::program(old(token).model(), old(token).pos as int, old(lvars)@),
            r,
            *final(token),
            *final(lvars),
        ),
{
    let ghost model = token.model();
    let ghost goal = grammar::program(model, token.pos as int, lvars@);
    let ghost mut trees: Seq<crate::parser::Node> = Seq::empty();
    let mut code: Vec<Box<Node>> = Vec::new();
    proof {
        assert(unboxed(code@) =~= nodes_of(trees));
        if let Ok(unit) = goal {
            assert(trees + unit.nodes =~= unit.nodes);
        }
    }
    loop
        invariant
            token.tokens == old(token).tokens,
            model == old(token).model(),
            ready(*token, *lvars),
            old(token).pos <= token.pos,
            grammar::kept(old(lvars)@, lvars@),
            goal == grammar::program(model, old(token).pos as int, old(lvars)@),
            code@.len() == trees.len(),
            unboxed(code@) == nodes_of(trees),
            crate::parser::prepend(trees, grammar::program(model, token.pos as int, lvars@))
                == goal,
        ensures
            grammar::at_end(model, token.pos as int),
        decreases token.tokens@.len() - token.pos,
    {
        proof {
            reveal(grammar::program);
        }
        let more = match token.current() {
            Some(t) => t.kind != TokenKind::Eof,
            None => false,
        };
        if !more {
            proof {
                if token.pos < token.tokens@.len() {
                    lemma_end(token.tokens@[token.pos as int]);
                }
            }
            break ;
        }
        let ghost at = token.pos as int;
        let ghost vars = lvars@;
        proof {
            lemma_end(token.tokens@[at]);
        }
        match stmt(token, lvars) {
            Ok(node) => {
                proof {
                    let tree = grammar::stmt(model, at, vars)->Ok_0.node;
                    if let Ok(rest) = grammar::program(model, token.pos as int, lvars@) {
                        assert(trees + (seq![tree] + rest.nodes) =~= trees.push(tree)
                            + rest.nodes);
                    }
                    let grown = code@.push(node);
                    assert forall|i: int| 0 <= i < grown.len() implies unboxed(grown)[i]
                        == nodes_of(trees.push(tree))[i] by {
                        if i < code@.len() {
                            assert(unboxed(code@)[i] == nodes_of(trees)[i]);
                        }
                    }
                    assert(unboxed(grown) =~= nodes_of(trees.push(tree)));
                    trees = trees.push(tree);
                }
                code.push(node);
            },
            Err(error) => {
                return Err(error);
            },
        }
    }
    proof {
        reveal(grammar::program);
        assert(trees + Seq::<crate::parser::Node>::empty() =~= trees);
    }
    Ok(code)
}

/// A parser: the tokens of a program and the table of its variables.
#[derive(Debug)]
pub struct Parser {
    pub token: TokenCursor,
    pub lvars: LocalVariables,
}

impl Parser {
    pub fn new(token: TokenCursor) -> (parser: Self)
        ensures
            parser.token == token,
            parser.lvars@ == Seq::<Seq<char>>::empty(),
            parser.lvars.wf(),
    {
        let lvars = LocalVariables::new();
        Self { token: token, lvars: lvars }
    }

    /// Reads the statements from the cursor up to the end marker.
    pub fn program(&mut self) -> (r: Result<Vec<Box<Node>>, RError>)
        requires
            ready(old(self).token, old(self).lvars),
        ensures
            program_done(
                old(self).token,
                old(self).lvars,
                grammar::program(
                    old(self).token.model(),
                    old(self).token.pos as int,
                    old(self).lvars@,
                ),
                r,
                final(self).token,
                final(self).lvars,
            ),
    {
        program(&mut self.token, &mut self.lvars)
    }
}

} // verus!
