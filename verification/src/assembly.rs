//! The emission model: the instructions of an expression, and their text.
//!
//! The code is for a stack machine on x86-64 in Intel syntax. Every
//! expression leaves its value on the stack; `rax` and `rdi` hold operands
//! only within one group of instructions.

use crate::chars::{push_decimal, signed_decimal};
use crate::parser::BinOpKind;
use vstd::prelude::*;

verus! {

/// An expression of the language, without source positions.
pub enum Expr {
    Int(i64),
    /// A variable, by the offset of its slot below the frame base.
    Var(i32),
    Assign(Box<Expr>, Box<Expr>),
    Return(Box<Expr>),
    Binary(BinOpKind, Box<Expr>, Box<Expr>),
}

/// The instructions that the generators use.
#[derive(Debug, PartialEq, Eq, Structural, Clone, Copy)]
pub enum Instr {
    /// `push` of a constant.
    PushImm(i64),
    PushRax,
    PushRdi,
    PushRbp,
    PopRax,
    PopRdi,
    PopRbp,
    /// `mov rax, rbp`
    MovRaxRbp,
    /// `mov rbp, rsp`
    MovRbpRsp,
    /// `mov rsp, rbp`
    MovRspRbp,
    /// `sub rax,` a constant.
    SubRaxImm(i32),
    /// `sub rsp,` a constant.
    SubRspImm(i32),
    /// `mov rax, [rax]`
    Load,
    /// `mov [rax], rdi`
    Store,
    /// `add rax, rdi`
    Add,
    /// `sub rax, rdi`
    Sub,
    /// `imul rax, rdi`
    Imul,
    Cqo,
    /// `idiv rdi`
    Idiv,
    /// `cmp rax, rdi`
    Cmp,
    /// `sete al`
    Sete,
    /// `setne al`
    Setne,
    /// `setl al`
    Setl,
    /// `setle al`
    Setle,
    /// `movzb rax, al`
    Movzb,
    Ret,
}

/// The bytes reserved for local variables in every frame.
pub const FRAME_SIZE: i32 = 208;

/// The line of text of one instruction.
pub open spec fn line(instr: Instr) -> Seq<char> {
    match instr {
        Instr::PushImm(value) => "  push "@ + signed_decimal(value as int) + "\n"@,
        Instr::PushRax => "  push rax\n"@,
        Instr::PushRdi => "  push rdi\n"@,
        Instr::PushRbp => "  push rbp\n"@,
        Instr::PopRax => "  pop rax\n"@,
        Instr::PopRdi => "  pop rdi\n"@,
        Instr::PopRbp => "  pop rbp\n"@,
        Instr::MovRaxRbp => "  mov rax, rbp\n"@,
        Instr::MovRbpRsp => "  mov rbp, rsp\n"@,
        Instr::MovRspRbp => "  mov rsp, rbp\n"@,
        Instr::SubRaxImm(value) => "  sub rax, "@ + signed_decimal(value as int) + "\n"@,
        Instr::SubRspImm(value) => "  sub rsp, "@ + signed_decimal(value as int) + "\n"@,
        Instr::Load => "  mov rax, [rax]\n"@,
        Instr::Store => "  mov [rax], rdi\n"@,
        Instr::Add => "  add rax, rdi\n"@,
        Instr::Sub => "  sub rax, rdi\n"@,
        Instr::Imul => "  imul rax, rdi\n"@,
        Instr::Cqo => "  cqo\n"@,
        Instr::Idiv => "  idiv rdi\n"@,
        Instr::Cmp => "  cmp rax, rdi\n"@,
        Instr::Sete => "  sete al\n"@,
        Instr::Setne => "  setne al\n"@,
        Instr::Setl => "  setl al\n"@,
        Instr::Setle => "  setle al\n"@,
        Instr::Movzb => "  movzb rax, al\n"@,
        Instr::Ret => "  ret\n"@,
    }
}

/// The text of a sequence of instructions: their lines, in order.
pub open spec fn render(code: Seq<Instr>) -> Seq<char>
    decreases code.len(),
{
    if code.len() == 0 {
        Seq::empty()
    } else {
        render(code.drop_last()) + line(code.last())
    }
}

/// The text of two sequences of instructions, one after the other, is the
/// text of the first and then the text of the second.
pub proof fn lemma_render_concat(first: Seq<Instr>, second: Seq<Instr>)
    ensures
        render(first + second) == render(first) + render(second),
    decreases second.len(),
{
    if second.len() == 0 {
        assert(first + second =~= first);
        assert(render(first) + render(second) =~= render(first));
    } else {
        lemma_render_concat(first, second.drop_last());
        assert((first + second).drop_last() =~= first + second.drop_last());
        assert(render(first) + render(second.drop_last()) + line(second.last()) =~= render(first)
            + (render(second.drop_last()) + line(second.last())));
    }
}

/// The text grows by one line as the instructions grow by one.
pub proof fn lemma_render_push(code: Seq<Instr>, instr: Instr)
    ensures
        render(code.push(instr)) == render(code) + line(instr),
{
    assert(code.push(instr).drop_last() =~= code);
}

/// Pushes the address of the slot at `offset` below the frame base.
pub open spec fn address(offset: i32) -> Seq<Instr> {
    seq![Instr::MovRaxRbp, Instr::SubRaxImm(offset), Instr::PushRax]
}

/// Replaces the address on the stack by the value stored there.
pub open spec fn load() -> Seq<Instr> {
    seq![Instr::PopRax, Instr::Load, Instr::PushRax]
}

/// Pops a value and an address, stores the value there and pushes it again.
pub open spec fn store() -> Seq<Instr> {
    seq![Instr::PopRdi, Instr::PopRax, Instr::Store, Instr::PushRdi]
}

/// Pops the result into `rax`, leaves the frame and returns to the caller.
pub open spec fn leave() -> Seq<Instr> {
    seq![Instr::PopRax, Instr::MovRspRbp, Instr::PopRbp, Instr::Ret]
}

/// Pops the right operand into `rdi` and the left one into `rax`.
pub open spec fn pop_operands() -> Seq<Instr> {
    seq![Instr::PopRdi, Instr::PopRax]
}

/// Applies an operator to `rax` and `rdi`. Division extends the sign of
/// the dividend and truncates toward zero; a comparison leaves 0 or 1.
pub open spec fn apply(kind: BinOpKind) -> Seq<Instr> {
    match kind {
        BinOpKind::Add => seq![Instr::Add],
        BinOpKind::Sub => seq![Instr::Sub],
        BinOpKind::Mul => seq![Instr::Imul],
        BinOpKind::Quo => seq![Instr::Cqo, Instr::Idiv],
        BinOpKind::EQ => seq![Instr::Cmp, Instr::Sete, Instr::Movzb],
        BinOpKind::NEQ => seq![Instr::Cmp, Instr::Setne, Instr::Movzb],
        BinOpKind::LSS => seq![Instr::Cmp, Instr::Setl, Instr::Movzb],
        BinOpKind::LEQ => seq![Instr::Cmp, Instr::Setle, Instr::Movzb],
    }
}

/// The instructions that push the address of an expression: only a
/// variable has one.
pub open spec fn place(expr: Expr) -> Option<Seq<Instr>> {
    match expr {
        Expr::Var(offset) => Some(address(offset)),
        _ => None,
    }
}

/// The instructions that push the value of an expression, operands first;
/// `None` where something other than a variable is assigned to.
pub open spec fn code(expr: Expr) -> Option<Seq<Instr>>
    decreases expr,
{
    match expr {
        Expr::Int(value) => Some(seq![Instr::PushImm(value)]),
        Expr::Var(offset) => Some(address(offset) + load()),
        Expr::Assign(lhs, rhs) => match (place(*lhs), code(*rhs)) {
            (Some(target), Some(value)) => Some(target + value + store()),
            _ => None,
        },
        Expr::Return(result) => match code(*result) {
            Some(value) => Some(value + leave()),
            None => None,
        },
        Expr::Binary(kind, lhs, rhs) => match (code(*lhs), code(*rhs)) {
            (Some(left), Some(right)) => Some(
                left + right + pop_operands() + apply(kind) + seq![Instr::PushRax],
            ),
            _ => None,
        },
    }
}

/// The text of instructions, where there are any.
pub open spec fn text_of(code: Option<Seq<Instr>>) -> Option<Seq<char>> {
    match code {
        Some(instrs) => Some(render(instrs)),
        None => None,
    }
}

/// The text that pushes the address of an expression.
pub open spec fn emit_address(expr: Expr) -> Option<Seq<char>> {
    text_of(place(expr))
}

/// The text that pushes the value of an expression.
pub open spec fn emit(expr: Expr) -> Option<Seq<char>> {
    text_of(code(expr))
}

/// The syntax directive and the entry label.
pub open spec fn header() -> Seq<char> {
    ".intel_syntax noprefix\n.global main\nmain:\n"@
}

/// Saves the caller's frame base, opens a frame and reserves the area of
/// the local variables.
pub open spec fn prologue() -> Seq<Instr> {
    seq![Instr::PushRbp, Instr::MovRbpRsp, Instr::SubRspImm(FRAME_SIZE)]
}

/// Leaves the frame and returns to the caller.
pub open spec fn epilogue() -> Seq<Instr> {
    seq![Instr::MovRspRbp, Instr::PopRbp, Instr::Ret]
}

/// The instructions of one statement: a statement other than `return`
/// drops the value that it left on the stack.
pub open spec fn statement(stmt: Expr) -> Option<Seq<Instr>> {
    match code(stmt) {
        Some(instrs) => if stmt is Return {
            Some(instrs)
        } else {
            Some(instrs.push(Instr::PopRax))
        },
        None => None,
    }
}

/// The instructions of a sequence of statements, in order.
pub open spec fn body(stmts: Seq<Expr>) -> Option<Seq<Instr>>
    decreases stmts.len(),
{
    if stmts.len() == 0 {
        Some(Seq::empty())
    } else {
        match (body(stmts.drop_last()), statement(stmts.last())) {
            (Some(before), Some(instrs)) => Some(before + instrs),
            _ => None,
        }
    }
}

/// The instructions of a program: the prologue, the statements and the
/// epilogue.
pub open spec fn program_code(stmts: Seq<Expr>) -> Option<Seq<Instr>> {
    match body(stmts) {
        Some(instrs) => Some(prologue() + instrs + epilogue()),
        None => None,
    }
}

/// The assembly text of a program: the header, and the text of its
/// instructions.
pub open spec fn program_text(stmts: Seq<Expr>) -> Option<Seq<char>> {
    match program_code(stmts) {
        Some(instrs) => Some(header() + render(instrs)),
        None => None,
    }
}

/// Appends the line of one instruction.
pub fn write_line(out: &mut String, instr: Instr)
    ensures
        final(out)@ == old(out)@ + line(instr),
{
    match instr {
        Instr::PushImm(value) => {
            out.append("  push ");
            push_decimal(out, value);
            out.append("\n");
            proof {
                assert(out@ =~= old(out)@ + line(instr));
            }
        },
        Instr::PushRax => out.append("  push rax\n"),
        Instr::PushRdi => out.append("  push rdi\n"),
        Instr::PushRbp => out.append("  push rbp\n"),
        Instr::PopRax => out.append("  pop rax\n"),
        Instr::PopRdi => out.append("  pop rdi\n"),
        Instr::PopRbp => out.append("  pop rbp\n"),
        Instr::MovRaxRbp => out.append("  mov rax, rbp\n"),
        Instr::MovRbpRsp => out.append("  mov rbp, rsp\n"),
        Instr::MovRspRbp => out.append("  mov rsp, rbp\n"),
        Instr::SubRaxImm(value) => {
            out.append("  sub rax, ");
            push_decimal(out, value as i64);
            out.append("\n");
            proof {
                assert(out@ =~= old(out)@ + line(instr));
            }
        },
        Instr::SubRspImm(value) => {
            out.append("  sub rsp, ");
            push_decimal(out, value as i64);
            out.append("\n");
            proof {
                assert(out@ =~= old(out)@ + line(instr));
            }
        },
        Instr::Load => out.append("  mov rax, [rax]\n"),
        Instr::Store => out.append("  mov [rax], rdi\n"),
        Instr::Add => out.append("  add rax, rdi\n"),
        Instr::Sub => out.append("  sub rax, rdi\n"),
        Instr::Imul => out.append("  imul rax, rdi\n"),
        Instr::Cqo => out.append("  cqo\n"),
        Instr::Idiv => out.append("  idiv rdi\n"),
        Instr::Cmp => out.append("  cmp rax, rdi\n"),
        Instr::Sete => out.append("  sete al\n"),
        Instr::Setne => out.append("  setne al\n"),
        Instr::Setl => out.append("  setl al\n"),
        Instr::Setle => out.append("  setle al\n"),
        Instr::Movzb => out.append("  movzb rax, al\n"),
        Instr::Ret => out.append("  ret\n"),
    }
}

/// Appends the lines of some instructions, in order.
pub fn write_all(out: &mut String, instrs: &Vec<Instr>)
    ensures
        final(out)@ == old(out)@ + render(instrs@),
{
    let mut i: usize = 0;
    proof {
        assert(old(out)@ + render(instrs@.take(0)) =~= old(out)@);
    }
    while i < instrs.len()
        invariant
            i <= instrs@.len(),
            out@ == old(out)@ + render(instrs@.take(i as int)),
        decreases instrs@.len() - i,
    {
        write_line(out, instrs[i]);
        proof {
            lemma_render_push(instrs@.take(i as int), instrs@[i as int]);
            assert(instrs@.take(i as int).push(instrs@[i as int]) =~= instrs@.take(i + 1));
            assert(old(out)@ + render(instrs@.take(i as int)) + line(instrs@[i as int]) =~= old(
                out,
            )@ + (render(instrs@.take(i as int)) + line(instrs@[i as int])));
        }
        i += 1;
    }
    proof {
        assert(instrs@.take(instrs@.len() as int) =~= instrs@);
    }
}

/// The instructions that apply an operator.
pub fn apply_code(kind: BinOpKind) -> (instrs: Vec<Instr>)
    ensures
        instrs@ == apply(kind),
{
    let instrs = match kind {
        BinOpKind::Add => vec![Instr::Add],
        BinOpKind::Sub => vec![Instr::Sub],
        BinOpKind::Mul => vec![Instr::Imul],
        BinOpKind::Quo => vec![Instr::Cqo, Instr::Idiv],
        BinOpKind::EQ => vec![Instr::Cmp, Instr::Sete, Instr::Movzb],
        BinOpKind::NEQ => vec![Instr::Cmp, Instr::Setne, Instr::Movzb],
        BinOpKind::LSS => vec![Instr::Cmp, Instr::Setl, Instr::Movzb],
        BinOpKind::LEQ => vec![Instr::Cmp, Instr::Setle, Instr::Movzb],
    };
    proof {
        assert(instrs@ =~= apply(kind));
    }
    instrs
}

/// Appends the text that pushes the address of the slot at `offset`.
pub fn write_address(out: &mut String, offset: i32)
    ensures
        final(out)@ == old(out)@ + render(address(offset)),
{
    let instrs = vec![Instr::MovRaxRbp, Instr::SubRaxImm(offset), Instr::PushRax];
    proof {
        assert(instrs@ =~= address(offset));
    }
    write_all(out, &instrs);
}

/// Appends the text that replaces an address on the stack by the value
/// stored there.
pub fn write_load(out: &mut String)
    ensures
        final(out)@ == old(out)@ + render(load()),
{
    let instrs = vec![Instr::PopRax, Instr::Load, Instr::PushRax];
    proof {
        assert(instrs@ =~= load());
    }
    write_all(out, &instrs);
}

/// Appends the text that stores the value on the stack at the address
/// below it.
pub fn write_store(out: &mut String)
    ensures
        final(out)@ == old(out)@ + render(store()),
{
    let instrs = vec![Instr::PopRdi, Instr::PopRax, Instr::Store, Instr::PushRdi];
    proof {
        assert(instrs@ =~= store());
    }
    write_all(out, &instrs);
}

/// Appends the text that returns the value on the stack to the caller.
pub fn write_leave(out: &mut String)
    ensures
        final(out)@ == old(out)@ + render(leave()),
{
    let instrs = vec![Instr::PopRax, Instr::MovRspRbp, Instr::PopRbp, Instr::Ret];
    proof {
        assert(instrs@ =~= leave());
    }
    write_all(out, &instrs);
}

/// Appends the text that applies an operator to the two values on the
/// stack and pushes the result.
pub fn write_operation(out: &mut String, kind: BinOpKind)
    ensures
        final(out)@ == old(out)@ + render(pop_operands() + apply(kind) + seq![Instr::PushRax]),
{
    let operands = vec![Instr::PopRdi, Instr::PopRax];
    let result = vec![Instr::PushRax];
    proof {
        assert(operands@ =~= pop_operands());
        assert(result@ =~= seq![Instr::PushRax]);
        lemma_render_concat(pop_operands(), apply(kind));
        lemma_render_concat(pop_operands() + apply(kind), seq![Instr::PushRax]);
    }
    write_all(out, &operands);
    write_all(out, &apply_code(kind));
    write_all(out, &result);
    proof {
        assert(out@ =~= old(out)@ + (render(pop_operands()) + render(apply(kind)) + render(
            seq![Instr::PushRax],
        )));
    }
}

} // verus!
