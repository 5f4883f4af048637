//! What the generated code does: a model of the machine for the
//! instructions that the generators use, the meaning of expressions, and
//! the proof that the code of a program computes the program.
//!
//! The model keeps what the generated code can observe. Memory is a map
//! from addresses to 64-bit words: the code reads and writes whole words
//! at the stack pointer and at the slots of the frame, which never overlap
//! in part. The stack has no end. A `ret` ends the run with the value in
//! `rax`; what the caller does with it is not part of the model.

use crate::assembly::{
    address, apply, body, code, epilogue, leave, load, pop_operands, program_code, prologue,
    statement, store, Expr, Instr, FRAME_SIZE,
};
use crate::parser::BinOpKind;
use vstd::prelude::*;

verus! {

/// The registers and the memory that the generated code touches. Memory
/// holds one 64-bit word at each address it is asked for.
pub struct Machine {
    pub rax: i64,
    pub rdi: i64,
    pub rdx: i64,
    pub rbp: int,
    pub rsp: int,
    /// The operands of the last `cmp`.
    pub compared: (i64, i64),
    /// The low byte of `rax` as the last `set` instruction left it.
    pub al: bool,
    pub mem: Map<int, i64>,
}

/// How a run ends, or that it has not ended.
pub enum Outcome {
    /// The instructions are done and the machine goes on.
    Running(Machine),
    /// A `ret` was reached with this value in `rax`.
    Returned(i64),
    /// A division trapped.
    Fault,
}

/// The quotient of a division that truncates toward zero.
#[verifier::opaque]
pub open spec fn quotient(dividend: int, divisor: int) -> int
    recommends
        divisor != 0,
{
    if dividend >= 0 {
        if divisor > 0 {
            dividend / divisor
        } else {
            -(dividend / (-divisor))
        }
    } else {
        if divisor > 0 {
            -((-dividend) / divisor)
        } else {
            (-dividend) / (-divisor)
        }
    }
}

/// The 128-bit number that `rdx:rax` holds.
pub open spec fn wide(rdx: i64, rax: i64) -> int {
    rdx * 0x1_0000_0000_0000_0000 + if rax < 0 {
        rax + 0x1_0000_0000_0000_0000
    } else {
        rax as int
    }
}

pub open spec fn push(m: Machine, value: i64) -> Machine {
    Machine { rsp: m.rsp - 8, mem: m.mem.insert(m.rsp - 8, value), ..m }
}

pub open spec fn top(m: Machine) -> i64 {
    m.mem[m.rsp]
}

pub open spec fn pop(m: Machine) -> Machine {
    Machine { rsp: m.rsp + 8, ..m }
}

/// What one instruction does.
pub open spec fn step(m: Machine, instr: Instr) -> Outcome {
    match instr {
        Instr::PushImm(value) => Outcome::Running(push(m, value)),
        Instr::PushRax => Outcome::Running(push(m, m.rax)),
        Instr::PushRdi => Outcome::Running(push(m, m.rdi)),
        Instr::PushRbp => Outcome::Running(push(m, m.rbp as i64)),
        Instr::PopRax => Outcome::Running(Machine { rax: top(m), ..pop(m) }),
        Instr::PopRdi => Outcome::Running(Machine { rdi: top(m), ..pop(m) }),
        Instr::PopRbp => Outcome::Running(Machine { rbp: top(m) as int, ..pop(m) }),
        Instr::MovRaxRbp => Outcome::Running(Machine { rax: m.rbp as i64, ..m }),
        Instr::MovRbpRsp => Outcome::Running(Machine { rbp: m.rsp, ..m }),
        Instr::MovRspRbp => Outcome::Running(Machine { rsp: m.rbp, ..m }),
        Instr::SubRaxImm(value) => Outcome::Running(
            Machine { rax: m.rax.wrapping_sub(value as i64), ..m },
        ),
        Instr::SubRspImm(value) => Outcome::Running(Machine { rsp: m.rsp - value, ..m }),
        Instr::Load => Outcome::Running(Machine { rax: m.mem[m.rax as int], ..m }),
        Instr::Store => Outcome::Running(Machine { mem: m.mem.insert(m.rax as int, m.rdi), ..m }),
        Instr::Add => Outcome::Running(Machine { rax: m.rax.wrapping_add(m.rdi), ..m }),
        Instr::Sub => Outcome::Running(Machine { rax: m.rax.wrapping_sub(m.rdi), ..m }),
        Instr::Imul => Outcome::Running(Machine { rax: m.rax.wrapping_mul(m.rdi), ..m }),
        Instr::Cqo => Outcome::Running(
            Machine {
                rdx: if m.rax < 0 {
                    -1i64
                } else {
                    0i64
                },
                ..m
            },
        ),
        Instr::Idiv => if m.rdi == 0 {
            Outcome::Fault
        } else {
            let q = quotient(wide(m.rdx, m.rax), m.rdi as int);
            if q < i64::MIN || q > i64::MAX {
                Outcome::Fault
            } else {
                Outcome::Running(
                    Machine { rax: q as i64, rdx: (wide(m.rdx, m.rax) - q * m.rdi) as i64, ..m },
                )
            }
        },
        Instr::Cmp => Outcome::Running(Machine { compared: (m.rax, m.rdi), ..m }),
        Instr::Sete => Outcome::Running(Machine { al: m.compared.0 == m.compared.1, ..m }),
        Instr::Setne => Outcome::Running(Machine { al: m.compared.0 != m.compared.1, ..m }),
        Instr::Setl => Outcome::Running(Machine { al: m.compared.0 < m.compared.1, ..m }),
        Instr::Setle => Outcome::Running(Machine { al: m.compared.0 <= m.compared.1, ..m }),
        Instr::Movzb => Outcome::Running(
            Machine {
                rax: if m.al {
                    1i64
                } else {
                    0i64
                },
                ..m
            },
        ),
        Instr::Ret => Outcome::Returned(m.rax),
    }
}

/// What the instructions from the `at`-th on do, one after the other.
pub open spec fn run_from(instrs: Seq<Instr>, at: int, m: Machine) -> Outcome
    decreases instrs.len() - at,
{
    if at < 0 || at >= instrs.len() {
        Outcome::Running(m)
    } else {
        match step(m, instrs[at]) {
            Outcome::Running(next) => run_from(instrs, at + 1, next),
            ended => ended,
        }
    }
}

/// What a sequence of instructions does.
pub open spec fn run(instrs: Seq<Instr>, m: Machine) -> Outcome {
    run_from(instrs, 0, m)
}

/// What follows a run that has not ended.
pub open spec fn and_then(first: Outcome, second: Seq<Instr>) -> Outcome {
    match first {
        Outcome::Running(m) => run(second, m),
        ended => ended,
    }
}

/// Behind the first of two sequences the second runs as it does alone.
pub proof fn lemma_run_second(first: Seq<Instr>, second: Seq<Instr>, at: int, m: Machine)
    requires
        0 <= at <= second.len(),
    ensures
        run_from(first + second, first.len() + at, m) == run_from(second, at, m),
    decreases second.len() - at,
{
    if at < second.len() {
        assert((first + second)[first.len() + at] == second[at]);
        match step(m, second[at]) {
            Outcome::Running(next) => {
                lemma_run_second(first, second, at + 1, next);
            },
            _ => {},
        }
    }
}

/// Two sequences in a row run one after the other.
pub proof fn lemma_run_first(first: Seq<Instr>, second: Seq<Instr>, at: int, m: Machine)
    requires
        0 <= at <= first.len(),
    ensures
        run_from(first + second, at, m) == and_then(run_from(first, at, m), second),
    decreases first.len() - at,
{
    if at < first.len() {
        assert((first + second)[at] == first[at]);
        match step(m, first[at]) {
            Outcome::Running(next) => {
                lemma_run_first(first, second, at + 1, next);
            },
            _ => {},
        }
    } else {
        lemma_run_second(first, second, 0, m);
    }
}

/// Two sequences in a row run one after the other.
pub proof fn lemma_run_concat(first: Seq<Instr>, second: Seq<Instr>, m: Machine)
    ensures
        run(first + second, m) == and_then(run(first, m), second),
{
    lemma_run_first(first, second, 0, m);
}

/// The values of the variables, by the offsets of their slots.
pub type Env = Map<i32, i64>;

/// What an expression comes to.
pub enum Value {
    /// It has a value, and leaves the variables so.
    Done(i64, Env),
    /// A `return` in it ends the program with this value.
    Returned(i64),
    /// A division in it has no result.
    Fault,
}

/// The result of an operator: arithmetic wraps, division truncates toward
/// zero and has no result for a zero divisor or a quotient that does not
/// fit, a comparison gives 1 or 0.
pub open spec fn compute(kind: BinOpKind, a: i64, b: i64) -> Option<i64> {
    match kind {
        BinOpKind::Add => Some(a.wrapping_add(b)),
        BinOpKind::Sub => Some(a.wrapping_sub(b)),
        BinOpKind::Mul => Some(a.wrapping_mul(b)),
        BinOpKind::Quo => if b == 0 || (a == i64::MIN && b == -1) {
            None
        } else {
            Some(quotient(a as int, b as int) as i64)
        },
        BinOpKind::EQ => Some(
            if a == b {
                1i64
            } else {
                0i64
            },
        ),
        BinOpKind::NEQ => Some(
            if a != b {
                1i64
            } else {
                0i64
            },
        ),
        BinOpKind::LSS => Some(
            if a < b {
                1i64
            } else {
                0i64
            },
        ),
        BinOpKind::LEQ => Some(
            if a <= b {
                1i64
            } else {
                0i64
            },
        ),
    }
}

/// The meaning of an expression: operands are evaluated from left to
/// right, an assignment stores the value of its right side and has that
/// value, and a `return` ends the program.
pub open spec fn eval(expr: Expr, env: Env) -> Value
    decreases expr,
{
    match expr {
        Expr::Int(value) => Value::Done(value, env),
        Expr::Var(offset) => Value::Done(env[offset], env),
        Expr::Assign(lhs, rhs) => match eval(*rhs, env) {
            Value::Done(value, after) => match *lhs {
                Expr::Var(offset) => Value::Done(value, after.insert(offset, value)),
                _ => Value::Fault,
            },
            ended => ended,
        },
        Expr::Return(result) => match eval(*result, env) {
            Value::Done(value, _) => Value::Returned(value),
            ended => ended,
        },
        Expr::Binary(kind, lhs, rhs) => match eval(*lhs, env) {
            Value::Done(a, first) => match eval(*rhs, first) {
                Value::Done(b, second) => match compute(kind, a, b) {
                    Some(value) => Value::Done(value, second),
                    None => Value::Fault,
                },
                ended => ended,
            },
            ended => ended,
        },
    }
}

/// Whether an offset is that of a slot in the frame.
pub open spec fn slot_offset(offset: int) -> bool {
    8 <= offset <= FRAME_SIZE && offset % 8 == 0
}

/// Whether every variable of an expression lies in the frame.
pub open spec fn framed(expr: Expr) -> bool
    decreases expr,
{
    match expr {
        Expr::Int(_) => true,
        Expr::Var(offset) => slot_offset(offset as int),
        Expr::Assign(lhs, rhs) => framed(*lhs) && framed(*rhs),
        Expr::Return(result) => framed(*result),
        Expr::Binary(_, lhs, rhs) => framed(*lhs) && framed(*rhs),
    }
}

/// Whether the machine stands in a frame: the frame base is an address
/// that fits, and the stack pointer lies below the variables.
pub open spec fn in_frame(m: Machine) -> bool {
    i64::MIN + FRAME_SIZE <= m.rbp <= i64::MAX && m.rsp <= m.rbp - FRAME_SIZE
}

/// Whether the slots of the frame hold the values of the variables.
pub open spec fn holds(m: Machine, env: Env) -> bool {
    forall|offset: i32|
        slot_offset(offset as int) ==> m.mem[m.rbp - offset] == #[trigger] env[offset]
}

/// Whether an address is that of a slot in the frame.
pub open spec fn slot_address(m: Machine, a: int) -> bool {
    slot_offset(m.rbp - a)
}

/// Whether a run has kept the frame base and every word at or above the
/// old stack pointer that is no variable.
pub open spec fn preserved(before: Machine, m: Machine) -> bool {
    &&& m.rbp == before.rbp
    &&& forall|a: int|
        a >= before.rsp && !slot_address(before, a) ==> #[trigger] m.mem[a] == before.mem[a]
}

/// Whether a run does what an expression comes to: the value is pushed,
/// the variables hold what the expression leaves, and nothing else above
/// the stack pointer has changed; or the run returns the value; or it
/// traps.
pub open spec fn computes(value: Value, outcome: Outcome, before: Machine) -> bool {
    match value {
        Value::Done(v, after) => match outcome {
            Outcome::Running(m) => m.rsp == before.rsp - 8 && top(m) == v && holds(m, after)
                && preserved(before, m),
            _ => false,
        },
        Value::Returned(v) => outcome == Outcome::Returned(v),
        Value::Fault => outcome == Outcome::Fault,
    }
}

/// The address of a slot is pushed, and left in `rax`.
pub proof fn lemma_run_address(m: Machine, offset: i32)
    requires
        in_frame(m),
        slot_offset(offset as int),
    ensures
        run(address(offset), m) == Outcome::Running(
            push(Machine { rax: (m.rbp - offset) as i64, ..m }, (m.rbp - offset) as i64),
        ),
{
    reveal_with_fuel(run_from, 4);
}

/// The address on the stack is replaced by the word stored there.
pub proof fn lemma_run_load(m: Machine)
    ensures
        run(load(), m) == Outcome::Running(
            push(Machine { rax: m.mem[top(m) as int], ..pop(m) }, m.mem[top(m) as int]),
        ),
{
    reveal_with_fuel(run_from, 4);
}

/// The value on the stack is stored at the address below it, and stays on
/// the stack alone.
pub proof fn lemma_run_store(m: Machine)
    ensures
        run(store(), m) == Outcome::Running(
            push(
                Machine {
                    rax: m.mem[m.rsp + 8],
                    rdi: top(m),
                    rsp: m.rsp + 16,
                    mem: m.mem.insert(m.mem[m.rsp + 8] as int, top(m)),
                    ..m
                },
                top(m),
            ),
        ),
{
    reveal_with_fuel(run_from, 5);
}

/// The value on the stack is returned.
pub proof fn lemma_run_leave(m: Machine)
    ensures
        run(leave(), m) == Outcome::Returned(top(m)),
{
    reveal_with_fuel(run_from, 5);
}

/// A quotient fits in 64 bits unless the smallest number is divided by -1.
pub proof fn lemma_quotient_fits(a: i64, b: i64)
    requires
        b != 0,
    ensures
        (a == i64::MIN && b == -1) <==> !(i64::MIN <= quotient(a as int, b as int) <= i64::MAX),
{
    reveal(quotient);
    let (x, y) = (a as int, b as int);
    if x >= 0 && y > 0 {
        assert(0 <= x / y <= x) by (nonlinear_arith)
            requires
                x >= 0,
                y > 0,
        ;
    } else if x >= 0 {
        assert(0 <= x / (-y) <= x) by (nonlinear_arith)
            requires
                x >= 0,
                -y > 0,
        ;
    } else if y > 0 {
        assert(0 <= (-x) / y <= -x) by (nonlinear_arith)
            requires
                -x >= 0,
                y > 0,
        ;
    } else {
        assert(0 <= (-x) / (-y) <= -x) by (nonlinear_arith)
            requires
                -x >= 0,
                -y > 0,
        ;
        if y == -1 {
            assert((-x) / 1 == -x);
        } else {
            assert((-x) / (-y) < -x) by (nonlinear_arith)
                requires
                    -x > 0,
                    -y > 1,
            ;
        }
    }
}

/// One instruction alone runs as one step.
pub proof fn lemma_run_one(instr: Instr, m: Machine)
    ensures
        run(seq![instr], m) == step(m, instr),
{
    reveal_with_fuel(run_from, 2);
}

/// A comparison leaves in `rax` whether its condition holds of `rax` and
/// `rdi`.
pub proof fn lemma_run_compare(set: Instr, m: Machine)
    requires
        set == Instr::Sete || set == Instr::Setne || set == Instr::Setl || set == Instr::Setle,
    ensures
        match run(seq![Instr::Cmp, set, Instr::Movzb], m) {
            Outcome::Running(after) => after.rsp == m.rsp && after.rbp == m.rbp && after.mem
                == m.mem && after.rax == (if (match set {
                Instr::Sete => m.rax == m.rdi,
                Instr::Setne => m.rax != m.rdi,
                Instr::Setl => m.rax < m.rdi,
                _ => m.rax <= m.rdi,
            }) {
                1i64
            } else {
                0i64
            }),
            _ => false,
        },
{
    let code = seq![Instr::Cmp, set, Instr::Movzb];
    let compared = Machine { compared: (m.rax, m.rdi), ..m };
    assert(step(m, code[0]) == Outcome::Running(compared));
    let flagged = step(compared, code[1])->Running_0;
    let moved = step(flagged, code[2])->Running_0;
    assert(run_from(code, 3, moved) == Outcome::Running(moved));
    assert(run_from(code, 2, flagged) == Outcome::Running(moved));
    assert(run_from(code, 1, compared) == Outcome::Running(moved));
    assert(run_from(code, 0, m) == Outcome::Running(moved));
}

/// The sign of `rax` is extended and `rax` is divided by `rdi`; the
/// machine traps where the division has no result.
#[verifier::spinoff_prover]
pub proof fn lemma_run_divide(m: Machine)
    ensures
        match compute(BinOpKind::Quo, m.rax, m.rdi) {
            Some(value) => match run(apply(BinOpKind::Quo), m) {
                Outcome::Running(after) => after.rax == value && after.rsp == m.rsp && after.rbp
                    == m.rbp && after.mem == m.mem,
                _ => false,
            },
            None => run(apply(BinOpKind::Quo), m) == Outcome::Fault,
        },
{
    let extended = Machine {
        rdx: if m.rax < 0 {
            -1i64
        } else {
            0i64
        },
        ..m
    };
    assert(run(apply(BinOpKind::Quo), m) == step(extended, Instr::Idiv)) by {
        reveal_with_fuel(run_from, 3);
    }
    assert(wide(extended.rdx, extended.rax) == m.rax);
    if m.rdi != 0 {
        lemma_quotient_fits(m.rax, m.rdi);
    }
}

/// The operator is applied to `rax` and `rdi`, and the result is left in
/// `rax`; or the machine traps where the operator has no result.
#[verifier::spinoff_prover]
pub proof fn lemma_run_apply(kind: BinOpKind, m: Machine)
    ensures
        match compute(kind, m.rax, m.rdi) {
            Some(value) => match run(apply(kind), m) {
                Outcome::Running(after) => after.rax == value && after.rsp == m.rsp && after.rbp
                    == m.rbp && after.mem == m.mem,
                _ => false,
            },
            None => run(apply(kind), m) == Outcome::Fault,
        },
{
    match kind {
        BinOpKind::Quo => {
            lemma_run_divide(m);
        },
        BinOpKind::Add => {
            lemma_run_one(Instr::Add, m);
        },
        BinOpKind::Sub => {
            lemma_run_one(Instr::Sub, m);
        },
        BinOpKind::Mul => {
            lemma_run_one(Instr::Imul, m);
        },
        BinOpKind::EQ => {
            lemma_run_compare(Instr::Sete, m);
        },
        BinOpKind::NEQ => {
            lemma_run_compare(Instr::Setne, m);
        },
        BinOpKind::LSS => {
            lemma_run_compare(Instr::Setl, m);
        },
        BinOpKind::LEQ => {
            lemma_run_compare(Instr::Setle, m);
        },
    }
}

/// The two values on the stack are replaced by the result of the
/// operator, or the machine traps where the operator has no result.
#[verifier::spinoff_prover]
pub proof fn lemma_run_operation(kind: BinOpKind, m: Machine)
    ensures
        match compute(kind, m.mem[m.rsp + 8], top(m)) {
            Some(value) => match run(pop_operands() + apply(kind) + seq![Instr::PushRax], m) {
                Outcome::Running(after) => after.rsp == m.rsp + 8 && after.rbp == m.rbp
                    && after.mem == m.mem.insert(m.rsp + 8, value),
                _ => false,
            },
            None => run(pop_operands() + apply(kind) + seq![Instr::PushRax], m)
                == Outcome::Fault,
        },
{
    let popped = Machine { rax: m.mem[m.rsp + 8], rdi: top(m), rsp: m.rsp + 16, ..m };
    assert(run(pop_operands(), m) == Outcome::Running(popped)) by {
        reveal_with_fuel(run_from, 3);
    }
    lemma_run_concat(pop_operands(), apply(kind), m);
    lemma_run_concat(pop_operands() + apply(kind), seq![Instr::PushRax], m);
    lemma_run_apply(kind, popped);
    match run(apply(kind), popped) {
        Outcome::Running(applied) => {
            assert(run(seq![Instr::PushRax], applied) == Outcome::Running(
                push(applied, applied.rax),
            )) by {
                reveal_with_fuel(run_from, 2);
            }
        },
        _ => {},
    }
}

/// The machine after the address of a slot was pushed.
pub open spec fn addressed(m: Machine, offset: i32) -> Machine {
    push(Machine { rax: (m.rbp - offset) as i64, ..m }, (m.rbp - offset) as i64)
}

/// A constant is pushed.
#[verifier::spinoff_prover]
pub proof fn lemma_constant(value: i64, m: Machine, env: Env)
    requires
        in_frame(m),
        holds(m, env),
    ensures
        computes(Value::Done(value, env), run(seq![Instr::PushImm(value)], m), m),
{
    lemma_run_one(Instr::PushImm(value), m);
}

/// The value of a variable is pushed.
#[verifier::spinoff_prover]
pub proof fn lemma_variable(offset: i32, m: Machine, env: Env)
    requires
        in_frame(m),
        holds(m, env),
        slot_offset(offset as int),
    ensures
        computes(Value::Done(env[offset], env), run(address(offset) + load(), m), m),
{
    lemma_run_address(m, offset);
    lemma_run_load(addressed(m, offset));
    lemma_run_concat(address(offset), load(), m);
}

/// What an assignment to the variable at `offset` comes to, given what
/// its right side comes to.
pub open spec fn assigned(right: Value, offset: i32) -> Value {
    match right {
        Value::Done(value, after) => Value::Done(value, after.insert(offset, value)),
        ended => ended,
    }
}

/// The value of the right side is stored in the variable and stays on the
/// stack.
#[verifier::spinoff_prover]
pub proof fn lemma_assignment(offset: i32, value: Seq<Instr>, right: Value, m: Machine)
    requires
        in_frame(m),
        slot_offset(offset as int),
        computes(right, run(value, addressed(m, offset)), addressed(m, offset)),
    ensures
        computes(assigned(right, offset), run(address(offset) + value + store(), m), m),
{
    let pushed = addressed(m, offset);
    lemma_run_address(m, offset);
    lemma_run_concat(address(offset), value, m);
    lemma_run_concat(address(offset) + value, store(), m);
    match (right, run(value, pushed)) {
        (Value::Done(v, after), Outcome::Running(valued)) => {
            lemma_run_store(valued);
            assert(valued.mem[valued.rsp + 8] == (m.rbp - offset) as i64);
            let stored = run(store(), valued)->Running_0;
            assert(stored.rsp == m.rsp - 8);
            assert(top(stored) == v);
            assert forall|o: i32| slot_offset(o as int) implies stored.mem[stored.rbp - o]
                == #[trigger] after.insert(offset, v)[o] by {
                if o != offset {
                    assert(valued.mem[valued.rbp - o] == after[o]);
                }
            }
            assert forall|a: int|
                a >= m.rsp && !slot_address(m, a) implies #[trigger] stored.mem[a] == m.mem[a] by {
                assert(valued.mem[a] == pushed.mem[a]);
            }
        },
        _ => {},
    }
}

/// What a `return` comes to, given what its expression comes to.
pub open spec fn returned(result: Value) -> Value {
    match result {
        Value::Done(value, _) => Value::Returned(value),
        ended => ended,
    }
}

/// The value of the expression is returned.
#[verifier::spinoff_prover]
pub proof fn lemma_return(value: Seq<Instr>, result: Value, m: Machine)
    requires
        computes(result, run(value, m), m),
    ensures
        computes(returned(result), run(value + leave(), m), m),
{
    lemma_run_concat(value, leave(), m);
    match run(value, m) {
        Outcome::Running(valued) => {
            lemma_run_leave(valued);
        },
        _ => {},
    }
}

/// What an operation comes to, given what its operands come to.
pub open spec fn operated(kind: BinOpKind, left: Value, right: Value) -> Value {
    match left {
        Value::Done(a, _) => match right {
            Value::Done(b, second) => match compute(kind, a, b) {
                Some(value) => Value::Done(value, second),
                None => Value::Fault,
            },
            ended => ended,
        },
        ended => ended,
    }
}

/// The operands are pushed from left to right and replaced by the result.
#[verifier::spinoff_prover]
pub proof fn lemma_operation(
    kind: BinOpKind,
    left: Seq<Instr>,
    right: Seq<Instr>,
    lhs: Value,
    rhs: Value,
    m: Machine,
)
    requires
        in_frame(m),
        computes(lhs, run(left, m), m),
        lhs is Done ==> computes(rhs, run(right, run(left, m)->Running_0), run(left, m)->Running_0),
    ensures
        computes(
            operated(kind, lhs, rhs),
            run(left + right + pop_operands() + apply(kind) + seq![Instr::PushRax], m),
            m,
        ),
{
    let tail = pop_operands() + apply(kind) + seq![Instr::PushRax];
    assert(left + right + pop_operands() + apply(kind) + seq![Instr::PushRax] =~= left + right
        + tail);
    lemma_run_concat(left, right, m);
    lemma_run_concat(left + right, tail, m);
    match (lhs, run(left, m)) {
        (Value::Done(a, first), Outcome::Running(one)) => {
            match (rhs, run(right, one)) {
                (Value::Done(b, second), Outcome::Running(two)) => {
                    lemma_run_operation(kind, two);
                    assert(two.mem[two.rsp + 8] == a) by {
                        assert(two.mem[one.rsp] == one.mem[one.rsp]);
                    }
                    match run(tail, two) {
                        Outcome::Running(done) => {
                            let v = compute(kind, a, b)->0;
                            assert(done.mem == two.mem.insert(two.rsp + 8, v));
                            assert forall|o: i32| slot_offset(o as int) implies done.mem[done.rbp
                                - o] == #[trigger] second[o] by {
                                assert(two.mem[two.rbp - o] == second[o]);
                            }
                            assert forall|x: int|
                                x >= m.rsp && !slot_address(m, x) implies #[trigger] done.mem[x]
                                == m.mem[x] by {
                                assert(one.mem[x] == m.mem[x]);
                                assert(two.mem[x] == one.mem[x]);
                            }
                        },
                        _ => {},
                    }
                },
                _ => {},
            }
        },
        _ => {},
    }
}

/// The code of an expression computes the expression. Run on a machine
/// that stands in a frame whose slots hold the variables, the code pushes
/// the value of the expression, leaves in the slots what the expression
/// leaves in the variables, and changes nothing else at or above the stack
/// pointer; where the expression returns, the code returns the same value;
/// where a division in it has no result, the machine traps.
#[verifier::spinoff_prover]
pub proof fn law_code_computes(expr: Expr, m: Machine, env: Env)
    requires
        code(expr) is Some,
        framed(expr),
        in_frame(m),
        holds(m, env),
    ensures
        computes(eval(expr, env), run(code(expr)->0, m), m),
    decreases expr,
{
    match expr {
        Expr::Int(value) => {
            lemma_constant(value, m, env);
        },
        Expr::Var(offset) => {
            lemma_variable(offset, m, env);
        },
        Expr::Assign(lhs, rhs) => {
            let offset = lhs->Var_0;
            assert(*lhs == Expr::Var(offset));
            assert(framed(*lhs));
            lemma_run_address(m, offset);
            law_code_computes(*rhs, addressed(m, offset), env);
            lemma_assignment(offset, code(*rhs)->0, eval(*rhs, env), m);
        },
        Expr::Return(result) => {
            law_code_computes(*result, m, env);
            lemma_return(code(*result)->0, eval(*result, env), m);
        },
        Expr::Binary(kind, lhs, rhs) => {
            law_code_computes(*lhs, m, env);
            let after = match eval(*lhs, env) {
                Value::Done(_, first) => first,
                _ => env,
            };
            if eval(*lhs, env) is Done {
                law_code_computes(*rhs, run(code(*lhs)->0, m)->Running_0, after);
            }
            lemma_operation(
                kind,
                code(*lhs)->0,
                code(*rhs)->0,
                eval(*lhs, env),
                eval(*rhs, after),
                m,
            );
        },
    }
}

/// What a sequence of statements comes to.
pub enum Progress {
    /// The statements are done: the variables, and the value of the last
    /// statement if there is one.
    Going(Env, Option<i64>),
    /// A `return` ended the program with this value.
    Returned(i64),
    /// A division had no result.
    Fault,
}

/// The meaning of a sequence of statements: they are evaluated in order,
/// each with the variables that the one before left.
pub open spec fn execute(stmts: Seq<Expr>, env: Env) -> Progress
    decreases stmts.len(),
{
    if stmts.len() == 0 {
        Progress::Going(env, None)
    } else {
        match execute(stmts.drop_last(), env) {
            Progress::Going(before, _) => match eval(stmts.last(), before) {
                Value::Done(value, after) => Progress::Going(after, Some(value)),
                Value::Returned(value) => Progress::Returned(value),
                Value::Fault => Progress::Fault,
            },
            ended => ended,
        }
    }
}

/// Whether a run does what a sequence of statements comes to: the stack is
/// as it was, the variables hold what the statements leave, and `rax` holds
/// the value of the last statement; or the run returns; or it traps.
pub open spec fn performs(progress: Progress, outcome: Outcome, before: Machine) -> bool {
    match progress {
        Progress::Going(after, last) => match outcome {
            Outcome::Running(m) => {
                &&& m.rsp == before.rsp
                &&& holds(m, after)
                &&& preserved(before, m)
                &&& m.rax == match last {
                    Some(value) => value,
                    None => before.rax,
                }
            },
            _ => false,
        },
        Progress::Returned(value) => outcome == Outcome::Returned(value),
        Progress::Fault => outcome == Outcome::Fault,
    }
}

/// The code of a statement computes the statement and drops its value.
#[verifier::spinoff_prover]
pub proof fn lemma_statement(stmt: Expr, m: Machine, env: Env)
    requires
        statement(stmt) is Some,
        framed(stmt),
        in_frame(m),
        holds(m, env),
    ensures
        match eval(stmt, env) {
            Value::Done(value, after) => performs(
                Progress::Going(after, Some(value)),
                run(statement(stmt)->0, m),
                m,
            ),
            Value::Returned(value) => run(statement(stmt)->0, m) == Outcome::Returned(value),
            Value::Fault => run(statement(stmt)->0, m) == Outcome::Fault,
        },
{
    let value = code(stmt)->0;
    law_code_computes(stmt, m, env);
    if !(stmt is Return) {
        assert(value.push(Instr::PopRax) =~= value + seq![Instr::PopRax]);
        lemma_run_concat(value, seq![Instr::PopRax], m);
        match run(value, m) {
            Outcome::Running(valued) => {
                lemma_run_one(Instr::PopRax, valued);
            },
            _ => {},
        }
    }
}

/// The code of a sequence of statements performs the statements.
#[verifier::spinoff_prover]
pub proof fn lemma_statements(stmts: Seq<Expr>, m: Machine, env: Env)
    requires
        body(stmts) is Some,
        forall|i: int| 0 <= i < stmts.len() ==> framed(#[trigger] stmts[i]),
        in_frame(m),
        holds(m, env),
    ensures
        performs(execute(stmts, env), run(body(stmts)->0, m), m),
    decreases stmts.len(),
{
    if stmts.len() == 0 {
        assert(run(Seq::<Instr>::empty(), m) == Outcome::Running(m));
    } else {
        let before = stmts.drop_last();
        let last = stmts.last();
        assert forall|i: int| 0 <= i < before.len() implies framed(#[trigger] before[i]) by {
            assert(before[i] == stmts[i]);
        }
        lemma_statements(before, m, env);
        lemma_run_concat(body(before)->0, statement(last)->0, m);
        match (execute(before, env), run(body(before)->0, m)) {
            (Progress::Going(mid, _), Outcome::Running(one)) => {
                lemma_statement(last, one, mid);
                match run(statement(last)->0, one) {
                    Outcome::Running(two) => {
                        assert forall|a: int|
                            a >= m.rsp && !slot_address(m, a) implies #[trigger] two.mem[a]
                            == m.mem[a] by {
                            assert(one.mem[a] == m.mem[a]);
                        }
                    },
                    _ => {},
                }
            },
            _ => {},
        }
    }
}

/// The machine after the prologue: the caller's frame base is saved, the
/// frame base stands where the stack pointer stood, and the stack pointer
/// lies below the area of the variables.
pub open spec fn entered(m: Machine) -> Machine {
    Machine {
        rbp: m.rsp - 8,
        rsp: m.rsp - 8 - FRAME_SIZE,
        mem: m.mem.insert(m.rsp - 8, m.rbp as i64),
        ..m
    }
}

/// The prologue opens a frame.
pub proof fn lemma_run_prologue(m: Machine)
    ensures
        run(prologue(), m) == Outcome::Running(entered(m)),
{
    reveal_with_fuel(run_from, 4);
}

/// The epilogue returns what `rax` holds.
pub proof fn lemma_run_epilogue(m: Machine)
    ensures
        run(epilogue(), m) == Outcome::Returned(m.rax),
{
    reveal_with_fuel(run_from, 4);
}

/// The variables as the slots of the frame hold them.
pub open spec fn variables(m: Machine) -> Env {
    Map::new(|offset: i32| true, |offset: i32| m.mem[m.rbp - offset])
}

/// The code of a program computes the program. Called with a stack
/// pointer that leaves room for a frame, the code returns to its caller
/// with the value of the first `return` that is reached, or else with the
/// value of the last statement; it traps where a division that is reached
/// has no result. Variables that were not assigned hold what the frame
/// held.
#[verifier::spinoff_prover]
pub proof fn law_program_computes(stmts: Seq<Expr>, m: Machine)
    requires
        program_code(stmts) is Some,
        forall|i: int| 0 <= i < stmts.len() ==> framed(#[trigger] stmts[i]),
        i64::MIN + FRAME_SIZE + 8 <= m.rsp <= i64::MAX,
    ensures
        run(program_code(stmts)->0, m) == match execute(stmts, variables(entered(m))) {
            Progress::Going(_, Some(value)) => Outcome::Returned(value),
            Progress::Going(_, None) => Outcome::Returned(m.rax),
            Progress::Returned(value) => Outcome::Returned(value),
            Progress::Fault => Outcome::Fault,
        },
{
    let start = entered(m);
    let instrs = body(stmts)->0;
    lemma_run_prologue(m);
    lemma_run_concat(prologue(), instrs, m);
    lemma_run_concat(prologue() + instrs, epilogue(), m);
    lemma_statements(stmts, start, variables(start));
    match run(instrs, start) {
        Outcome::Running(done) => {
            lemma_run_epilogue(done);
        },
        _ => {},
    }
}

} // verus!
