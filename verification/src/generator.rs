//! The code generator over located trees.

use crate::assembly::{
    address, apply, body, emit, emit_address, epilogue, header, leave, lemma_render_concat,
    lemma_render_push, load, place, pop_operands, program_text, prologue, render, statement, store,
    write_address, write_all, write_leave, write_line, write_load, write_operation, write_store,
    Expr, Instr, FRAME_SIZE,
};
use crate::parser::{Node, NodeKind};
use vstd::prelude::*;

verus! {

#[derive(Debug, PartialEq, Eq, Structural, Clone, Copy)]
pub enum CodegenError {
    /// Something other than a variable is assigned to.
    NotLvalue,
}

/// What a generator owes: the text of the model, or the error where the
/// model has none.
pub open spec fn generated(model: Option<Seq<char>>, r: Result<String, CodegenError>) -> bool {
    match model {
        Some(text) => match r {
            Ok(code) => code@ == text,
            Err(_) => false,
        },
        None => r == Err::<String, CodegenError>(CodegenError::NotLvalue),
    }
}

/// The expressions that a sequence of trees stands for.
pub open spec fn exprs(code: Seq<Node>) -> Seq<Expr> {
    Seq::new(code.len(), |i: int| code[i].erase())
}

/// The assembly text of a program: the header, the prologue, the code of
/// each statement in order, and the epilogue.
pub fn code_gen(code: Vec<Node>) -> (r: Result<String, CodegenError>)
    ensures
        generated(program_text(exprs(code@)), r),
{
    let mut out: String = ".intel_syntax noprefix\n.global main\nmain:\n".to_owned();
    let opening = vec![Instr::PushRbp, Instr::MovRbpRsp, Instr::SubRspImm(FRAME_SIZE)];
    let closing = vec![Instr::MovRspRbp, Instr::PopRbp, Instr::Ret];
    proof {
        assert(opening@ =~= prologue());
        assert(closing@ =~= epilogue());
    }
    write_all(&mut out, &opening);
    let ghost stmts = exprs(code@);
    let mut i: usize = 0;
    proof {
        assert(stmts.take(0) =~= Seq::<Expr>::empty());
        assert(prologue() + Seq::<Instr>::empty() =~= prologue());
    }
    while i < code.len()
        invariant
            i <= code@.len(),
            stmts == exprs(code@),
            match body(stmts.take(i as int)) {
                Some(instrs) => out@ == header() + render(prologue() + instrs),
                None => false,
            },
        decreases code@.len() - i,
    {
        let ghost before = body(stmts.take(i as int))->0;
        proof {
            assert(stmts.take(i + 1).drop_last() =~= stmts.take(i as int));
            assert(stmts.take(i + 1).last() == code@[i as int].erase());
        }
        match gen(&code[i]) {
            Ok(text) => {
                out.append(text.as_str());
                match &code[i].value {
                    NodeKind::Return(_) => {},
                    _ => {
                        write_line(&mut out, Instr::PopRax);
                    },
                }
                proof {
                    let added = statement(stmts[i as int])->0;
                    let value = crate::assembly::code(stmts[i as int])->0;
                    lemma_render_push(value, Instr::PopRax);
                    lemma_render_concat(prologue() + before, added);
                    assert(prologue() + before + added =~= prologue() + (before + added));
                    assert(out@ =~= header() + (render(prologue() + before) + render(added)));
                }
            },
            Err(error) => {
                proof {
                    lemma_body_fails(stmts, i as int);
                }
                return Err(error);
            },
        }
        i += 1;
    }
    proof {
        assert(stmts.take(code@.len() as int) =~= stmts);
        let instrs = body(stmts)->0;
        lemma_render_concat(prologue() + instrs, epilogue());
        assert(out@ + render(epilogue()) =~= header() + (render(prologue() + instrs) + render(
            epilogue(),
        )));
    }
    write_all(&mut out, &closing);
    Ok(out)
}

/// A program has no code where one of its statements has none.
pub proof fn lemma_body_fails(stmts: Seq<Expr>, i: int)
    requires
        0 <= i < stmts.len(),
        statement(stmts[i]) is None,
    ensures
        body(stmts) is None,
    decreases stmts.len(),
{
    if i < stmts.len() - 1 {
        lemma_body_fails(stmts.drop_last(), i);
    }
}

/// The text that pushes the value of a tree, operands first.
pub fn gen(node: &Node) -> (r: Result<String, CodegenError>)
    ensures
        generated(emit(node.erase()), r),
    decreases node,
{
    match &node.value {
        NodeKind::Return(expr) => {
            let mut out = match gen(expr) {
                Ok(value) => value,
                Err(error) => {
                    return Err(error);
                },
            };
            write_leave(&mut out);
            proof {
                lemma_render_concat(crate::assembly::code(expr.erase())->0, leave());
            }
            Ok(out)
        },
        NodeKind::Int(n) => {
            let mut out = String::new();
            write_line(&mut out, Instr::PushImm(*n));
            proof {
                lemma_render_push(Seq::empty(), Instr::PushImm(*n));
                assert(Seq::<Instr>::empty().push(Instr::PushImm(*n)) =~= seq![
                    Instr::PushImm(*n),
                ]);
                assert(out@ =~= render(seq![Instr::PushImm(*n)]));
            }
            Ok(out)
        },
        NodeKind::LocalVariable(offset) => {
            let mut out = match gen_lval(node) {
                Ok(target) => target,
                Err(error) => {
                    return Err(error);
                },
            };
            write_load(&mut out);
            proof {
                lemma_render_concat(address(*offset), load());
            }
            Ok(out)
        },
        NodeKind::Assign { lhs, rhs } => {
            let mut out = match gen_lval(lhs) {
                Ok(target) => target,
                Err(error) => {
                    return Err(error);
                },
            };
            let value = match gen(rhs) {
                Ok(value) => value,
                Err(error) => {
                    return Err(error);
                },
            };
            out.append(value.as_str());
            write_store(&mut out);
            proof {
                let target = place(lhs.erase())->0;
                let pushed = crate::assembly::code(rhs.erase())->0;
                lemma_render_concat(target, pushed);
                lemma_render_concat(target + pushed, store());
            }
            Ok(out)
        },
        NodeKind::BinOp { op, lhs, rhs } => {
            let mut out = match gen(lhs) {
                Ok(left) => left,
                Err(error) => {
                    return Err(error);
                },
            };
            let right = match gen(rhs) {
                Ok(right) => right,
                Err(error) => {
                    return Err(error);
                },
            };
            out.append(right.as_str());
            write_operation(&mut out, op.value);
            proof {
                let left = crate::assembly::code(lhs.erase())->0;
                let pushed = crate::assembly::code(rhs.erase())->0;
                let tail = pop_operands() + apply(op.value) + seq![Instr::PushRax];
                lemma_render_concat(left, pushed);
                lemma_render_concat(left + pushed, tail);
                assert(left + pushed + tail =~= left + pushed + pop_operands() + apply(op.value)
                    + seq![Instr::PushRax]);
            }
            Ok(out)
        },
    }
}

/// The text that pushes the address of a tree: only a variable has one.
pub fn gen_lval(node: &Node) -> (r: Result<String, CodegenError>)
    ensures
        generated(emit_address(node.erase()), r),
{
    match &node.value {
        NodeKind::LocalVariable(offset) => {
            let mut out = String::new();
            write_address(&mut out, *offset);
            proof {
                assert(Seq::<char>::empty() + render(address(*offset)) =~= render(
                    address(*offset),
                ));
            }
            Ok(out)
        },
        _ => Err(CodegenError::NotLvalue),
    }
}

} // verus!
