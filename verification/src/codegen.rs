//! The code generator over the nodes of `parse`.

use crate::assembly::{
    address, apply, code, emit, emit_address, leave, lemma_render_concat, lemma_render_push, load,
    place, pop_operands, render, store, write_address, write_leave, write_line, write_load,
    write_operation, write_store, Instr,
};
use crate::error::RError;
use crate::parse::{Node, NodeKind};
use crate::parser::BinOpKind;
use vstd::prelude::*;

verus! {

/// The message for an assignment to something other than a variable.
pub open spec fn not_variable() -> Seq<char> {
    "Left value is not variable"@
}

/// Whether the node, if there is one, stands for an expression.
pub open spec fn valid(node: Option<Box<Node>>) -> bool {
    match node {
        Some(n) => n.expr() is Some,
        None => true,
    }
}

/// The code that pushes the value of the node's expression; no code for no
/// node.
pub open spec fn value_code(node: Option<Box<Node>>) -> Option<Seq<char>> {
    match node {
        Some(n) => emit(n.expr()->0),
        None => Some(Seq::empty()),
    }
}

/// The code that pushes the address of the node's expression; no code for
/// no node.
pub open spec fn address_code(node: Option<Box<Node>>) -> Option<Seq<char>> {
    match node {
        Some(n) => emit_address(n.expr()->0),
        None => Some(Seq::empty()),
    }
}

/// What a generator owes: the text of the model, or the error where the
/// model has none.
pub open spec fn generated(model: Option<Seq<char>>, r: Result<String, RError>) -> bool {
    match model {
        Some(text) => match r {
            Ok(code) => code@ == text,
            Err(_) => false,
        },
        None => match r {
            Err(RError::Codegen(message)) => message@ == not_variable(),
            _ => false,
        },
    }
}

/// The text that pushes the address of a node: only a variable has one.
pub fn gen_lval(node: &Option<Box<Node>>) -> (r: Result<String, RError>)
    requires
        valid(*node),
    ensures
        generated(address_code(*node), r),
{
    match node {
        Some(n) => {
            if n.kind != NodeKind::LocalVariable {
                return Err(RError::Codegen("Left value is not variable".to_owned()));
            }
            let mut out = String::new();
            match n.offset {
                Some(offset) => {
                    write_address(&mut out, offset);
                    proof {
                        assert(Seq::<char>::empty() + render(address(offset)) =~= render(
                            address(offset),
                        ));
                    }
                },
                None => {},
            }
            Ok(out)
        },
        None => Ok(String::new()),
    }
}

/// The text that pushes the value of a node, operands first.
pub fn gen(node: &Option<Box<Node>>) -> (r: Result<String, RError>)
    requires
        valid(*node),
    ensures
        generated(value_code(*node), r),
    decreases *node,
{
    let n = match node {
        Some(n) => n,
        None => {
            return Ok(String::new());
        },
    };
    match n.kind {
        NodeKind::Return => {
            let mut out = match gen(&n.lhs) {
                Ok(value) => value,
                Err(error) => {
                    return Err(error);
                },
            };
            write_leave(&mut out);
            proof {
                lemma_render_concat(code(n.lhs->0.expr()->0)->0, leave());
            }
            return Ok(out);
        },
        NodeKind::Num => {
            let mut out = String::new();
            match n.val {
                Some(value) => {
                    write_line(&mut out, Instr::PushImm(value));
                    proof {
                        lemma_render_push(Seq::empty(), Instr::PushImm(value));
                        assert(Seq::<Instr>::empty().push(Instr::PushImm(value)) =~= seq![
                            Instr::PushImm(value),
                        ]);
                        assert(out@ =~= render(seq![Instr::PushImm(value)]));
                    }
                },
                None => {},
            }
            return Ok(out);
        },
        NodeKind::LocalVariable => {
            let mut out = match gen_lval(node) {
                Ok(target) => target,
                Err(error) => {
                    return Err(error);
                },
            };
            write_load(&mut out);
            proof {
                lemma_render_concat(address(n.offset->0), load());
            }
            return Ok(out);
        },
        NodeKind::Assign => {
            let mut out = match gen_lval(&n.lhs) {
                Ok(target) => target,
                Err(error) => {
                    return Err(error);
                },
            };
            let value = match gen(&n.rhs) {
                Ok(value) => value,
                Err(error) => {
                    return Err(error);
                },
            };
            out.append(value.as_str());
            write_store(&mut out);
            proof {
                let target = place(n.lhs->0.expr()->0)->0;
                let pushed = code(n.rhs->0.expr()->0)->0;
                lemma_render_concat(target, pushed);
                lemma_render_concat(target + pushed, store());
            }
            return Ok(out);
        },
        _ => (),
    }
    let mut out = match gen(&n.lhs) {
        Ok(left) => left,
        Err(error) => {
            return Err(error);
        },
    };
    let right = match gen(&n.rhs) {
        Ok(right) => right,
        Err(error) => {
            return Err(error);
        },
    };
    out.append(right.as_str());
    let kind = match n.kind {
        NodeKind::Add => BinOpKind::Add,
        NodeKind::Sub => BinOpKind::Sub,
        NodeKind::Mul => BinOpKind::Mul,
        NodeKind::Div => BinOpKind::Quo,
        NodeKind::Equal => BinOpKind::EQ,
        NodeKind::NotEqual => BinOpKind::NEQ,
        NodeKind::LessThan => BinOpKind::LSS,
        _ => BinOpKind::LEQ,
    };
    write_operation(&mut out, kind);
    proof {
        let left = code(n.lhs->0.expr()->0)->0;
        let pushed = code(n.rhs->0.expr()->0)->0;
        let tail = pop_operands() + apply(kind) + seq![Instr::PushRax];
        lemma_render_concat(left, pushed);
        lemma_render_concat(left + pushed, tail);
        assert(left + pushed + tail =~= left + pushed + pop_operands() + apply(kind) + seq![
            Instr::PushRax,
        ]);
    }
    Ok(out)
}

} // verus!
