use rchan::assembly::{
    apply_code, write_address, write_all, write_leave, write_line, write_load, write_operation,
    write_store, Instr, FRAME_SIZE,
};
use rchan::parser::BinOpKind;

fn text(instrs: &[Instr]) -> String {
    let mut out = String::new();
    write_all(&mut out, &instrs.to_vec());
    out
}

#[test]
fn every_instruction_has_its_line() {
    let all = [
        (Instr::PushImm(-12), "  push -12\n"),
        (Instr::PushRax, "  push rax\n"),
        (Instr::PushRdi, "  push rdi\n"),
        (Instr::PushRbp, "  push rbp\n"),
        (Instr::PopRax, "  pop rax\n"),
        (Instr::PopRdi, "  pop rdi\n"),
        (Instr::PopRbp, "  pop rbp\n"),
        (Instr::MovRaxRbp, "  mov rax, rbp\n"),
        (Instr::MovRbpRsp, "  mov rbp, rsp\n"),
        (Instr::MovRspRbp, "  mov rsp, rbp\n"),
        (Instr::SubRaxImm(16), "  sub rax, 16\n"),
        (Instr::SubRspImm(FRAME_SIZE), "  sub rsp, 208\n"),
        (Instr::Load, "  mov rax, [rax]\n"),
        (Instr::Store, "  mov [rax], rdi\n"),
        (Instr::Add, "  add rax, rdi\n"),
        (Instr::Sub, "  sub rax, rdi\n"),
        (Instr::Imul, "  imul rax, rdi\n"),
        (Instr::Cqo, "  cqo\n"),
        (Instr::Idiv, "  idiv rdi\n"),
        (Instr::Cmp, "  cmp rax, rdi\n"),
        (Instr::Sete, "  sete al\n"),
        (Instr::Setne, "  setne al\n"),
        (Instr::Setl, "  setl al\n"),
        (Instr::Setle, "  setle al\n"),
        (Instr::Movzb, "  movzb rax, al\n"),
        (Instr::Ret, "  ret\n"),
    ];
    let mut whole = String::from("x");
    let mut expected = String::from("x");
    for (instr, line) in all {
        let mut out = String::new();
        write_line(&mut out, instr);
        assert_eq!(out, line);
        write_line(&mut whole, instr);
        expected += line;
    }
    assert_eq!(whole, expected);
    let instrs: Vec<Instr> = all.iter().map(|(instr, _)| *instr).collect();
    assert_eq!(text(&instrs), expected[1..]);
    assert_eq!(text(&[]), "");
}

#[test]
fn instruction_groups() {
    let mut out = String::new();
    write_address(&mut out, 24);
    assert_eq!(out, "  mov rax, rbp\n  sub rax, 24\n  push rax\n");
    let mut out = String::new();
    write_load(&mut out);
    assert_eq!(out, "  pop rax\n  mov rax, [rax]\n  push rax\n");
    let mut out = String::new();
    write_store(&mut out);
    assert_eq!(out, "  pop rdi\n  pop rax\n  mov [rax], rdi\n  push rdi\n");
    let mut out = String::new();
    write_leave(&mut out);
    assert_eq!(out, "  pop rax\n  mov rsp, rbp\n  pop rbp\n  ret\n");
    let mut out = String::new();
    write_operation(&mut out, BinOpKind::Quo);
    assert_eq!(out, "  pop rdi\n  pop rax\n  cqo\n  idiv rdi\n  push rax\n");
}

#[test]
fn operators_and_their_instructions() {
    assert_eq!(apply_code(BinOpKind::Add), vec![Instr::Add]);
    assert_eq!(apply_code(BinOpKind::Sub), vec![Instr::Sub]);
    assert_eq!(apply_code(BinOpKind::Mul), vec![Instr::Imul]);
    assert_eq!(apply_code(BinOpKind::Quo), vec![Instr::Cqo, Instr::Idiv]);
    assert_eq!(apply_code(BinOpKind::EQ), vec![Instr::Cmp, Instr::Sete, Instr::Movzb]);
    assert_eq!(apply_code(BinOpKind::NEQ), vec![Instr::Cmp, Instr::Setne, Instr::Movzb]);
    assert_eq!(apply_code(BinOpKind::LSS), vec![Instr::Cmp, Instr::Setl, Instr::Movzb]);
    assert_eq!(apply_code(BinOpKind::LEQ), vec![Instr::Cmp, Instr::Setle, Instr::Movzb]);
}
