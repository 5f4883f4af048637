use rchan::codegen;
use rchan::error::RError;
use rchan::generator::{code_gen, gen, gen_lval, CodegenError};
use rchan::lexer::{lex, Loc};
use rchan::parse::{Node as PlainNode, NodeKind as PlainKind, Parser, TokenCursor};
use rchan::parser::{parse, BinOp, Node};
use rchan::tokenize::tokenize;

fn compile(text: &str) -> String {
    code_gen(parse(lex(text).unwrap()).unwrap()).unwrap()
}

fn compile_plain(text: &str) -> String {
    let code = Parser::new(TokenCursor::new(tokenize(text).ok().unwrap()))
        .program()
        .unwrap();
    let mut out = String::from(".intel_syntax noprefix\n.global main\nmain:\n");
    out += "  push rbp\n  mov rbp, rsp\n  sub rsp, 208\n";
    for node in code {
        let is_return = node.kind == PlainKind::Return;
        out += &codegen::gen(&Some(node)).unwrap();
        if !is_return {
            out += "  pop rax\n";
        }
    }
    out += "  mov rsp, rbp\n  pop rbp\n  ret\n";
    out
}

/// Runs the generated code on a small machine that knows the instructions
/// the generator emits, and answers what `rax` holds at the first `ret`.
fn run(code: &str) -> i64 {
    let mut memory: Vec<i64> = vec![0; 4096];
    let (mut rax, mut rdi, mut rbp): (i64, i64, i64) = (0, 0, 0);
    let mut rsp: i64 = 4096 * 8;
    let mut flags: (i64, i64) = (0, 0);
    let mut al: i64 = 0;
    memory.push(0);
    rsp -= 8;
    memory[(rsp / 8) as usize] = -1;
    for line in code.lines() {
        let line = line.trim();
        if line.starts_with('.') || line.ends_with(':') {
            continue;
        }
        let (name, rest) = match line.split_once(' ') {
            Some((name, rest)) => (name, rest.trim()),
            None => (line, ""),
        };
        let args: Vec<&str> = rest.split(", ").collect();
        match (name, args.as_slice()) {
            ("push", [a]) => {
                let v = match *a {
                    "rax" => rax,
                    "rdi" => rdi,
                    "rbp" => rbp,
                    n => n.parse().unwrap(),
                };
                rsp -= 8;
                memory[(rsp / 8) as usize] = v;
            }
            ("pop", [a]) => {
                let v = memory[(rsp / 8) as usize];
                rsp += 8;
                match *a {
                    "rax" => rax = v,
                    "rdi" => rdi = v,
                    "rbp" => rbp = v,
                    other => panic!("pop {}", other),
                }
            }
            ("mov", ["rbp", "rsp"]) => rbp = rsp,
            ("mov", ["rsp", "rbp"]) => rsp = rbp,
            ("mov", ["rax", "rbp"]) => rax = rbp,
            ("mov", ["rax", "[rax]"]) => rax = memory[(rax / 8) as usize],
            ("mov", ["[rax]", "rdi"]) => memory[(rax / 8) as usize] = rdi,
            ("add", ["rax", "rdi"]) => rax = rax.wrapping_add(rdi),
            ("sub", ["rax", "rdi"]) => rax = rax.wrapping_sub(rdi),
            ("sub", ["rax", n]) => rax -= n.parse::<i64>().unwrap(),
            ("sub", ["rsp", n]) => rsp -= n.parse::<i64>().unwrap(),
            ("imul", ["rax", "rdi"]) => rax = rax.wrapping_mul(rdi),
            ("cqo", _) => {}
            ("idiv", ["rdi"]) => rax = rax.wrapping_div(rdi),
            ("cmp", ["rax", "rdi"]) => flags = (rax, rdi),
            ("sete", ["al"]) => al = (flags.0 == flags.1) as i64,
            ("setne", ["al"]) => al = (flags.0 != flags.1) as i64,
            ("setl", ["al"]) => al = (flags.0 < flags.1) as i64,
            ("setle", ["al"]) => al = (flags.0 <= flags.1) as i64,
            ("movzb", ["rax", "al"]) => rax = al,
            ("ret", _) => {
                assert_eq!(memory[(rsp / 8) as usize], -1, "the stack is not balanced");
                return rax;
            }
            other => panic!("unknown instruction {:?}", other),
        }
    }
    panic!("no ret");
}

#[test]
fn codegen_of_a_constant_statement() {
    assert_eq!(
        compile("42;"),
        ".intel_syntax noprefix\n.global main\nmain:\n\
         \x20 push rbp\n  mov rbp, rsp\n  sub rsp, 208\n\
         \x20 push 42\n\
         \x20 pop rax\n\
         \x20 mov rsp, rbp\n  pop rbp\n  ret\n"
    );
}

#[test]
fn codegen_of_an_empty_program() {
    assert_eq!(
        code_gen(vec![]).unwrap(),
        ".intel_syntax noprefix\n.global main\nmain:\n\
         \x20 push rbp\n  mov rbp, rsp\n  sub rsp, 208\n\
         \x20 mov rsp, rbp\n  pop rbp\n  ret\n"
    );
}

#[test]
fn codegen_end_to_end_assign_and_return() {
    let code = compile("a=3;return a+4;");
    assert_eq!(
        code,
        ".intel_syntax noprefix\n.global main\nmain:\n\
         \x20 push rbp\n  mov rbp, rsp\n  sub rsp, 208\n\
         \x20 mov rax, rbp\n  sub rax, 8\n  push rax\n\
         \x20 push 3\n\
         \x20 pop rdi\n  pop rax\n  mov [rax], rdi\n  push rdi\n\
         \x20 pop rax\n\
         \x20 mov rax, rbp\n  sub rax, 8\n  push rax\n\
         \x20 pop rax\n  mov rax, [rax]\n  push rax\n\
         \x20 push 4\n\
         \x20 pop rdi\n  pop rax\n\
         \x20 add rax, rdi\n\
         \x20 push rax\n\
         \x20 pop rax\n  mov rsp, rbp\n  pop rbp\n  ret\n\
         \x20 mov rsp, rbp\n  pop rbp\n  ret\n"
    );
    assert_eq!(run(&code), 7);
}

#[test]
fn codegen_end_to_end_values() {
    assert_eq!(run(&compile("(1+2)*3;")), 9);
    assert_eq!(run(&compile("1==1;")), 1);
    assert_eq!(run(&compile("1!=1;")), 0);
    assert_eq!(run(&compile("1 > 2;")), 0);
    assert_eq!(run(&compile("2 > 1;")), 1);
    assert_eq!(run(&compile("2 >= 2;")), 1);
    assert_eq!(run(&compile("1 <= 0;")), 0);
    assert_eq!(run(&compile("return -7/2;")), -3);
    assert_eq!(run(&compile("return 7/-2;")), -3);
    assert_eq!(run(&compile("return 10-3-2;")), 5);
    assert_eq!(run(&compile("a=b=5; return a*b+1;")), 26);
    assert_eq!(run(&compile("foo=2; bar=foo+3; return bar*foo; return 1;")), 10);
    assert_eq!(run(&compile("return 1 < 2 == 2 > 1;")), 1);
}

#[test]
fn codegen_comparison_is_normalized() {
    assert_eq!(compile("1 > 2;"), compile("2 < 1;"));
    assert_eq!(compile("1 >= 2;"), compile("2 <= 1;"));
    assert_eq!(
        compile("1 > 2;"),
        ".intel_syntax noprefix\n.global main\nmain:\n\
         \x20 push rbp\n  mov rbp, rsp\n  sub rsp, 208\n\
         \x20 push 2\n\
         \x20 push 1\n\
         \x20 pop rdi\n  pop rax\n\
         \x20 cmp rax, rdi\n  setl al\n  movzb rax, al\n\
         \x20 push rax\n\
         \x20 pop rax\n\
         \x20 mov rsp, rbp\n  pop rbp\n  ret\n"
    );
}

#[test]
fn codegen_of_each_operator() {
    let int = |v: i64| Node::new_int(v, Loc(0, 0));
    let text = |op: BinOp| gen(&Node::new_binop(op, int(6), int(3), Loc(0, 0))).unwrap();
    let head = "  push 6\n  push 3\n  pop rdi\n  pop rax\n";
    let tail = "  push rax\n";
    let l = Loc(0, 0);
    assert_eq!(text(BinOp::new_add(l)), format!("{}  add rax, rdi\n{}", head, tail));
    assert_eq!(text(BinOp::new_sub(l)), format!("{}  sub rax, rdi\n{}", head, tail));
    assert_eq!(text(BinOp::new_mul(l)), format!("{}  imul rax, rdi\n{}", head, tail));
    assert_eq!(text(BinOp::new_quo(l)), format!("{}  cqo\n  idiv rdi\n{}", head, tail));
    assert_eq!(
        text(BinOp::new_eq(l)),
        format!("{}  cmp rax, rdi\n  sete al\n  movzb rax, al\n{}", head, tail)
    );
    assert_eq!(
        text(BinOp::new_neq(l)),
        format!("{}  cmp rax, rdi\n  setne al\n  movzb rax, al\n{}", head, tail)
    );
    assert_eq!(
        text(BinOp::new_lss(l)),
        format!("{}  cmp rax, rdi\n  setl al\n  movzb rax, al\n{}", head, tail)
    );
    assert_eq!(
        text(BinOp::new_leq(l)),
        format!("{}  cmp rax, rdi\n  setle al\n  movzb rax, al\n{}", head, tail)
    );
}

#[test]
fn codegen_numbers_are_written_in_decimal() {
    let int = |v: i64| Node::new_int(v, Loc(0, 0));
    assert_eq!(gen(&int(0)).unwrap(), "  push 0\n");
    assert_eq!(gen(&int(10)).unwrap(), "  push 10\n");
    assert_eq!(gen(&int(-5)).unwrap(), "  push -5\n");
    assert_eq!(gen(&int(i64::MAX)).unwrap(), "  push 9223372036854775807\n");
    assert_eq!(gen(&int(i64::MIN)).unwrap(), "  push -9223372036854775808\n");
    assert_eq!(
        gen_lval(&Node::new_lvar(208, Loc(0, 0))).unwrap(),
        "  mov rax, rbp\n  sub rax, 208\n  push rax\n"
    );
}

#[test]
fn codegen_rejects_an_assignment_to_a_value() {
    assert_eq!(
        code_gen(parse(lex("1=2;").unwrap()).unwrap()),
        Err(CodegenError::NotLvalue)
    );
    assert_eq!(
        code_gen(parse(lex("a=1; (a+1)=2;").unwrap()).unwrap()),
        Err(CodegenError::NotLvalue)
    );
    assert_eq!(
        gen_lval(&Node::new_int(1, Loc(0, 1))),
        Err(CodegenError::NotLvalue)
    );
    let code = Parser::new(TokenCursor::new(tokenize("1=2;").ok().unwrap()))
        .program()
        .unwrap();
    match codegen::gen(&Some(Box::new(PlainNode::new_node(
        PlainKind::Add,
        Box::new(PlainNode::new_node_num(1)),
        code.into_iter().next().unwrap(),
    )))) {
        Err(RError::Codegen(message)) => assert_eq!(message, "Left value is not variable"),
        _ => panic!("no error"),
    }
    assert_eq!(
        RError::Codegen("Left value is not variable".to_string()).build_error_message("1=2;"),
        "Left value is not variable\n"
    );
    assert_eq!(
        RError::Parse(1, "Unexpected char".to_string()).build_error_message("1)"),
        "1)\n ^ Unexpected char\n"
    );
}

#[test]
fn both_pipelines_emit_the_same_code() {
    for text in [
        "a=3;return a+4;",
        "(1+2)*3;",
        "1==1;",
        "x = -1; y = x * (x - 2) / 3; return y >= x != 0;",
        "return 1 > 2 > 3;",
        "",
    ] {
        assert_eq!(compile(text), compile_plain(text));
    }
    assert_eq!(codegen::gen(&None).unwrap(), "");
    assert_eq!(codegen::gen_lval(&None).unwrap(), "");
}
