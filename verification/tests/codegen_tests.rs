use nyaan::ast::{Assign, Expr, Ident, Int, Print};
use nyaan::codegen::{lower, CodegenError};
use nyaan::ir::{run_program, BinOp, Builtin, Cell, Instr, Operand, Printed, Program, Term};
use nyaan::llvm::{emit, generate};
use nyaan::parser::token_to_expr;
use nyaan::token::Kind;
use nyaan::tokenizer::tokenize;

fn ast(src: &str) -> Vec<Expr> {
    token_to_expr(&tokenize(&mut src.chars()).unwrap()).unwrap()
}

fn compile(src: &str) -> Result<Program, CodegenError> {
    lower(&ast(src))
}

fn output(src: &str) -> Option<Vec<Printed>> {
    run_program(&compile(src).unwrap())
}

#[test]
fn prints_an_arithmetic_variable() {
    assert_eq!(output("a = 1 + 2 * 3; print(a);"), Some(vec![Printed::Int(7)]));
}

#[test]
fn prints_a_string_literal() {
    assert_eq!(output("print(\"hi\");"), Some(vec![Printed::Text("hi".to_string())]));
}

#[test]
fn prints_a_character_variable() {
    assert_eq!(
        output("a = 'x'; print(a);"),
        Some(vec![Printed::Char(120), Printed::Char(10)])
    );
}

#[test]
fn prints_an_equality_test() {
    assert_eq!(output("a = 1; b = 2; print(a == b);"), Some(vec![Printed::Int(0)]));
    assert_eq!(output("a = 2; b = 2; print(a == b);"), Some(vec![Printed::Int(1)]));
}

#[test]
fn takes_the_first_branch() {
    assert_eq!(
        output("if (1 == 1) { print(1); } else { print(0); }"),
        Some(vec![Printed::Int(1)])
    );
    assert_eq!(
        output("if (1 == 2) { print(1); } else { print(0); }"),
        Some(vec![Printed::Int(0)])
    );
}

#[test]
fn exactly_one_branch_of_a_chain_runs() {
    let chain = "if (a == 1) { print(10); } else if (a == 2) { print(20); } else if (a == 3) { print(30); } else { print(40); } print(99);";
    for (a, expected) in [(1, 10), (2, 20), (3, 30), (4, 40)] {
        let src = format!("a = {}; {}", a, chain);
        assert_eq!(
            output(&src),
            Some(vec![Printed::Int(expected), Printed::Int(99)])
        );
    }
}

#[test]
fn chain_without_else_may_run_no_branch() {
    assert_eq!(
        output("a = 5; if (a == 1) { print(1); } else if (a == 2) { print(2); } print(3);"),
        Some(vec![Printed::Int(3)])
    );
}

#[test]
fn chain_at_the_end_of_the_program_converges() {
    let p = compile("if 1 { print(1); }").unwrap();
    assert_eq!(p.terms.last(), Some(&Term::Ret));
    assert!(p.terms.iter().all(|t| *t != Term::Open));
    assert_eq!(run_program(&p), Some(vec![Printed::Int(1)]));
    assert_eq!(output("if 0 { print(1); } else { print(2); }"), Some(vec![Printed::Int(2)]));
}

#[test]
fn nested_chains() {
    let src = "a = 2; if a { if (a == 1) { print(11); } else { print(12); } print(13); } else { print(14); } print(15);";
    assert_eq!(
        output(src),
        Some(vec![Printed::Int(12), Printed::Int(13), Printed::Int(15)])
    );
}

#[test]
fn assignment_in_a_branch_is_seen_behind_it() {
    assert_eq!(
        output("a = 1; if 1 { a = 2; } print(a);"),
        Some(vec![Printed::Int(2)])
    );
    assert_eq!(
        output("a = 1; if 0 { a = 2; } print(a);"),
        Some(vec![Printed::Int(1)])
    );
    assert_eq!(
        output("s = \"a\"; if 0 { s = \"b\"; } print(s);"),
        Some(vec![Printed::Text("a".to_string())])
    );
}

#[test]
fn variable_assigned_in_a_branch_not_taken_has_no_value() {
    assert_eq!(output("if 0 { a = 2; } print(a);"), None);
}

#[test]
fn assignments_print_in_program_order() {
    assert_eq!(
        output("a = 3; b = a * 2; c = 'z'; d = \"w\"; print(a); print(b); print(c); print(d); print(a);"),
        Some(vec![
            Printed::Int(3),
            Printed::Int(6),
            Printed::Char(122),
            Printed::Char(10),
            Printed::Text("w".to_string()),
            Printed::Int(3),
        ])
    );
}

#[test]
fn prints_literals() {
    assert_eq!(output("print(42);"), Some(vec![Printed::Int(42)]));
    assert_eq!(output("print('a');"), Some(vec![Printed::Char(97), Printed::Char(10)]));
    assert_eq!(output("print(7 / 2);"), Some(vec![Printed::Int(3)]));
    assert_eq!(output("print(1 - 2);"), Some(vec![Printed::Int(-1)]));
    assert_eq!(output("print((1 - 3) / 2);"), Some(vec![Printed::Int(2147483647)]));
}

#[test]
fn division_by_zero_goes_wrong() {
    assert_eq!(output("print(1 / 0);"), None);
}

#[test]
fn undeclared_identifier() {
    assert_eq!(compile("print(a);"), Err(CodegenError::UndeclaredIdentifier));
    assert_eq!(compile("a = b + 1;"), Err(CodegenError::UndeclaredIdentifier));
    assert_eq!(compile("if a { }"), Err(CodegenError::UndeclaredIdentifier));
}

#[test]
fn unsupported_expression() {
    assert_eq!(compile("a = 'x' + 1;"), Err(CodegenError::UnsupportedExpression));
    assert_eq!(compile("s = \"a\"; b = s + 1;"), Err(CodegenError::UnsupportedExpression));
    assert_eq!(compile("if \"a\" { }"), Err(CodegenError::UnsupportedExpression));
    let not_a_name = vec![Expr::Assign(Box::new(Assign::new(
        Expr::Int(Int::new(1)),
        Expr::Int(Int::new(2)),
    )))];
    assert_eq!(lower(&not_a_name), Err(CodegenError::UnsupportedExpression));
}

#[test]
fn unsupported_print() {
    let nested = vec![Expr::Print(Box::new(Print::new(Expr::Print(Box::new(Print::new(
        Expr::Int(Int::new(1)),
    ))))))];
    assert_eq!(lower(&nested), Err(CodegenError::UnsupportedPrint));
    assert_eq!(lower(&vec![Expr::Print(Box::new(Print::new(Expr::Nope)))]), Err(CodegenError::UnsupportedPrint));
}

#[test]
fn a_variable_keeps_its_kind() {
    assert_eq!(compile("a = 1; a = 'x';"), Err(CodegenError::KindChanged));
    assert_eq!(compile("a = \"s\"; a = 1;"), Err(CodegenError::KindChanged));
    assert_eq!(output("a = 1; a = 2; print(a);"), Some(vec![Printed::Int(2)]));
}

#[test]
fn lowered_straight_line_program() {
    let p = compile("a = 1 + 2; print(a);").unwrap();
    assert_eq!(p.slots, vec![Cell::Word]);
    assert_eq!(p.starts, vec![0]);
    assert_eq!(p.terms, vec![Term::Ret]);
    assert_eq!(
        p.code,
        vec![
            Instr::Arith { op: BinOp::Add, lhs: Operand::Const(1), rhs: Operand::Const(2) },
            Instr::Store { slot: 0, value: Operand::Reg(0) },
            Instr::Load { slot: 0 },
            Instr::Call { callee: Builtin::Printf, arg: Operand::Reg(2) },
        ]
    );
    assert!(p.globals.is_empty());
}

#[test]
fn lowered_branch() {
    let p = compile("if 1 { print(2); } else { print(3); } print(4);").unwrap();
    assert_eq!(p.starts, vec![0, 0, 1, 1, 2]);
    assert_eq!(
        p.terms,
        vec![
            Term::Branch(Operand::Const(1), 1, 2),
            Term::Jump(4),
            Term::Jump(3),
            Term::Jump(4),
            Term::Ret,
        ]
    );
    assert!(p.is_well_formed());
}

#[test]
fn empty_program() {
    let p = lower(&Vec::new()).unwrap();
    assert_eq!(p.terms, vec![Term::Ret]);
    assert!(p.code.is_empty());
    assert_eq!(run_program(&p), Some(vec![]));
}

#[test]
fn statements_of_no_effect() {
    let p = lower(&vec![Expr::Nope, Expr::Int(Int::new(3))]).unwrap();
    assert!(p.code.is_empty());
    let named = vec![Expr::Ident(Box::new(Ident::new("a".to_string(), Kind::Int)))];
    assert!(lower(&named).unwrap().code.is_empty());
}

#[test]
fn ill_formed_programs_do_not_run() {
    let mut p = compile("print(1);").unwrap();
    p.terms[0] = Term::Open;
    assert_eq!(run_program(&p), None);
    p.terms[0] = Term::Jump(0);
    assert_eq!(run_program(&p), None);
    p.terms[0] = Term::Ret;
    p.starts[0] = 1;
    assert!(!p.is_well_formed());
    assert_eq!(run_program(&p), None);
}

#[test]
fn module_text_declares_primitives_and_main() {
    let text = generate(&ast("a = 1 + 2 * 3; print(a); print(\"hi\"); print('c');")).unwrap();
    assert!(text.contains("define i32 @main()"));
    assert!(text.contains("declare i32 @puts(i8*, ...)"));
    assert!(text.contains("declare i32 @putchar(i32)"));
    assert!(text.contains("declare i32 @printf(i8*, ...)"));
    assert!(text.contains("c\"hi\\00\""));
    assert!(text.contains("c\"%d\\0A\\00\""));
    assert!(text.contains("alloca i32"));
    assert!(text.contains("store i32 7"));
    assert!(text.contains("call i32 @putchar(i32 99)"));
    assert!(text.contains("ret i32 0"));
}

#[test]
fn module_text_has_one_block_per_branch_block() {
    let text = generate(&ast("a = 1; if a { print(1); } else { print(0); } print(2);")).unwrap();
    assert_eq!(text.matches("br i1").count(), 1);
    assert_eq!(text.matches("br label").count(), 3);
    assert!(text.contains("icmp ne i32"));
}

#[test]
fn generate_reports_lowering_errors() {
    assert_eq!(generate(&ast("print(a);")), Err(CodegenError::UndeclaredIdentifier));
}

#[test]
fn back_end_refuses_a_program_without_an_end() {
    let mut p = compile("print(1);").unwrap();
    p.terms[0] = Term::Open;
    assert_eq!(emit(&p, "m"), Err(CodegenError::Backend));
    p.terms[0] = Term::Jump(7);
    assert_eq!(emit(&p, "m"), Err(CodegenError::Backend));
    p.terms[0] = Term::Ret;
    p.code.push(Instr::Load { slot: 5 });
    assert_eq!(emit(&p, "m"), Err(CodegenError::Backend));
}

#[test]
fn module_handles() {
    let context = inkwell::context::Context::create();
    let ir = nyaan::llvm::Llvmir::new(&context, "demo");
    let text = ir.module.print_to_string().to_string();
    assert!(text.contains("ModuleID = 'demo'"));
    assert!(!text.contains("define"));
}

#[test]
fn module_text_names_the_module() {
    let p = compile("print(1);").unwrap();
    let text = emit(&p, "unit").unwrap();
    assert!(text.contains("ModuleID = 'unit'"));
    assert!(text.contains("entry:"));
}

#[test]
fn lowered_programs_are_well_formed() {
    for src in ["", "a = 1;", "if 1 { } else { }", "if 1 { if 2 { } else if 3 { } } print(4);"] {
        let p = compile(src).unwrap();
        assert!(p.is_well_formed());
        assert!(emit(&p, "m").is_ok());
        assert!(run_program(&p).is_some());
    }
}

#[test]
fn programs_that_read_no_variable_are_always_written() {
    for src in [
        "print(\"hi\");",
        "print(1 + 2 * 3);",
        "a = 1; b = 'c'; s = \"t\";",
        "if (1 == 2) { print(1); } else if 0 { print('x'); } else { a = 5; }",
        "",
    ] {
        let p = compile(src).unwrap();
        assert!(p.code.iter().all(|i| !matches!(i, Instr::Load { .. })));
        assert!(emit(&p, "m").is_ok());
        assert!(generate(&ast(src)).is_ok());
    }
}

#[test]
fn many_variables_keep_their_slots() {
    let mut src = String::new();
    for i in 0..50 {
        src.push_str(&format!("v{} = {}; ", i, i * 3));
    }
    for i in (0..50).rev() {
        src.push_str(&format!("print(v{}); ", i));
    }
    let expected: Vec<Printed> = (0..50).rev().map(|i| Printed::Int(i * 3)).collect();
    assert_eq!(output(&src), Some(expected));
    assert_eq!(compile(&src).unwrap().slots.len(), 50);
    assert!(generate(&ast(&src)).is_ok());
}

#[test]
fn integers_assigned_are_printed_in_the_order_of_the_prints() {
    assert_eq!(
        output("x = 4; y = 9; z = 0; print(z); print(x); print(x); print(y);"),
        Some(vec![Printed::Int(0), Printed::Int(4), Printed::Int(4), Printed::Int(9)])
    );
}
