use nyaan::ast::{Assign, BinaryOp, Char, Else, Equal, Expr, Ident, If, Int, Print, Str};
use nyaan::parser::{token_to_expr, SyntaxError};
use nyaan::token::{Kind, Token};
use nyaan::tokenizer::tokenize;

fn parse(src: &str) -> Result<Vec<Expr>, SyntaxError> {
    token_to_expr(&tokenize(&mut src.chars()).unwrap())
}

fn num(v: i32) -> Expr {
    Expr::Int(Int::new(v))
}

fn var(name: &str) -> Expr {
    Expr::Ident(Box::new(Ident::new(name.to_string(), Kind::Ident)))
}

fn bin(kind: Kind, l: Expr, r: Expr) -> Expr {
    Expr::BinaryOp(Box::new(BinaryOp::new(kind, l, r)))
}

fn assign(name: &str, kind: Kind, v: Expr) -> Expr {
    Expr::Assign(Box::new(Assign::new(
        Expr::Ident(Box::new(Ident::new(name.to_string(), kind))),
        v,
    )))
}

fn print(v: Expr) -> Expr {
    Expr::Print(Box::new(Print::new(v)))
}

#[test]
fn multiplication_binds_tighter_than_addition() {
    assert_eq!(
        parse("a = 1 + 2 * 3;"),
        Ok(vec![assign(
            "a",
            Kind::Int,
            bin(Kind::Plus, num(1), bin(Kind::Multi, num(2), num(3)))
        )])
    );
}

#[test]
fn operators_group_from_the_left() {
    assert_eq!(
        parse("a = 10 - 4 - 3;"),
        Ok(vec![assign(
            "a",
            Kind::Int,
            bin(Kind::Minus, bin(Kind::Minus, num(10), num(4)), num(3))
        )])
    );
    assert_eq!(
        parse("a = 8 / 4 * 2;"),
        Ok(vec![assign(
            "a",
            Kind::Int,
            bin(Kind::Multi, bin(Kind::Divi, num(8), num(4)), num(2))
        )])
    );
}

#[test]
fn parentheses_group() {
    assert_eq!(
        parse("a = (1 + 2) * 3;"),
        Ok(vec![assign(
            "a",
            Kind::Int,
            bin(Kind::Multi, bin(Kind::Plus, num(1), num(2)), num(3))
        )])
    );
}

#[test]
fn assignment_kind_follows_the_value() {
    assert_eq!(parse("a = 5;"), Ok(vec![assign("a", Kind::Int, num(5))]));
    assert_eq!(
        parse("a = 'x';"),
        Ok(vec![assign("a", Kind::Char, Expr::Char(Char::new('x')))])
    );
    assert_eq!(
        parse("a = \"hi\";"),
        Ok(vec![assign("a", Kind::Str, Expr::Str(Str::new("hi".to_string())))])
    );
    assert_eq!(
        parse("a = b + 1;"),
        Ok(vec![assign("a", Kind::Int, bin(Kind::Plus, var("b"), num(1)))])
    );
}

#[test]
fn assignment_of_a_value_of_no_kind() {
    assert_eq!(parse("a = b;"), Err(SyntaxError::UnknownValueKind));
    assert_eq!(parse("a = b == c;"), Err(SyntaxError::UnknownValueKind));
}

#[test]
fn print_statement() {
    assert_eq!(parse("print(a);"), Ok(vec![print(var("a"))]));
    assert_eq!(
        parse("print(a == b);"),
        Ok(vec![print(Expr::Equal(Box::new(Equal::new(var("a"), var("b")))))])
    );
}

#[test]
fn equality_takes_the_expression_behind_it() {
    assert_eq!(
        parse("print(a == b + 1);"),
        Ok(vec![print(Expr::Equal(Box::new(Equal::new(
            var("a"),
            bin(Kind::Plus, var("b"), num(1))
        ))))])
    );
    assert_eq!(
        parse("print(1 + 2 == 3);"),
        Ok(vec![print(bin(
            Kind::Plus,
            num(1),
            Expr::Equal(Box::new(Equal::new(num(2), num(3))))
        ))])
    );
}

#[test]
fn if_else_if_else_chain() {
    let parsed = parse("if (a == 1) { print(1); } else if a { print(2); b = 3; } else { }").unwrap();
    assert_eq!(parsed.len(), 3);
    let mut first = If::new(Expr::Equal(Box::new(Equal::new(var("a"), num(1)))));
    first.list = vec![print(num(1))];
    assert_eq!(parsed[0], Expr::If(Box::new(first)));
    let mut second = If::new(var("a"));
    second.list = vec![print(num(2)), assign("b", Kind::Int, num(3))];
    assert_eq!(parsed[1], Expr::ElseIf(Box::new(second)));
    assert_eq!(parsed[2], Expr::Else(Box::new(Else::new())));
}

#[test]
fn nested_branches() {
    let parsed = parse("if 1 { if 2 { print(3); } }").unwrap();
    let mut inner = If::new(num(2));
    inner.list = vec![print(num(3))];
    let mut outer = If::new(num(1));
    outer.list = vec![Expr::If(Box::new(inner))];
    assert_eq!(parsed, vec![Expr::If(Box::new(outer))]);
}

#[test]
fn missing_tokens() {
    assert_eq!(parse("a 1;"), Err(SyntaxError::MissingAssign));
    assert_eq!(parse("a = 1"), Err(SyntaxError::MissingSemicolon));
    assert_eq!(parse("print 1;"), Err(SyntaxError::MissingLparen));
    assert_eq!(parse("print(1;"), Err(SyntaxError::MissingRparen));
    assert_eq!(parse("print(1)"), Err(SyntaxError::MissingSemicolon));
    assert_eq!(parse("a = (1 + 2;"), Err(SyntaxError::MissingRparen));
    assert_eq!(parse("if 1 print(1);"), Err(SyntaxError::MissingLbrace));
    assert_eq!(parse("if 1 { print(1);"), Err(SyntaxError::MissingRbrace));
    assert_eq!(parse("else print(1);"), Err(SyntaxError::MissingLbrace));
    assert_eq!(parse("else { print(1);"), Err(SyntaxError::MissingRbrace));
}

#[test]
fn missing_operands() {
    assert_eq!(parse("a = ;"), Err(SyntaxError::StackUnderflow));
    assert_eq!(parse("a = 1 + ;"), Err(SyntaxError::StackUnderflow));
    assert_eq!(parse("a = * 2;"), Err(SyntaxError::StackUnderflow));
    assert_eq!(parse("print();"), Err(SyntaxError::StackUnderflow));
    assert_eq!(parse("if { }"), Err(SyntaxError::StackUnderflow));
    assert_eq!(parse("a = == 1;"), Err(SyntaxError::StackUnderflow));
}

#[test]
fn stray_tokens_are_empty_statements() {
    assert_eq!(parse("; a = 1;"), Ok(vec![Expr::Nope, assign("a", Kind::Int, num(1))]));
    assert_eq!(parse("}"), Ok(vec![Expr::Nope]));
}

#[test]
fn no_tokens_no_statements() {
    assert_eq!(token_to_expr(&Vec::new()), Ok(vec![]));
    assert_eq!(parse(""), Ok(vec![]));
    assert_eq!(token_to_expr(&vec![Token::new()]), Ok(vec![]));
}

#[test]
fn direct_interpretation() {
    assert_eq!(bin(Kind::Plus, num(1), bin(Kind::Multi, num(2), num(3))).eval(), Some(7));
    assert_eq!(bin(Kind::Minus, num(1), num(2)).eval(), Some(-1));
    assert_eq!(bin(Kind::Divi, num(7), num(2)).eval(), Some(3));
    assert_eq!(bin(Kind::Divi, num(7), num(0)).eval(), None);
    assert_eq!(bin(Kind::Divi, num(-2), num(2)).eval(), Some(2147483647));
    assert_eq!(bin(Kind::Plus, num(2147483647), num(1)).eval(), Some(-2147483648));
    assert_eq!(bin(Kind::Multi, num(65536), num(65536)).eval(), Some(0));
    assert_eq!(bin(Kind::Semicolon, num(1), num(2)).eval(), Some(0));
    assert_eq!(var("a").eval(), Some(0));
    assert_eq!(print(num(5)).eval(), Some(5));
    assert_eq!(Expr::Char(Char::new('a')).eval(), Some(97));
    assert_eq!(Expr::Equal(Box::new(Equal::new(num(2), num(2)))).eval(), Some(1));
    assert_eq!(Expr::Equal(Box::new(Equal::new(num(2), num(3)))).eval(), Some(0));
    assert_eq!(Expr::Nope.eval(), Some(0));
    assert_eq!(assign("a", Kind::Int, num(5)).eval(), Some(0));
}

#[test]
fn node_evaluators() {
    assert_eq!(Int::new(4).eval(), 4);
    assert_eq!(Char::new('c').eval(), 'c');
    assert_eq!(Str::new("s".to_string()).eval(), "s");
    assert_eq!(BinaryOp::new(Kind::Plus, num(2), num(3)).eval(), Some(5));
    assert_eq!(Ident::new("a".to_string(), Kind::Int).eval(), 0);
    assert_eq!(Ident::new("a".to_string(), Kind::Int).name(), "a");
    assert_eq!(Assign::new(var("a"), num(1)).eval(), 0);
    assert_eq!(Print::new(num(9)).eval(), Some(9));
    assert_eq!(If::new(num(1)).list.len(), 0);
}

#[test]
fn node_names() {
    assert_eq!(var("abc").name(), "abc");
    assert_eq!(num(1).name(), "Int");
    assert_eq!(Expr::Nope.name(), "None");
    assert_eq!(print(num(1)).name(), "Print");
}

#[test]
fn parsed_expression_evaluates_by_precedence() {
    let parsed = parse("print(2 + 3 * 4 - 10 / 5);").unwrap();
    assert_eq!(parsed[0].eval(), Some(12));
    let parsed = parse("print((2 + 3) * (4 - 10) / 5);").unwrap();
    assert_eq!(parsed[0].eval(), Some(858993453));
}

#[test]
fn trees_are_copied_whole() {
    let parsed = parse("a = (1 + 2) * 3; if a { print(\"x\"); } else if (a == 2) { b = 'c'; } else { print(a); }").unwrap();
    let copy = parsed.clone();
    assert_eq!(copy, parsed);
    match &parsed[1] {
        Expr::If(branch) => {
            let again: If = (**branch).clone();
            assert_eq!(again, **branch);
        }
        _ => unreachable!(),
    }
    let op = BinaryOp::new(Kind::Plus, num(1), num(2));
    assert_eq!(op.clone(), op);
    assert_eq!(Else::new().clone(), Else::new());
}

#[test]
fn so_many_statements_so_many_nodes() {
    let parsed = parse("a = 1; print(a); if a { b = 2; c = 3; } else { } print(4);").unwrap();
    assert_eq!(parsed.len(), 5);
    assert_eq!(parsed[0], assign("a", Kind::Int, num(1)));
    assert_eq!(parsed[1], print(var("a")));
    assert_eq!(parsed[4], print(num(4)));
}
