use meno::ast::BinaryOp;
use meno::ast::UnaryOp::Neg;
use meno::ast::{Expr, Stmt};
use meno::lexer::Lexer;
use meno::parser::Parser;
use meno::type_checker::Type;

fn _parse_expr(s: &str) -> Expr {
    let mut lexer = Lexer::new(s);
    let lxms = &lexer.tokenize();
    let mut parser = Parser::new(lxms, lexer.idtable);
    parser.parse_expr()
}

fn _parse_stmt(s: &str) -> Stmt {
    let mut lexer = Lexer::new(s);
    let lxms = &lexer.tokenize();
    let mut parser = Parser::new(lxms, lexer.idtable);
    parser.parse_stmt()
}

fn lit(x: i32) -> Box<Expr> {
    Box::new(Expr::ConstInt(x))
}

#[test]
fn int1() {
    let s = "1";
    match _parse_expr(s) {
        Expr::ConstInt(1) => (),
        _ => panic!(),
    }
}

#[test]
fn unary_int() {
    let s = "-42";
    let expected = Expr::Unary { op: Neg, child: lit(42) };
    assert_eq!(expected, _parse_expr(s));
    let s = "--42";
    let expected = Expr::Unary {
        op: Neg,
        child: Box::new(Expr::Unary { op: Neg, child: lit(42) }),
    };
    assert_eq!(expected, _parse_expr(s));
    let s = "-1-2";
    let expected = Expr::Binary {
        op: BinaryOp::Sub,
        left: Box::new(Expr::Unary { op: Neg, child: lit(1) }),
        right: lit(2),
    };
    assert_eq!(expected, _parse_expr(s));
    let s = "-1--2";
    let expected = Expr::Binary {
        op: BinaryOp::Sub,
        left: Box::new(Expr::Unary { op: Neg, child: lit(1) }),
        right: Box::new(Expr::Unary { op: Neg, child: lit(2) }),
    };
    assert_eq!(expected, _parse_expr(s));
}

#[test]
fn unary_group() {
    let s = "-(1+2)";
    let expected = Expr::Unary {
        op: Neg,
        child: Box::new(Expr::Binary { op: BinaryOp::Add, left: lit(1), right: lit(2) }),
    };
    assert_eq!(expected, _parse_expr(s));
}

#[test]
fn precedence_test() {
    let s = "1+2*3";
    let expected = Expr::Binary {
        op: BinaryOp::Add,
        left: lit(1),
        right: Box::new(Expr::Binary { op: BinaryOp::Mul, left: lit(2), right: lit(3) }),
    };
    assert_eq!(expected, _parse_expr(s));
    let s = "(1+2)*3";
    let expected = Expr::Binary {
        op: BinaryOp::Mul,
        left: Box::new(Expr::Binary { op: BinaryOp::Add, left: lit(1), right: lit(2) }),
        right: lit(3),
    };
    assert_eq!(expected, _parse_expr(s));
    let s = "1+(2+3)";
    let expected = Expr::Binary {
        op: BinaryOp::Add,
        left: lit(1),
        right: Box::new(Expr::Binary { op: BinaryOp::Add, left: lit(2), right: lit(3) }),
    };
    assert_eq!(expected, _parse_expr(s));
}

#[test]
fn decl() {
    let s = "let x: int = 13;";
    let expected = Stmt::Decl { name_id: 0, decl_type: Some(Type::Int), rhs: lit(13) };
    assert_eq!(expected, _parse_stmt(s))
}

#[test]
fn lt_test() {
    let s = "1 < 2";
    let expected = Expr::Binary { op: BinaryOp::Lt, left: lit(1), right: lit(2) };
    assert_eq!(_parse_expr(s), expected);
    let s = "1 < (2 + 3)";
    let expected = Expr::Binary {
        op: BinaryOp::Lt,
        left: lit(1),
        right: Box::new(Expr::Binary { op: BinaryOp::Add, left: lit(2), right: lit(3) }),
    };
    assert_eq!(_parse_expr(s), expected);
}

#[test]
fn comp_precedence_test() {
    let s = "1 < 2 + 3";
    let expected = Expr::Binary {
        op: BinaryOp::Lt,
        left: lit(1),
        right: Box::new(Expr::Binary { op: BinaryOp::Add, left: lit(2), right: lit(3) }),
    };
    assert_eq!(_parse_expr(s), expected);
    let s = "1 < 2 || 3 > 5";
    let expected = Expr::Binary {
        op: BinaryOp::Or,
        left: Box::new(Expr::Binary { op: BinaryOp::Lt, left: lit(1), right: lit(2) }),
        right: Box::new(Expr::Binary { op: BinaryOp::Gt, left: lit(3), right: lit(5) }),
    };
    assert_eq!(_parse_expr(s), expected);
}

#[test]
fn logic_precedence_test() {
    let t = || Box::new(Expr::ConstBool(true));
    let f = || Box::new(Expr::ConstBool(false));
    let s = "true || false && true";
    let expected = Expr::Binary {
        op: BinaryOp::Or,
        left: t(),
        right: Box::new(Expr::Binary { op: BinaryOp::And, left: f(), right: t() }),
    };
    assert_eq!(_parse_expr(s), expected);
    let s = "true || false || true";
    let expected = Expr::Binary {
        op: BinaryOp::Or,
        left: Box::new(Expr::Binary { op: BinaryOp::Or, left: t(), right: f() }),
        right: t(),
    };
    assert_eq!(_parse_expr(s), expected);
    let s = "true == false && false";
    let expected = Expr::Binary {
        op: BinaryOp::And,
        left: Box::new(Expr::Binary { op: BinaryOp::Eq, left: t(), right: f() }),
        right: f(),
    };
    assert_eq!(_parse_expr(s), expected);
}

fn one_lt_two() -> Box<Expr> {
    Box::new(Expr::Binary { op: BinaryOp::Lt, left: lit(1), right: lit(2) })
}

fn block_of(x: i32) -> Box<Expr> {
    Box::new(Expr::Block { content: vec![Stmt::Expr(Expr::ConstInt(x))] })
}

#[test]
fn if_simple() {
    let s = "if 1 < 2 { 2; } else { 3; }";
    let exp = Expr::If { cond: one_lt_two(), tbranch: block_of(2), fbranch: Some(block_of(3)) };
    assert_eq!(_parse_expr(s), exp);
}

#[test]
fn no_then_if() {
    let s = "if 1 < 2 { 2; }";
    let exp = Expr::If { cond: one_lt_two(), tbranch: block_of(2), fbranch: None };
    assert_eq!(_parse_expr(s), exp);
    let s = "if 1 < 2 {
      let x: int = 42;
      2;
    }";
    let exp = Expr::If {
        cond: one_lt_two(),
        tbranch: Box::new(Expr::Block {
            content: vec![
                Stmt::Decl { name_id: 0, decl_type: Some(Type::Int), rhs: lit(42) },
                Stmt::Expr(Expr::ConstInt(2)),
            ],
        }),
        fbranch: None,
    };
    assert_eq!(_parse_expr(s), exp);
}

#[test]
fn nested_if() {
    let s = "
    if 1 == 1 {
      2;
    } else if 1 < 2 {
      3;
    } else {
      5;
    };";
    let elseif = Box::new(Expr::If {
        cond: one_lt_two(),
        tbranch: block_of(3),
        fbranch: Some(block_of(5)),
    });
    let exp = Expr::If {
        cond: Box::new(Expr::Binary { op: BinaryOp::Eq, left: lit(1), right: lit(1) }),
        tbranch: block_of(2),
        fbranch: Some(elseif),
    };
    assert_eq!(_parse_expr(s), exp);
}
