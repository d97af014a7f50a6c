use meno::ast::{BinaryOp, Expr, Program, Stmt};
use meno::lexer::Lexer;
use meno::parser::Parser;
use meno::type_checker::Type;

fn try_parse(s: &str) -> Option<Program> {
    let mut lexer = Lexer::new(s);
    let lxms = lexer.tokenize();
    let parser = Parser::new(&lxms, lexer.idtable);
    parser.try_parse_program()
}

fn var(i: usize) -> Box<Expr> {
    Box::new(Expr::Var(i))
}

#[test]
fn assignment_and_variables() {
    let p = try_parse("x = y - z;").unwrap();
    assert_eq!(
        p.stmts,
        vec![Stmt::Assignment {
            name_id: 0,
            rhs: Box::new(Expr::Binary { op: BinaryOp::Sub, left: var(1), right: var(2) }),
        }]
    );
    assert_eq!(p.idtable, vec!["x", "y", "z"]);
}

#[test]
fn equality_is_not_assignment() {
    let p = try_parse("x == 1").unwrap();
    assert_eq!(
        p.stmts,
        vec![Stmt::Expr(Expr::Binary {
            op: BinaryOp::Eq,
            left: var(0),
            right: Box::new(Expr::ConstInt(1)),
        })]
    );
}

#[test]
fn typed_declarations() {
    let p = try_parse("let a: char = 1; let b: bool = true").unwrap();
    assert_eq!(
        p.stmts,
        vec![
            Stmt::Decl {
                name_id: 0,
                decl_type: Some(Type::Char),
                rhs: Box::new(Expr::ConstInt(1)),
            },
            Stmt::Decl {
                name_id: 1,
                decl_type: Some(Type::Bool),
                rhs: Box::new(Expr::ConstBool(true)),
            },
        ]
    );
}

#[test]
fn left_associative_chains() {
    let p = try_parse("8 / 4 / 2; 1 - 2 - 3").unwrap();
    let c = |x: i32| Box::new(Expr::ConstInt(x));
    assert_eq!(
        p.stmts,
        vec![
            Stmt::Expr(Expr::Binary {
                op: BinaryOp::Div,
                left: Box::new(Expr::Binary { op: BinaryOp::Div, left: c(8), right: c(4) }),
                right: c(2),
            }),
            Stmt::Expr(Expr::Binary {
                op: BinaryOp::Sub,
                left: Box::new(Expr::Binary { op: BinaryOp::Sub, left: c(1), right: c(2) }),
                right: c(3),
            }),
        ]
    );
}

#[test]
fn semicolons_and_empty_programs() {
    assert_eq!(try_parse("").unwrap().stmts, vec![]);
    assert_eq!(try_parse(";;;").unwrap().stmts, vec![]);
    assert_eq!(try_parse("{ ; }").unwrap().stmts, vec![Stmt::Expr(Expr::Block { content: vec![] })]);
}

#[test]
fn syntax_errors_give_none() {
    assert!(try_parse("let = 1;").is_none());
    assert!(try_parse("let x 1;").is_none());
    assert!(try_parse("let x: foo = 1;").is_none());
    assert!(try_parse("(1 + 2").is_none());
    assert!(try_parse("{ 1;").is_none());
    assert!(try_parse("if 1 2").is_none());
    assert!(try_parse(")").is_none());
    assert!(try_parse("1 +").is_none());
    assert!(try_parse("let x = a && b;").is_none());
}

#[test]
fn parsed_names_index_the_table() {
    let p = try_parse("let a = b; c = a; { d; }").unwrap();
    fn check_expr(e: &Expr, n: usize) {
        match e {
            Expr::Var(i) => assert!(*i < n),
            Expr::Unary { child, .. } => check_expr(child, n),
            Expr::Binary { left, right, .. } => {
                check_expr(left, n);
                check_expr(right, n);
            }
            Expr::Block { content } => content.iter().for_each(|s| check_stmt(s, n)),
            Expr::If { cond, tbranch, fbranch } => {
                check_expr(cond, n);
                check_expr(tbranch, n);
                if let Some(f) = fbranch {
                    check_expr(f, n);
                }
            }
            _ => {}
        }
    }
    fn check_stmt(s: &Stmt, n: usize) {
        match s {
            Stmt::Decl { name_id, rhs, .. } | Stmt::Assignment { name_id, rhs } => {
                assert!(*name_id < n);
                check_expr(rhs, n);
            }
            Stmt::Expr(e) => check_expr(e, n),
        }
    }
    let n = p.idtable.len();
    assert_eq!(n, 5);
    p.stmts.iter().for_each(|s| check_stmt(s, n));
}

#[test]
fn try_parse_stmt_and_expr() {
    let mut lexer = Lexer::new("let x = 1; )");
    let lxms = lexer.tokenize();
    let mut parser = Parser::new(&lxms, lexer.idtable);
    assert!(parser.try_parse_stmt().is_some());
    assert!(parser.try_parse_expr().is_none());
}
