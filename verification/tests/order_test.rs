use meno::ir::{IrDest, IrEmitter, IrInst, IrVal};
use meno::lexer::{Lexer, Token};
use meno::parser::Parser;

fn lex(s: &str) -> (Vec<Token>, Vec<String>) {
    let mut lexer = Lexer::new(s);
    let tokens = lexer.tokenize();
    (tokens, lexer.idtable)
}

fn program(s: &str) -> meno::ast::Program {
    let (tokens, table) = lex(s);
    Parser::new(&tokens, table).parse_program()
}

#[test]
fn blank_runs_do_not_change_tokens() {
    assert_eq!(lex("1 +  2"), lex("1\n+\t2"));
    assert_eq!(lex("a <  b;x"), lex("a\u{3000}<\u{2028}\u{85}b;x"));
    assert_eq!(lex("let x = 1;"), lex("let\u{a0}x\u{2000}=\u{200a}1;"));
}

#[test]
fn blanks_agree_with_std() {
    let blanks: Vec<char> = (0u32..0x3001).filter_map(char::from_u32).filter(|c| c.is_whitespace()).collect();
    let expected: Vec<char> = vec![
        '\u{9}', '\u{a}', '\u{b}', '\u{c}', '\u{d}', ' ', '\u{85}', '\u{a0}', '\u{1680}',
        '\u{2000}', '\u{2001}', '\u{2002}', '\u{2003}', '\u{2004}', '\u{2005}', '\u{2006}',
        '\u{2007}', '\u{2008}', '\u{2009}', '\u{200a}', '\u{2028}', '\u{2029}', '\u{202f}',
        '\u{205f}', '\u{3000}',
    ];
    assert_eq!(blanks, expected);
    for c in expected {
        let text = format!("1{}2", c);
        assert_eq!(lex(&text).0, vec![Token::IntLit(1), Token::IntLit(2)]);
    }
    let (tokens, _) = lex("1\u{200b}2");
    assert_eq!(tokens, vec![Token::IntLit(1), Token::Unknown('\u{200b}'), Token::IntLit(2)]);
}

#[test]
fn identifiers_index_their_names() {
    let mut lexer = Lexer::new("foo let bar foo");
    let tokens = lexer.tokenize();
    let words = ["foo", "bar", "foo"];
    let ids: Vec<usize> = tokens
        .iter()
        .filter_map(|t| match t {
            Token::Id(k) => Some(*k),
            _ => None,
        })
        .collect();
    assert_eq!(ids, vec![0, 1, 2]);
    for (i, k) in ids.iter().enumerate() {
        assert_eq!(lexer.idtable[*k], words[i]);
    }
}

#[test]
fn programs_joined_by_semicolons() {
    let (ta, table) = lex("let x = 1; x = x + 2");
    let (tb, _) = lex("if x { 3; }; x");
    let mut joined = ta.clone();
    joined.push(Token::Semicolon);
    joined.push(Token::Semicolon);
    joined.extend(tb.iter().cloned());
    let pa = Parser::new(&ta, table.clone()).parse_program();
    let pb = Parser::new(&tb, table.clone()).parse_program();
    let pj = Parser::new(&joined, table.clone()).parse_program();
    let mut stmts = pa.stmts.clone();
    stmts.extend(pb.stmts.iter().cloned());
    assert_eq!(pj.stmts, stmts);
    assert_eq!(pj.idtable, table);
}

fn label_index(ir: &[IrInst], l: &str) -> Option<usize> {
    ir.iter().position(|i| matches!(i, IrInst::Label(m) if m == l))
}

#[test]
fn jumps_go_forward_and_counts_per_conditional() {
    let p = program("if 1 { if 2 { 3; } else { 4; }; } else { if 5 { 6; }; }; if 7 { 8; };");
    let mut emitter = IrEmitter::new(&p.idtable);
    let ir = emitter.emit_ir(&p);
    for (i, inst) in ir.iter().enumerate() {
        if let IrInst::Jmp(l) | IrInst::JmpIfFalse { jmp_to: l, .. } = inst {
            assert!(label_index(&ir, l).unwrap() > i);
        }
    }
    let count = |f: &dyn Fn(&IrInst) -> bool| ir.iter().filter(|i| f(i)).count();
    assert_eq!(count(&|i| matches!(i, IrInst::JmpIfFalse { .. })), 4);
    assert_eq!(count(&|i| matches!(i, IrInst::Jmp(_))), 4);
    assert_eq!(count(&|i| matches!(i, IrInst::Label(_))), 8);
}

fn reads(i: &IrInst) -> Vec<usize> {
    let reg = |v: &IrVal| match v {
        IrVal::Reg(r) => Some(*r),
        _ => None,
    };
    match i {
        IrInst::Binary { left, right, .. } => reg(left).into_iter().chain(reg(right)).collect(),
        IrInst::Assign { src, .. } => reg(src).into_iter().collect(),
        IrInst::JmpIfFalse { cond: IrDest::Reg(r), .. } => vec![*r],
        _ => vec![],
    }
}

fn written(i: &IrInst) -> Option<usize> {
    match i {
        IrInst::Binary { dest: IrDest::Reg(r), .. } | IrInst::Assign { dest: IrDest::Reg(r), .. } => Some(*r),
        _ => None,
    }
}

#[test]
fn registers_written_before_read_and_binaries_unique() {
    let p = program("let x = 1; x = { x + 2 * 3; }; if x && true { x * 2; } else { 1 + 1; };");
    let mut emitter = IrEmitter::new(&p.idtable);
    let ir = emitter.emit_ir(&p);
    for (i, inst) in ir.iter().enumerate() {
        for r in reads(inst) {
            assert!(ir[..i].iter().any(|w| written(w) == Some(r)));
        }
        if let IrInst::Binary { dest: IrDest::Reg(r), .. } = inst {
            for (j, other) in ir.iter().enumerate() {
                if j != i {
                    assert_ne!(written(other), Some(*r));
                }
            }
        }
    }
}

#[test]
fn statement_register_is_fresh_across_calls() {
    let p = program("1 + 2; if true { 3; }; 4 * 5;");
    let mut emitter = IrEmitter::new(&p.idtable);
    let mut instrs: Vec<IrInst> = Vec::new();
    for s in &p.stmts {
        let before = instrs.len();
        emitter.emit_stmt(s, &mut instrs);
        let last = instrs.last().unwrap().clone();
        let r = match last {
            IrInst::Assign { dest: IrDest::Reg(r), .. } => r,
            other => panic!("unexpected {:?}", other),
        };
        assert!(instrs.len() > before);
        for inst in &instrs[..instrs.len() - 1] {
            assert!(!reads(inst).contains(&r));
            assert_ne!(written(inst), Some(r));
        }
    }
}
