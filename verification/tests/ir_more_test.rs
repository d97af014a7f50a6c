use meno::ir::{BinaryOp, IrDest, IrEmitter, IrInst, IrVal};
use meno::lexer::Lexer;
use meno::parser::Parser;

fn program(s: &str) -> meno::ast::Program {
    let mut lexer = Lexer::new(s);
    let lxms = lexer.tokenize();
    Parser::new(&lxms, lexer.idtable).parse_program()
}

fn check_flow(ir: &[IrInst]) {
    let labels: Vec<&String> = ir
        .iter()
        .filter_map(|i| match i {
            IrInst::Label(l) => Some(l),
            _ => None,
        })
        .collect();
    for (i, a) in labels.iter().enumerate() {
        for b in &labels[i + 1..] {
            assert_ne!(a, b);
        }
    }
    for inst in ir {
        match inst {
            IrInst::Jmp(l) | IrInst::JmpIfFalse { jmp_to: l, .. } => assert!(labels.contains(&l)),
            _ => {}
        }
    }
}

#[test]
fn nested_conditionals_have_well_formed_flow() {
    let p = program("if 1 { if 2 { 3; } else { 4; }; } else { if 5 { 6; }; };");
    let mut emitter = IrEmitter::new(&p.idtable);
    let ir = emitter.emit_ir(&p);
    check_flow(&ir);
    let texts: Vec<String> = ir
        .iter()
        .filter_map(|i| match i {
            IrInst::Label(l) => Some(l.clone()),
            _ => None,
        })
        .collect();
    assert_eq!(texts, vec![".else1", ".merge1", ".else0", ".else2", ".merge2", ".merge0"]);
}

#[test]
fn successive_programs_get_fresh_registers_and_labels() {
    let p = program("if 1 { 2; };");
    let mut emitter = IrEmitter::new(&p.idtable);
    let first = emitter.emit_ir(&p);
    let second = emitter.emit_ir(&p);
    let regs = |ir: &Vec<IrInst>| -> Vec<usize> {
        ir.iter()
            .filter_map(|i| match i {
                IrInst::Assign { dest: IrDest::Reg(r), .. } | IrInst::Binary { dest: IrDest::Reg(r), .. } => Some(*r),
                _ => None,
            })
            .collect()
    };
    let max_first = regs(&first).into_iter().max().unwrap();
    assert!(regs(&second).into_iter().all(|r| r > max_first));
    let mut both = first.clone();
    both.extend(second.clone());
    check_flow(&both);
    assert!(second.contains(&IrInst::Label(".else1".to_string())));
}

#[test]
fn statement_by_statement_equals_whole_program() {
    let p = program("let a = 1 * 2; b = { a; 3; }; if a { b; };");
    let mut whole = IrEmitter::new(&p.idtable);
    let all = whole.emit_ir(&p);
    let mut one = IrEmitter::new(&p.idtable);
    let mut piecewise: Vec<IrInst> = Vec::new();
    for s in &p.stmts {
        one.emit_stmt(s, &mut piecewise);
    }
    assert_eq!(all, piecewise);
}

#[test]
fn unary_operands_get_the_placeholder_register() {
    let p = program("-1;");
    let mut emitter = IrEmitter::new(&p.idtable);
    assert_eq!(
        emitter.emit_ir(&p),
        vec![IrInst::Assign { dest: IrDest::Reg(0), src: IrVal::Reg(67) }]
    );
}

#[test]
fn blocks_and_multiplication() {
    let p = program("x = { 2 * 3; };");
    let mut emitter = IrEmitter::new(&p.idtable);
    assert_eq!(
        emitter.emit_ir(&p),
        vec![
            IrInst::Assign { dest: IrDest::Reg(0), src: IrVal::ConstUnit },
            IrInst::Binary {
                dest: IrDest::Reg(1),
                op: BinaryOp::Mul,
                left: IrVal::ConstInt(2),
                right: IrVal::ConstInt(3),
            },
            IrInst::Assign { dest: IrDest::Reg(0), src: IrVal::Reg(1) },
            IrInst::Assign { dest: IrDest::Var("x".to_string()), src: IrVal::Reg(0) },
        ]
    );
}

#[test]
fn instruction_text() {
    let r = |n: usize| IrDest::Reg(n);
    assert_eq!(IrInst::Label(".else3".to_string()).to_text(), ".else3:\n");
    assert_eq!(
        IrInst::Assign { dest: r(12), src: IrVal::ConstInt(-45) }.to_text(),
        "  %12 = -45\n"
    );
    assert_eq!(
        IrInst::Assign { dest: IrDest::Var("v".to_string()), src: IrVal::ConstUnit }.to_text(),
        "  v = ()\n"
    );
    assert_eq!(
        IrInst::Binary {
            dest: r(0),
            op: BinaryOp::And,
            left: IrVal::ConstBool(true),
            right: IrVal::Var("y".to_string()),
        }
        .to_text(),
        "  %0 = and true y\n"
    );
    assert_eq!(IrInst::Jmp(".merge0".to_string()).to_text(), "  jmp .merge0\n");
    assert_eq!(
        IrInst::JmpIfFalse { cond: r(7), jmp_to: ".else0".to_string() }.to_text(),
        "  jmp_if_false %7 .else0\n"
    );
    assert_eq!(IrVal::ConstInt(-2147483648).to_text(), "-2147483648");
    assert_eq!(IrVal::ConstBool(false).to_text(), "false");
    assert_eq!(IrVal::Reg(100).to_text(), "%100");
    assert_eq!(BinaryOp::Add.to_text(), "add");
    assert_eq!(BinaryOp::Mul.to_text(), "mul");
    assert_eq!(IrDest::Var("zz".to_string()).to_text(), "zz");
}

#[test]
fn clone_keeps_the_program() {
    let p = program("let a = if 1 { 2; } else { { 3; }; }; a = -a;");
    let q = p.clone();
    assert_eq!(p, q);
}
