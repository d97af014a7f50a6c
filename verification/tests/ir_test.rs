use meno::ir::{BinaryOp, IrDest, IrEmitter, IrInst, IrVal};
use meno::lexer::Lexer;
use meno::parser::Parser;

fn emit_ir(s: &str) -> Vec<IrInst> {
    let mut lexer = Lexer::new(s);
    let lxms = &lexer.tokenize();
    let parser = Parser::new(lxms, lexer.idtable);
    let program = parser.parse_program();
    let mut emitter = IrEmitter::new(&program.idtable);
    emitter.emit_ir(&program)
}

#[test]
fn silly_ir() {
    let s = "x = 1;";
    let ir = vec![IrInst::Assign { dest: IrDest::Var("x".to_string()), src: IrVal::ConstInt(1) }];
    assert_eq!(emit_ir(s), ir);
    let s = "let x = 1;";
    assert_eq!(emit_ir(s), ir);
    let s = "42;";
    let ir = vec![IrInst::Assign { dest: IrDest::Reg(0), src: IrVal::ConstInt(42) }];
    assert_eq!(emit_ir(s), ir);
}

#[test]
fn silly_exprs_ir() {
    let s = "x = 1 + 2;";
    let ir = vec![
        IrInst::Binary {
            dest: IrDest::Reg(0),
            op: BinaryOp::Add,
            left: IrVal::ConstInt(1),
            right: IrVal::ConstInt(2),
        },
        IrInst::Assign { dest: IrDest::Var("x".to_string()), src: IrVal::Reg(0) },
    ];
    assert_eq!(emit_ir(s), ir);
    let s = "x = y && 42;";
    let ir = vec![
        IrInst::Binary {
            dest: IrDest::Reg(0),
            op: BinaryOp::And,
            left: IrVal::Var("y".to_string()),
            right: IrVal::ConstInt(42),
        },
        IrInst::Assign { dest: IrDest::Var("x".to_string()), src: IrVal::Reg(0) },
    ];
    assert_eq!(emit_ir(s), ir);
}

#[test]
fn cond_ir() {
    let s = "
      let x = false;
      if 1 && 2 {
        x = 2;
      } else {
        x = 3;
      };
    ";
    let ir = emit_ir(s);
    for inst in &ir {
        println!("{}", inst.to_text().trim_end());
    }
    let reg = |n: usize| IrDest::Reg(n);
    let x = || IrDest::Var("x".to_string());
    let expected = vec![
        IrInst::Assign { dest: x(), src: IrVal::ConstBool(false) },
        IrInst::Binary {
            dest: reg(3),
            op: BinaryOp::And,
            left: IrVal::ConstInt(1),
            right: IrVal::ConstInt(2),
        },
        IrInst::Assign { dest: reg(2), src: IrVal::Reg(3) },
        IrInst::JmpIfFalse { cond: reg(2), jmp_to: ".else0".to_string() },
        IrInst::Assign { dest: reg(4), src: IrVal::ConstUnit },
        IrInst::Assign { dest: x(), src: IrVal::ConstInt(2) },
        IrInst::Assign { dest: reg(1), src: IrVal::Reg(4) },
        IrInst::Jmp(".merge0".to_string()),
        IrInst::Label(".else0".to_string()),
        IrInst::Assign { dest: reg(5), src: IrVal::ConstUnit },
        IrInst::Assign { dest: x(), src: IrVal::ConstInt(3) },
        IrInst::Assign { dest: reg(1), src: IrVal::Reg(5) },
        IrInst::Label(".merge0".to_string()),
        IrInst::Assign { dest: reg(0), src: IrVal::Reg(1) },
    ];
    assert_eq!(ir, expected);
}
