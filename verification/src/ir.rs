//! Lowering the syntax tree to a three-address intermediate representation.
use crate::ast;
use crate::ast::{lemma_stmts_model, stmts_model, ExprModel, StmtModel};
use crate::ir_laws::{lemma_lower_stmt_target, written_reg};
use crate::ir_order::{
    binary_dests_unique, control_counts, jumps_forward, lemma_lower_stmt_regs_below,
    lemma_lower_stmts_binary_unique, lemma_lower_stmts_counts, lemma_lower_stmts_forward,
    lemma_lower_stmts_written, lemma_stmt_register_fresh, lowered_ifs_stmts, mentions, per_if,
    regs_below, unary_free_stmt, unary_free_stmts, written_before_read,
};
use crate::lexer::names_view;
use crate::text::{decimal, push_decimal, push_signed_decimal, push_str, signed_decimal};
use vstd::prelude::*;

verus! {

/// An operand: a virtual register, a constant or a named variable.
#[derive(Debug, Clone, PartialEq)]
pub enum IrVal {
    Reg(usize),
    ConstInt(i32),
    ConstBool(bool),
    ConstUnit,
    Var(String),
}

/// The binary operators of the intermediate representation.
#[derive(Debug, Clone, Copy, PartialEq, Eq, Structural)]
pub enum BinaryOp {
    Add,
    Mul,
    And,
}

/// Where an instruction stores its result.
#[derive(Debug, Clone, PartialEq)]
pub enum IrDest {
    Reg(usize),
    Var(String),
}

/// An instruction.
#[derive(Debug, Clone, PartialEq)]
pub enum IrInst {
    Binary { dest: IrDest, op: BinaryOp, left: IrVal, right: IrVal },
    Assign { dest: IrDest, src: IrVal },
    Label(String),
    Jmp(String),
    JmpIfFalse { cond: IrDest, jmp_to: String },
}

/// A function: a list of instructions.
#[derive(Debug, Clone, PartialEq)]
pub struct IrFunction {
    pub instr: Vec<IrInst>,
}

/// A program: a list of functions.
#[derive(Debug, Clone, PartialEq)]
pub struct IrProgram {
    pub functions: Vec<IrFunction>,
}

/// The value of an operand, with names as sequences of characters.
pub enum IrValModel {
    Reg(nat),
    ConstInt(i32),
    ConstBool(bool),
    ConstUnit,
    Var(Seq<char>),
}

pub enum IrDestModel {
    Reg(nat),
    Var(Seq<char>),
}

pub enum IrInstModel {
    Binary { dest: IrDestModel, op: BinaryOp, left: IrValModel, right: IrValModel },
    Assign { dest: IrDestModel, src: IrValModel },
    Label(Seq<char>),
    Jmp(Seq<char>),
    JmpIfFalse { cond: IrDestModel, jmp_to: Seq<char> },
}

impl View for IrVal {
    type V = IrValModel;

    open spec fn view(&self) -> IrValModel {
        match self {
            IrVal::Reg(r) => IrValModel::Reg(*r as nat),
            IrVal::ConstInt(x) => IrValModel::ConstInt(*x),
            IrVal::ConstBool(b) => IrValModel::ConstBool(*b),
            IrVal::ConstUnit => IrValModel::ConstUnit,
            IrVal::Var(s) => IrValModel::Var(s@),
        }
    }
}

impl View for IrDest {
    type V = IrDestModel;

    open spec fn view(&self) -> IrDestModel {
        match self {
            IrDest::Reg(r) => IrDestModel::Reg(*r as nat),
            IrDest::Var(s) => IrDestModel::Var(s@),
        }
    }
}

impl View for IrInst {
    type V = IrInstModel;

    open spec fn view(&self) -> IrInstModel {
        match self {
            IrInst::Binary { dest, op, left, right } => IrInstModel::Binary {
                dest: dest@,
                op: *op,
                left: left@,
                right: right@,
            },
            IrInst::Assign { dest, src } => IrInstModel::Assign { dest: dest@, src: src@ },
            IrInst::Label(l) => IrInstModel::Label(l@),
            IrInst::Jmp(l) => IrInstModel::Jmp(l@),
            IrInst::JmpIfFalse { cond, jmp_to } => IrInstModel::JmpIfFalse {
                cond: cond@,
                jmp_to: jmp_to@,
            },
        }
    }
}

/// The instructions of a list, each by its value.
pub open spec fn insts_view(v: Seq<IrInst>) -> Seq<IrInstModel> {
    v.map_values(|i: IrInst| i@)
}

/// The label of the else branch of the `k`-th conditional.
pub open spec fn else_label(k: nat) -> Seq<char> {
    seq!['.', 'e', 'l', 's', 'e'] + decimal(k)
}

/// The label after the `k`-th conditional.
pub open spec fn merge_label(k: nat) -> Seq<char> {
    seq!['.', 'm', 'e', 'r', 'g', 'e'] + decimal(k)
}

/// The source operators that have an instruction.
pub open spec fn lowered_op(op: ast::BinaryOp) -> Option<BinaryOp> {
    match op {
        ast::BinaryOp::Add => Some(BinaryOp::Add),
        ast::BinaryOp::Mul => Some(BinaryOp::Mul),
        ast::BinaryOp::And => Some(BinaryOp::And),
        _ => None,
    }
}

/// What the lowering of an expression gives: its instructions, the operand
/// that holds its value, and the next free register and label numbers.
pub struct Lowered {
    pub insts: Seq<IrInstModel>,
    pub val: IrValModel,
    pub regs: nat,
    pub labels: nat,
}

/// What the lowering of statements gives: their instructions and the next
/// free register and label numbers.
pub struct LoweredStmts {
    pub insts: Seq<IrInstModel>,
    pub regs: nat,
    pub labels: nat,
}

/// The operand an expression without a lowering is given.
pub open spec fn placeholder() -> IrValModel {
    IrValModel::Reg(67)
}

/// Whether an expression can be lowered: its variables are in the table of
/// `n` names, its binary operators have instructions and its blocks are not
/// empty. The operand of a unary operator is not looked at.
pub open spec fn lowerable_expr(e: ExprModel, n: nat) -> bool
    decreases e,
{
    match e {
        ExprModel::ConstInt(_) => true,
        ExprModel::ConstBool(_) => true,
        ExprModel::Var(id) => id < n,
        ExprModel::Unary { .. } => true,
        ExprModel::Binary { op, left, right } => lowered_op(op) is Some && lowerable_expr(*left, n)
            && lowerable_expr(*right, n),
        ExprModel::Block { content } => content.len() > 0 && lowerable_stmts(content, n),
        ExprModel::If { cond, tbranch, fbranch } => lowerable_expr(*cond, n) && lowerable_expr(
            *tbranch,
            n,
        ) && match fbranch {
            Some(f) => lowerable_expr(*f, n),
            None => true,
        },
    }
}

pub open spec fn lowerable_stmt(s: StmtModel, n: nat) -> bool
    decreases s,
{
    match s {
        StmtModel::Decl { name_id, rhs, .. } => name_id < n && lowerable_expr(*rhs, n),
        StmtModel::Assignment { name_id, rhs } => name_id < n && lowerable_expr(*rhs, n),
        StmtModel::Expr(e) => lowerable_expr(e, n),
    }
}

pub open spec fn lowerable_stmts(ss: Seq<StmtModel>, n: nat) -> bool
    decreases ss,
{
    if ss.len() == 0 {
        true
    } else {
        lowerable_stmts(ss.subrange(0, ss.len() - 1), n) && lowerable_stmt(ss[ss.len() - 1], n)
    }
}

/// The lowering of an expression with the names `names`, from register
/// `regs` and label `labels` on.
pub open spec fn lower_expr(e: ExprModel, names: Seq<Seq<char>>, regs: nat, labels: nat) -> Lowered
    decreases e,
{
    match e {
        ExprModel::ConstInt(x) => Lowered {
            insts: Seq::empty(),
            val: IrValModel::ConstInt(x),
            regs,
            labels,
        },
        ExprModel::ConstBool(b) => Lowered {
            insts: Seq::empty(),
            val: IrValModel::ConstBool(b),
            regs,
            labels,
        },
        ExprModel::Var(id) => Lowered {
            insts: Seq::empty(),
            val: IrValModel::Var(names[id as int]),
            regs,
            labels,
        },
        ExprModel::Unary { .. } => Lowered { insts: Seq::empty(), val: placeholder(), regs, labels },
        ExprModel::Binary { op, left, right } => {
            let l = lower_expr(*left, names, regs + 1, labels);
            let r = lower_expr(*right, names, l.regs, l.labels);
            Lowered {
                insts: l.insts + r.insts + seq![
                    IrInstModel::Binary {
                        dest: IrDestModel::Reg(regs),
                        op: lowered_op(op).unwrap(),
                        left: l.val,
                        right: r.val,
                    },
                ],
                val: IrValModel::Reg(regs),
                regs: r.regs,
                labels: r.labels,
            }
        },
        ExprModel::Block { content } => {
            let n = content.len();
            if n == 0 {
                Lowered {
                    insts: seq![
                        IrInstModel::Assign { dest: IrDestModel::Reg(regs), src: IrValModel::ConstUnit },
                    ],
                    val: IrValModel::Reg(regs),
                    regs: regs + 1,
                    labels,
                }
            } else {
                let init = lower_stmts(content.subrange(0, n - 1), names, regs + 1, labels);
                let head = seq![
                    IrInstModel::Assign { dest: IrDestModel::Reg(regs), src: IrValModel::ConstUnit },
                ] + init.insts;
                match content[n - 1] {
                    StmtModel::Expr(last) => {
                        let l = lower_expr(last, names, init.regs, init.labels);
                        Lowered {
                            insts: head + l.insts + seq![
                                IrInstModel::Assign { dest: IrDestModel::Reg(regs), src: l.val },
                            ],
                            val: IrValModel::Reg(regs),
                            regs: l.regs,
                            labels: l.labels,
                        }
                    },
                    last => {
                        let l = lower_stmt(last, names, init.regs, init.labels);
                        Lowered {
                            insts: head + l.insts,
                            val: IrValModel::Reg(regs),
                            regs: l.regs,
                            labels: l.labels,
                        }
                    },
                }
            }
        },
        ExprModel::If { cond, tbranch, fbranch } => {
            let c = lower_expr(*cond, names, regs + 2, labels);
            let k = c.labels;
            let t = lower_expr(*tbranch, names, c.regs, k + 1);
            let head = c.insts + seq![
                IrInstModel::Assign { dest: IrDestModel::Reg(regs + 1), src: c.val },
                IrInstModel::JmpIfFalse { cond: IrDestModel::Reg(regs + 1), jmp_to: else_label(k) },
            ] + t.insts + seq![
                IrInstModel::Assign { dest: IrDestModel::Reg(regs), src: t.val },
                IrInstModel::Jmp(merge_label(k)),
                IrInstModel::Label(else_label(k)),
            ];
            match fbranch {
                Some(f) => {
                    let fl = lower_expr(*f, names, t.regs, t.labels);
                    Lowered {
                        insts: head + fl.insts + seq![
                            IrInstModel::Assign { dest: IrDestModel::Reg(regs), src: fl.val },
                            IrInstModel::Label(merge_label(k)),
                        ],
                        val: IrValModel::Reg(regs),
                        regs: fl.regs,
                        labels: fl.labels,
                    }
                },
                None => Lowered {
                    insts: head + seq![IrInstModel::Label(merge_label(k))],
                    val: IrValModel::Reg(regs),
                    regs: t.regs,
                    labels: t.labels,
                },
            }
        },
    }
}

/// The lowering of a statement.
pub open spec fn lower_stmt(s: StmtModel, names: Seq<Seq<char>>, regs: nat, labels: nat) -> LoweredStmts
    decreases s,
{
    match s {
        StmtModel::Decl { name_id, rhs, .. } => {
            let l = lower_expr(*rhs, names, regs, labels);
            LoweredStmts {
                insts: l.insts + seq![
                    IrInstModel::Assign { dest: IrDestModel::Var(names[name_id as int]), src: l.val },
                ],
                regs: l.regs,
                labels: l.labels,
            }
        },
        StmtModel::Assignment { name_id, rhs } => {
            let l = lower_expr(*rhs, names, regs, labels);
            LoweredStmts {
                insts: l.insts + seq![
                    IrInstModel::Assign { dest: IrDestModel::Var(names[name_id as int]), src: l.val },
                ],
                regs: l.regs,
                labels: l.labels,
            }
        },
        StmtModel::Expr(e) => {
            let l = lower_expr(e, names, regs + 1, labels);
            LoweredStmts {
                insts: l.insts + seq![
                    IrInstModel::Assign { dest: IrDestModel::Reg(regs), src: l.val },
                ],
                regs: l.regs,
                labels: l.labels,
            }
        },
    }
}

/// The lowering of statements, one after the other.
pub open spec fn lower_stmts(ss: Seq<StmtModel>, names: Seq<Seq<char>>, regs: nat, labels: nat) -> LoweredStmts
    decreases ss,
{
    if ss.len() == 0 {
        LoweredStmts { insts: Seq::empty(), regs, labels }
    } else {
        let a = lower_stmts(ss.subrange(0, ss.len() - 1), names, regs, labels);
        let b = lower_stmt(ss[ss.len() - 1], names, a.regs, a.labels);
        LoweredStmts { insts: a.insts + b.insts, regs: b.regs, labels: b.labels }
    }
}

/// Lowering never gives back a register or label number: the counters only
/// grow.
pub proof fn lemma_lower_expr_grows(e: ExprModel, names: Seq<Seq<char>>, regs: nat, labels: nat)
    ensures
        regs <= lower_expr(e, names, regs, labels).regs,
        labels <= lower_expr(e, names, regs, labels).labels,
    decreases e,
{
    match e {
        ExprModel::Binary { op, left, right } => {
            lemma_lower_expr_grows(*left, names, regs + 1, labels);
            let l = lower_expr(*left, names, regs + 1, labels);
            lemma_lower_expr_grows(*right, names, l.regs, l.labels);
        },
        ExprModel::Block { content } => {
            let n = content.len();
            if n > 0 {
                lemma_lower_stmts_grows(content.subrange(0, n - 1), names, regs + 1, labels);
                let init = lower_stmts(content.subrange(0, n - 1), names, regs + 1, labels);
                match content[n - 1] {
                    StmtModel::Expr(last) => {
                        lemma_lower_expr_grows(last, names, init.regs, init.labels);
                    },
                    last => {
                        lemma_lower_stmt_grows(last, names, init.regs, init.labels);
                    },
                }
            }
        },
        ExprModel::If { cond, tbranch, fbranch } => {
            lemma_lower_expr_grows(*cond, names, regs + 2, labels);
            let c = lower_expr(*cond, names, regs + 2, labels);
            lemma_lower_expr_grows(*tbranch, names, c.regs, c.labels + 1);
            let t = lower_expr(*tbranch, names, c.regs, c.labels + 1);
            if let Some(f) = fbranch {
                lemma_lower_expr_grows(*f, names, t.regs, t.labels);
            }
        },
        _ => {},
    }
}

/// Lowering a statement never moves the register or label counter back.
pub proof fn lemma_lower_stmt_grows(s: StmtModel, names: Seq<Seq<char>>, regs: nat, labels: nat)
    ensures
        regs <= lower_stmt(s, names, regs, labels).regs,
        labels <= lower_stmt(s, names, regs, labels).labels,
    decreases s,
{
    match s {
        StmtModel::Decl { rhs, .. } => lemma_lower_expr_grows(*rhs, names, regs, labels),
        StmtModel::Assignment { rhs, .. } => lemma_lower_expr_grows(*rhs, names, regs, labels),
        StmtModel::Expr(e) => lemma_lower_expr_grows(e, names, regs + 1, labels),
    }
}

/// Lowering a sequence of statements never moves the register or label
/// counter back.
pub proof fn lemma_lower_stmts_grows(ss: Seq<StmtModel>, names: Seq<Seq<char>>, regs: nat, labels: nat)
    ensures
        regs <= lower_stmts(ss, names, regs, labels).regs,
        labels <= lower_stmts(ss, names, regs, labels).labels,
    decreases ss,
{
    if ss.len() > 0 {
        lemma_lower_stmts_grows(ss.subrange(0, ss.len() - 1), names, regs, labels);
        let a = lower_stmts(ss.subrange(0, ss.len() - 1), names, regs, labels);
        lemma_lower_stmt_grows(ss[ss.len() - 1], names, a.regs, a.labels);
    }
}

/// Lowering a prefix of statements stops at counters no greater than
/// lowering them all; each further statement extends the prefix's lowering
/// by its own, and a prefix (and each statement) of a lowerable sequence is
/// lowerable.
pub proof fn lemma_lower_stmts_prefix(ss: Seq<StmtModel>, k: int, names: Seq<Seq<char>>, regs: nat, labels: nat)
    requires
        0 <= k <= ss.len(),
    ensures
        lower_stmts(ss.subrange(0, k), names, regs, labels).regs <= lower_stmts(ss, names, regs, labels).regs,
        lower_stmts(ss.subrange(0, k), names, regs, labels).labels <= lower_stmts(ss, names, regs, labels).labels,
        lowerable_stmts(ss, names.len()) ==> lowerable_stmts(ss.subrange(0, k), names.len()),
        k < ss.len() ==> lower_stmts(ss.subrange(0, k + 1), names, regs, labels) == ({
            let a = lower_stmts(ss.subrange(0, k), names, regs, labels);
            let b = lower_stmt(ss[k], names, a.regs, a.labels);
            LoweredStmts { insts: a.insts + b.insts, regs: b.regs, labels: b.labels }
        }),
        k < ss.len() && lowerable_stmts(ss, names.len()) ==> lowerable_stmt(ss[k], names.len()),
    decreases ss.len() - k,
{
    if k == ss.len() {
        assert(ss.subrange(0, k) =~= ss);
    } else {
        let pre = ss.subrange(0, ss.len() - 1);
        assert(ss.subrange(0, k + 1).subrange(0, k) =~= ss.subrange(0, k));
        assert(ss.subrange(0, k + 1)[k] == ss[k]);
        lemma_lower_stmts_prefix(pre, k, names, regs, labels);
        assert(pre.subrange(0, k) =~= ss.subrange(0, k));
        if k + 1 < ss.len() {
            assert(pre.subrange(0, k + 1) =~= ss.subrange(0, k + 1));
            assert(pre[k] == ss[k]);
        }
        let a = lower_stmts(pre, names, regs, labels);
        lemma_lower_stmt_grows(ss[ss.len() - 1], names, a.regs, a.labels);
    }
}

proof fn lemma_insts_view_push(v: Seq<IrInst>, i: IrInst)
    ensures
        insts_view(v.push(i)) == insts_view(v).push(i@),
{
    assert(insts_view(v.push(i)) =~= insts_view(v).push(i@));
}

fn lower_op(op: ast::BinaryOp) -> (r: BinaryOp)
    requires
        lowered_op(op) is Some,
    ensures
        r == lowered_op(op).unwrap(),
{
    match op {
        ast::BinaryOp::Add => BinaryOp::Add,
        ast::BinaryOp::Mul => BinaryOp::Mul,
        _ => BinaryOp::And,
    }
}

/// The text of the label of the else branch (or of the end) of the `k`-th
/// conditional.
fn make_label(is_else: bool, k: usize) -> (s: String)
    ensures
        s@ == if is_else { else_label(k as nat) } else { merge_label(k as nat) },
{
    let mut s = String::new();
    if is_else {
        proof {
            reveal_strlit(".else");
        }
        push_str(&mut s, ".else");
    } else {
        proof {
            reveal_strlit(".merge");
        }
        push_str(&mut s, ".merge");
    }
    push_decimal(&mut s, k as u64);
    s
}

/// Lowers statements to instructions, numbering the registers and labels it
/// makes up in order.
#[derive(Debug, Clone, PartialEq)]
pub struct IrEmitter {
    idtable: Vec<String>,
    next_reg: usize,
    next_label: usize,
}

/// The lowering of an expression fits in the machine's counters.
pub open spec fn fits(l: Lowered) -> bool {
    l.regs <= usize::MAX && l.labels <= usize::MAX
}

pub open spec fn fits_stmts(l: LoweredStmts) -> bool {
    l.regs <= usize::MAX && l.labels <= usize::MAX
}

impl IrEmitter {
    /// The names of the variables.
    pub closed spec fn names(&self) -> Seq<Seq<char>> {
        names_view(self.idtable@)
    }

    /// The next free register.
    pub closed spec fn regs(&self) -> nat {
        self.next_reg as nat
    }

    /// The number of the next conditional.
    pub closed spec fn labels(&self) -> nat {
        self.next_label as nat
    }

    pub fn new(idtable: &Vec<String>) -> (e: IrEmitter)
        ensures
            e.names() == names_view(idtable@),
            e.regs() == 0,
            e.labels() == 0,
    {
        let e = IrEmitter { next_reg: 0, idtable: idtable.clone(), next_label: 0 };
        assert(e.idtable@ =~= idtable@);
        e
    }

    fn new_reg(&mut self) -> (r: usize)
        requires
            old(self).next_reg < usize::MAX,
        ensures
            r == old(self).next_reg,
            final(self).next_reg == old(self).next_reg + 1,
            final(self).next_label == old(self).next_label,
            final(self).names() == old(self).names(),
    {
        self.next_reg = self.next_reg + 1;
        self.next_reg - 1
    }

    fn new_label(&mut self) -> (r: usize)
        requires
            old(self).next_label < usize::MAX,
        ensures
            r == old(self).next_label,
            final(self).next_label == old(self).next_label + 1,
            final(self).next_reg == old(self).next_reg,
            final(self).names() == old(self).names(),
    {
        self.next_label = self.next_label + 1;
        self.next_label - 1
    }

    fn emit_expr(&mut self, expr: &ast::Expr, instrs: &mut Vec<IrInst>) -> (v: IrVal)
        requires
            lowerable_expr(expr@, old(self).names().len()),
            fits(lower_expr(expr@, old(self).names(), old(self).regs(), old(self).labels())),
        ensures
            ({
                let l = lower_expr(expr@, old(self).names(), old(self).regs(), old(self).labels());
                &&& insts_view(final(instrs)@) == insts_view(old(instrs)@) + l.insts
                &&& v@ == l.val
                &&& final(self).regs() == l.regs
                &&& final(self).labels() == l.labels
            }),
            final(self).names() == old(self).names(),
        decreases expr, 1nat,
    {
        match expr {
            ast::Expr::ConstInt(x) => {
                assert(insts_view(instrs@) =~= insts_view(instrs@) + Seq::<IrInstModel>::empty());
                IrVal::ConstInt(*x)
            },
            ast::Expr::ConstBool(b) => {
                assert(insts_view(instrs@) =~= insts_view(instrs@) + Seq::<IrInstModel>::empty());
                IrVal::ConstBool(*b)
            },
            ast::Expr::Var(id) => {
                assert(insts_view(instrs@) =~= insts_view(instrs@) + Seq::<IrInstModel>::empty());
                IrVal::Var(self.idtable[*id].clone())
            },
            ast::Expr::Binary { .. } => self.emit_binary(expr, instrs),
            ast::Expr::If { .. } => self.emit_if(expr, instrs),
            ast::Expr::Block { .. } => self.emit_block(expr, instrs),
            _ => {
                assert(insts_view(instrs@) =~= insts_view(instrs@) + Seq::<IrInstModel>::empty());
                IrVal::Reg(67)
            },
        }
    }

    fn emit_binary(&mut self, expr: &ast::Expr, instrs: &mut Vec<IrInst>) -> (v: IrVal)
        requires
            expr is Binary,
            lowerable_expr(expr@, old(self).names().len()),
            fits(lower_expr(expr@, old(self).names(), old(self).regs(), old(self).labels())),
        ensures
            ({
                let l = lower_expr(expr@, old(self).names(), old(self).regs(), old(self).labels());
                &&& insts_view(final(instrs)@) == insts_view(old(instrs)@) + l.insts
                &&& v@ == l.val
                &&& final(self).regs() == l.regs
                &&& final(self).labels() == l.labels
            }),
            final(self).names() == old(self).names(),
        decreases expr, 0nat,
    {
        match expr {
            ast::Expr::Binary { op, left, right } => {
                let ghost names = self.names();
                let ghost regs0 = self.regs();
                let ghost labels0 = self.labels();
                let ghost i0 = insts_view(instrs@);
                let ghost l = lower_expr(left@, names, regs0 + 1, labels0);
                let ghost r = lower_expr(right@, names, l.regs, l.labels);
                proof {
                    lemma_lower_expr_grows(left@, names, regs0 + 1, labels0);
                    lemma_lower_expr_grows(right@, names, l.regs, l.labels);
                }
                let lhs = self.new_reg();
                let iop = lower_op(*op);
                let lv = self.emit_expr(left, instrs);
                let rv = self.emit_expr(right, instrs);
                let aux = IrInst::Binary { dest: IrDest::Reg(lhs), op: iop, left: lv, right: rv };
                let ghost before = instrs@;
                instrs.push(aux);
                proof {
                    lemma_insts_view_push(before, aux);
                    assert(insts_view(instrs@) =~= i0 + lower_expr(expr@, names, regs0, labels0).insts);
                }
                IrVal::Reg(lhs)
            },
            _ => IrVal::ConstUnit,
        }
    }

    #[verifier::rlimit(40)]
    fn emit_if(&mut self, expr: &ast::Expr, instrs: &mut Vec<IrInst>) -> (v: IrVal)
        requires
            expr is If,
            lowerable_expr(expr@, old(self).names().len()),
            fits(lower_expr(expr@, old(self).names(), old(self).regs(), old(self).labels())),
        ensures
            ({
                let l = lower_expr(expr@, old(self).names(), old(self).regs(), old(self).labels());
                &&& insts_view(final(instrs)@) == insts_view(old(instrs)@) + l.insts
                &&& v@ == l.val
                &&& final(self).regs() == l.regs
                &&& final(self).labels() == l.labels
            }),
            final(self).names() == old(self).names(),
        decreases expr, 0nat,
    {
        match expr {
            ast::Expr::If { cond, tbranch, fbranch } => {
                let ghost names = self.names();
                let ghost regs0 = self.regs();
                let ghost labels0 = self.labels();
                let ghost i0 = insts_view(instrs@);
                let ghost c = lower_expr(cond@, names, regs0 + 2, labels0);
                let ghost k = c.labels;
                let ghost t = lower_expr(tbranch@, names, c.regs, k + 1);
                proof {
                    lemma_lower_expr_grows(cond@, names, regs0 + 2, labels0);
                    lemma_lower_expr_grows(tbranch@, names, c.regs, k + 1);
                    if let Some(f) = fbranch {
                        lemma_lower_expr_grows(f@, names, t.regs, t.labels);
                    }
                }
                let ret_val_r = self.new_reg();
                let cond_r = self.new_reg();
                let cv = self.emit_expr(cond, instrs);
                let cond_instr = IrInst::Assign { dest: IrDest::Reg(cond_r), src: cv };
                let ghost s1 = instrs@;
                instrs.push(cond_instr);
                proof {
                    lemma_insts_view_push(s1, cond_instr);
                }
                let label_id = self.new_label();
                let else_text = make_label(true, label_id);
                let merge_text = make_label(false, label_id);
                let jmp_if_false_instr = IrInst::JmpIfFalse {
                    cond: IrDest::Reg(cond_r),
                    jmp_to: else_text.clone(),
                };
                let ghost s2 = instrs@;
                instrs.push(jmp_if_false_instr);
                proof {
                    lemma_insts_view_push(s2, jmp_if_false_instr);
                }
                let ghost p1 = seq![
                    IrInstModel::Assign { dest: IrDestModel::Reg(regs0 + 1), src: c.val },
                    IrInstModel::JmpIfFalse { cond: IrDestModel::Reg(regs0 + 1), jmp_to: else_label(k) },
                ];
                assert(insts_view(instrs@) =~= i0 + c.insts + p1);
                let tv = self.emit_expr(tbranch, instrs);
                let tassign = IrInst::Assign { dest: IrDest::Reg(ret_val_r), src: tv };
                let ghost s3 = instrs@;
                instrs.push(tassign);
                proof {
                    lemma_insts_view_push(s3, tassign);
                }
                let jmp_merge_instr = IrInst::Jmp(merge_text.clone());
                let ghost s4 = instrs@;
                instrs.push(jmp_merge_instr);
                proof {
                    lemma_insts_view_push(s4, jmp_merge_instr);
                }
                let else_instr = IrInst::Label(else_text);
                let ghost s5 = instrs@;
                instrs.push(else_instr);
                proof {
                    lemma_insts_view_push(s5, else_instr);
                }
                let ghost p2 = seq![
                    IrInstModel::Assign { dest: IrDestModel::Reg(regs0), src: t.val },
                    IrInstModel::Jmp(merge_label(k)),
                    IrInstModel::Label(else_label(k)),
                ];
                let ghost head = c.insts + p1 + t.insts + p2;
                assert(insts_view(instrs@) =~= i0 + head);
                match fbranch {
                    Some(f) => {
                        let fv = self.emit_expr(f, instrs);
                        let fassign = IrInst::Assign { dest: IrDest::Reg(ret_val_r), src: fv };
                        let ghost s6 = instrs@;
                        instrs.push(fassign);
                        proof {
                            lemma_insts_view_push(s6, fassign);
                        }
                        let merge_instr = IrInst::Label(merge_text);
                        let ghost s7 = instrs@;
                        instrs.push(merge_instr);
                        proof {
                            lemma_insts_view_push(s7, merge_instr);
                            let fl = lower_expr(f@, names, t.regs, t.labels);
                            assert(lower_expr(expr@, names, regs0, labels0).insts == head + fl.insts
                                + seq![
                                IrInstModel::Assign { dest: IrDestModel::Reg(regs0), src: fl.val },
                                IrInstModel::Label(merge_label(k)),
                            ]);
                            assert(insts_view(instrs@) =~= i0 + lower_expr(
                                expr@,
                                names,
                                regs0,
                                labels0,
                            ).insts);
                        }
                    },
                    None => {
                        let merge_instr = IrInst::Label(merge_text);
                        let ghost s7 = instrs@;
                        instrs.push(merge_instr);
                        proof {
                            lemma_insts_view_push(s7, merge_instr);
                            assert(lower_expr(expr@, names, regs0, labels0).insts == head + seq![
                                IrInstModel::Label(merge_label(k)),
                            ]);
                            assert(insts_view(instrs@) =~= i0 + lower_expr(
                                expr@,
                                names,
                                regs0,
                                labels0,
                            ).insts);
                        }
                    },
                }
                IrVal::Reg(ret_val_r)
            },
            _ => IrVal::ConstUnit,
        }
    }

    fn emit_block(&mut self, expr: &ast::Expr, instrs: &mut Vec<IrInst>) -> (v: IrVal)
        requires
            expr is Block,
            lowerable_expr(expr@, old(self).names().len()),
            fits(lower_expr(expr@, old(self).names(), old(self).regs(), old(self).labels())),
        ensures
            ({
                let l = lower_expr(expr@, old(self).names(), old(self).regs(), old(self).labels());
                &&& insts_view(final(instrs)@) == insts_view(old(instrs)@) + l.insts
                &&& v@ == l.val
                &&& final(self).regs() == l.regs
                &&& final(self).labels() == l.labels
            }),
            final(self).names() == old(self).names(),
        decreases expr, 0nat,
    {
        match expr {
            ast::Expr::Block { content } => {
                let ghost names = self.names();
                let ghost regs0 = self.regs();
                let ghost labels0 = self.labels();
                let ghost i0 = insts_view(instrs@);
                let ghost cm = stmts_model(content@);
                proof {
                    lemma_stmts_model(content@);
                }
                let n = content.len();
                proof {
                    lemma_lower_stmts_prefix(cm, n - 1, names, regs0 + 1, labels0);
                }
                let ghost pre = cm.subrange(0, n - 1);
                let ghost init = lower_stmts(pre, names, regs0 + 1, labels0);
                proof {
                    lemma_lower_stmts_grows(pre, names, regs0 + 1, labels0);
                    match cm[n - 1] {
                        StmtModel::Expr(last) => {
                            lemma_lower_expr_grows(last, names, init.regs, init.labels);
                        },
                        last => {
                            lemma_lower_stmt_grows(last, names, init.regs, init.labels);
                        },
                    }
                }
                let ret_r = self.new_reg();
                let first = IrInst::Assign { dest: IrDest::Reg(ret_r), src: IrVal::ConstUnit };
                let ghost s0 = instrs@;
                instrs.push(first);
                proof {
                    lemma_insts_view_push(s0, first);
                    assert(pre.subrange(0, 0) =~= Seq::<StmtModel>::empty());
                    assert(insts_view(instrs@) =~= i0 + seq![first@] + Seq::<IrInstModel>::empty());
                }
                proof {
                    let ev: ast::Expr = *expr;
                    match ev {
                        ast::Expr::Block { content: c } => {
                            assert(decreases_to!(ev => c@));
                        },
                        _ => {},
                    }
                }
                let mut i: usize = 0;
                while i < n - 1
                    invariant
                        n == content@.len(),
                        n > 0,
                        decreases_to!(*expr => content@),
                        cm == stmts_model(content@),
                        cm.len() == n,
                        forall|j: int| 0 <= j < n ==> #[trigger] cm[j] == content@[j]@,
                        pre == cm.subrange(0, n - 1),
                        init == lower_stmts(pre, names, regs0 + 1, labels0),
                        init.regs <= usize::MAX,
                        init.labels <= usize::MAX,
                        lowerable_stmts(pre, names.len()),
                        i <= n - 1,
                        self.names() == old(self).names(),
                        names == self.names(),
                        insts_view(instrs@) == i0 + seq![first@] + lower_stmts(
                            pre.subrange(0, i as int),
                            names,
                            regs0 + 1,
                            labels0,
                        ).insts,
                        self.regs() == lower_stmts(pre.subrange(0, i as int), names, regs0 + 1, labels0).regs,
                        self.labels() == lower_stmts(pre.subrange(0, i as int), names, regs0 + 1, labels0).labels,
                    decreases n - 1 - i,
                {
                    proof {
                        lemma_lower_stmts_prefix(pre, i as int, names, regs0 + 1, labels0);
                        lemma_lower_stmts_prefix(pre, i + 1, names, regs0 + 1, labels0);
                    }
                    let ghost before = insts_view(instrs@);
                    assert(decreases_to!(content@ => content@[i as int]));
                    assert(decreases_to!(*expr => content@[i as int]));
                    self.emit_stmt(&content[i], instrs);
                    i += 1;
                    proof {
                        let a = lower_stmts(pre.subrange(0, i - 1), names, regs0 + 1, labels0);
                        let b = lower_stmt(pre[i - 1], names, a.regs, a.labels);
                        assert(insts_view(instrs@) =~= i0 + seq![first@] + (a.insts + b.insts));
                    }
                }
                proof {
                    assert(pre.subrange(0, i as int) =~= pre);
                }
                let ghost mid = insts_view(instrs@);
                let last = &content[n - 1];
                match last {
                    ast::Stmt::Expr(e) => {
                        let v = self.emit_expr(e, instrs);
                        let fin = IrInst::Assign { dest: IrDest::Reg(ret_r), src: v };
                        let ghost s1 = instrs@;
                        instrs.push(fin);
                        proof {
                            lemma_insts_view_push(s1, fin);
                            assert(insts_view(instrs@) =~= i0 + lower_expr(
                                expr@,
                                names,
                                regs0,
                                labels0,
                            ).insts);
                        }
                    },
                    _ => {
                        self.emit_stmt(last, instrs);
                        proof {
                            assert(insts_view(instrs@) =~= i0 + lower_expr(
                                expr@,
                                names,
                                regs0,
                                labels0,
                            ).insts);
                        }
                    },
                }
                IrVal::Reg(ret_r)
            },
            _ => IrVal::ConstUnit,
        }
    }

    /// Lowers a statement, appending its instructions to `instrs`.
    pub fn emit_stmt(&mut self, stmt: &ast::Stmt, instrs: &mut Vec<IrInst>)
        requires
            lowerable_stmt(stmt@, old(self).names().len()),
            fits_stmts(lower_stmt(stmt@, old(self).names(), old(self).regs(), old(self).labels())),
        ensures
            ({
                let l = lower_stmt(stmt@, old(self).names(), old(self).regs(), old(self).labels());
                &&& insts_view(final(instrs)@) == insts_view(old(instrs)@) + l.insts
                &&& final(self).regs() == l.regs
                &&& final(self).labels() == l.labels
            }),
            final(self).names() == old(self).names(),
            unary_free_stmt(stmt@) && regs_below(insts_view(old(instrs)@), old(self).regs())
                ==> regs_below(insts_view(final(instrs)@), final(self).regs()),
            stmt@ is Expr && unary_free_stmt(stmt@) && regs_below(
                insts_view(old(instrs)@),
                old(self).regs(),
            ) ==> ({
                let all = insts_view(final(instrs)@);
                &&& all.len() > old(instrs)@.len()
                &&& written_reg(all[all.len() - 1]) == Some(old(self).regs())
                &&& forall|i: int| 0 <= i < all.len() - 1 ==> !mentions(#[trigger] all[i], old(self).regs())
            }),
            final(instrs)@.len() > old(instrs)@.len(),
            stmt@ matches StmtModel::Decl { name_id, .. } ==> (final(instrs)@.last()@ matches IrInstModel::Assign { dest, .. }
                && dest == IrDestModel::Var(old(self).names()[name_id as int])),
            stmt@ matches StmtModel::Assignment { name_id, .. } ==> (final(instrs)@.last()@ matches IrInstModel::Assign { dest, .. }
                && dest == IrDestModel::Var(old(self).names()[name_id as int])),
            stmt@ matches StmtModel::Expr(_) ==> (final(instrs)@.last()@ matches IrInstModel::Assign { dest, .. }
                && dest == IrDestModel::Reg(old(self).regs())),
        decreases stmt, 1nat,
    {
        let ghost names = self.names();
        let ghost regs0 = self.regs();
        let ghost labels0 = self.labels();
        let ghost i0 = insts_view(instrs@);
        let inst = match stmt {
            ast::Stmt::Assignment { name_id, rhs } => {
                let dest = IrDest::Var(self.idtable[*name_id].clone());
                let src = self.emit_expr(rhs, instrs);
                IrInst::Assign { dest, src }
            },
            ast::Stmt::Decl { name_id, rhs, .. } => {
                let dest = IrDest::Var(self.idtable[*name_id].clone());
                let src = self.emit_expr(rhs, instrs);
                IrInst::Assign { dest, src }
            },
            ast::Stmt::Expr(e) => {
                proof {
                    lemma_lower_expr_grows(e@, names, regs0 + 1, labels0);
                }
                let dest = IrDest::Reg(self.new_reg());
                let src = self.emit_expr(e, instrs);
                IrInst::Assign { dest, src }
            },
        };
        let ghost before = instrs@;
        instrs.push(inst);
        proof {
            lemma_insts_view_push(before, inst);
            assert(insts_view(instrs@) =~= i0 + lower_stmt(stmt@, names, regs0, labels0).insts);
            lemma_lower_stmt_target(stmt@, names, regs0, labels0);
            assert(instrs@.last()@ == insts_view(instrs@).last());
            if unary_free_stmt(stmt@) && regs_below(i0, regs0) {
                lemma_lower_stmt_regs_below(stmt@, names, regs0, labels0, i0);
                if stmt@ is Expr {
                    lemma_stmt_register_fresh(stmt@, names, regs0, labels0, i0);
                }
            }
        }
    }

    /// Lowers the statements of a program, in order.
    pub fn emit_ir(&mut self, program: &ast::Program) -> (ir: Vec<IrInst>)
        requires
            lowerable_stmts(stmts_model(program.stmts@), old(self).names().len()),
            fits_stmts(
                lower_stmts(
                    stmts_model(program.stmts@),
                    old(self).names(),
                    old(self).regs(),
                    old(self).labels(),
                ),
            ),
        ensures
            ({
                let l = lower_stmts(
                    stmts_model(program.stmts@),
                    old(self).names(),
                    old(self).regs(),
                    old(self).labels(),
                );
                &&& insts_view(ir@) == l.insts
                &&& final(self).regs() == l.regs
                &&& final(self).labels() == l.labels
            }),
            final(self).names() == old(self).names(),
            jumps_forward(insts_view(ir@)),
            control_counts(insts_view(ir@)) == per_if(lowered_ifs_stmts(stmts_model(program.stmts@))),
            binary_dests_unique(insts_view(ir@)),
            unary_free_stmts(stmts_model(program.stmts@)) ==> written_before_read(insts_view(ir@)),
    {
        let ghost names = self.names();
        let ghost regs0 = self.regs();
        let ghost labels0 = self.labels();
        let ghost ss = stmts_model(program.stmts@);
        proof {
            lemma_stmts_model(program.stmts@);
            lemma_lower_stmts_prefix(ss, 0, names, regs0, labels0);
        }
        let mut ir: Vec<IrInst> = Vec::new();
        let n = program.stmts.len();
        let mut i: usize = 0;
        assert(ss.subrange(0, 0) =~= Seq::<StmtModel>::empty());
        assert(insts_view(ir@) =~= Seq::<IrInstModel>::empty());
        while i < n
            invariant
                n == program.stmts@.len(),
                ss == stmts_model(program.stmts@),
                ss.len() == n,
                forall|j: int| 0 <= j < n ==> #[trigger] ss[j] == program.stmts@[j]@,
                lowerable_stmts(ss, names.len()),
                fits_stmts(lower_stmts(ss, names, regs0, labels0)),
                i <= n,
                names == self.names(),
                names == old(self).names(),
                insts_view(ir@) == lower_stmts(ss.subrange(0, i as int), names, regs0, labels0).insts,
                self.regs() == lower_stmts(ss.subrange(0, i as int), names, regs0, labels0).regs,
                self.labels() == lower_stmts(ss.subrange(0, i as int), names, regs0, labels0).labels,
            decreases n - i,
        {
            proof {
                lemma_lower_stmts_prefix(ss, i as int, names, regs0, labels0);
                lemma_lower_stmts_prefix(ss, i + 1, names, regs0, labels0);
            }
            self.emit_stmt(&program.stmts[i], &mut ir);
            i += 1;
            proof {
                let a = lower_stmts(ss.subrange(0, i - 1), names, regs0, labels0);
                let b = lower_stmt(ss[i - 1], names, a.regs, a.labels);
                assert(insts_view(ir@) =~= a.insts + b.insts);
            }
        }
        assert(ss.subrange(0, i as int) =~= ss);
        proof {
            lemma_lower_stmts_forward(ss, names, regs0, labels0);
            lemma_lower_stmts_counts(ss, names, regs0, labels0);
            lemma_lower_stmts_binary_unique(ss, names, regs0, labels0);
            if unary_free_stmts(ss) {
                lemma_lower_stmts_written(ss, names, regs0, labels0);
            }
        }
        ir
    }
}

/// The text of an operand: `%` and the number of a register, a constant,
/// `()` for the unit value, or the name of a variable.
pub open spec fn val_text(v: IrValModel) -> Seq<char> {
    match v {
        IrValModel::Reg(n) => seq!['%'] + decimal(n),
        IrValModel::ConstInt(x) => signed_decimal(x as int),
        IrValModel::ConstBool(b) => if b {
            seq!['t', 'r', 'u', 'e']
        } else {
            seq!['f', 'a', 'l', 's', 'e']
        },
        IrValModel::ConstUnit => seq!['(', ')'],
        IrValModel::Var(name) => name,
    }
}

pub open spec fn op_text(op: BinaryOp) -> Seq<char> {
    match op {
        BinaryOp::Add => seq!['a', 'd', 'd'],
        BinaryOp::Mul => seq!['m', 'u', 'l'],
        BinaryOp::And => seq!['a', 'n', 'd'],
    }
}

pub open spec fn dest_text(d: IrDestModel) -> Seq<char> {
    match d {
        IrDestModel::Reg(n) => seq!['%'] + decimal(n),
        IrDestModel::Var(name) => name,
    }
}

/// The text of an instruction, one line of it: a label, or an indented
/// instruction.
pub open spec fn inst_text(i: IrInstModel) -> Seq<char> {
    match i {
        IrInstModel::Label(name) => name + seq![':', '\n'],
        IrInstModel::Assign { dest, src } => seq![' ', ' '] + dest_text(dest) + seq![' ', '=', ' ']
            + val_text(src) + seq!['\n'],
        IrInstModel::Binary { dest, op, left, right } => seq![' ', ' '] + dest_text(dest) + seq![
            ' ',
            '=',
            ' ',
        ] + op_text(op) + seq![' '] + val_text(left) + seq![' '] + val_text(right) + seq!['\n'],
        IrInstModel::Jmp(label) => seq![' ', ' ', 'j', 'm', 'p', ' '] + label + seq!['\n'],
        IrInstModel::JmpIfFalse { cond, jmp_to } => seq![
            ' ',
            ' ',
            'j',
            'm',
            'p',
            '_',
            'i',
            'f',
            '_',
            'f',
            'a',
            'l',
            's',
            'e',
            ' ',
        ] + dest_text(cond) + seq![' '] + jmp_to + seq!['\n'],
    }
}

impl IrVal {
    fn write_to(&self, out: &mut String)
        ensures
            final(out)@ == old(out)@ + val_text(self@),
    {
        match self {
            IrVal::Reg(n) => {
                proof {
                    reveal_strlit("%");
                }
                push_str(out, "%");
                push_decimal(out, *n as u64);
                assert(final(out)@ =~= old(out)@ + val_text(self@));
            },
            IrVal::ConstInt(x) => {
                push_signed_decimal(out, *x);
            },
            IrVal::ConstBool(b) => {
                if *b {
                    proof {
                        reveal_strlit("true");
                    }
                    push_str(out, "true");
                } else {
                    proof {
                        reveal_strlit("false");
                    }
                    push_str(out, "false");
                }
            },
            IrVal::ConstUnit => {
                proof {
                    reveal_strlit("()");
                }
                push_str(out, "()");
            },
            IrVal::Var(name) => {
                push_str(out, name.as_str());
            },
        }
    }

    /// The text of the operand.
    pub fn to_text(&self) -> (s: String)
        ensures
            s@ == val_text(self@),
    {
        let mut s = String::new();
        self.write_to(&mut s);
        assert(s@ =~= val_text(self@));
        s
    }
}

impl BinaryOp {
    /// The text of the operator.
    pub fn to_text(&self) -> (s: String)
        ensures
            s@ == op_text(*self),
    {
        match self {
            BinaryOp::Add => {
                proof {
                    reveal_strlit("add");
                }
                String::from_str("add")
            },
            BinaryOp::Mul => {
                proof {
                    reveal_strlit("mul");
                }
                String::from_str("mul")
            },
            BinaryOp::And => {
                proof {
                    reveal_strlit("and");
                }
                String::from_str("and")
            },
        }
    }
}

impl IrDest {
    fn write_to(&self, out: &mut String)
        ensures
            final(out)@ == old(out)@ + dest_text(self@),
    {
        match self {
            IrDest::Reg(n) => {
                proof {
                    reveal_strlit("%");
                }
                push_str(out, "%");
                push_decimal(out, *n as u64);
                assert(final(out)@ =~= old(out)@ + dest_text(self@));
            },
            IrDest::Var(name) => {
                push_str(out, name.as_str());
            },
        }
    }

    /// The text of the destination.
    pub fn to_text(&self) -> (s: String)
        ensures
            s@ == dest_text(self@),
    {
        let mut s = String::new();
        self.write_to(&mut s);
        assert(s@ =~= dest_text(self@));
        s
    }
}

impl IrInst {
    /// The text of the instruction: one line, ending in a newline.
    pub fn to_text(&self) -> (s: String)
        ensures
            s@ == inst_text(self@),
    {
        let mut s = String::new();
        proof {
            reveal_strlit(":\n");
            reveal_strlit("  ");
            reveal_strlit(" = ");
            reveal_strlit(" ");
            reveal_strlit("\n");
            reveal_strlit("  jmp ");
            reveal_strlit("  jmp_if_false ");
        }
        match self {
            IrInst::Label(name) => {
                push_str(&mut s, name.as_str());
                push_str(&mut s, ":\n");
            },
            IrInst::Assign { dest, src } => {
                push_str(&mut s, "  ");
                dest.write_to(&mut s);
                push_str(&mut s, " = ");
                src.write_to(&mut s);
                push_str(&mut s, "\n");
            },
            IrInst::Binary { dest, op, left, right } => {
                push_str(&mut s, "  ");
                dest.write_to(&mut s);
                push_str(&mut s, " = ");
                let o = op.to_text();
                push_str(&mut s, o.as_str());
                push_str(&mut s, " ");
                left.write_to(&mut s);
                push_str(&mut s, " ");
                right.write_to(&mut s);
                push_str(&mut s, "\n");
            },
            IrInst::Jmp(label) => {
                push_str(&mut s, "  jmp ");
                push_str(&mut s, label.as_str());
                push_str(&mut s, "\n");
            },
            IrInst::JmpIfFalse { cond, jmp_to } => {
                push_str(&mut s, "  jmp_if_false ");
                cond.write_to(&mut s);
                push_str(&mut s, " ");
                push_str(&mut s, jmp_to.as_str());
                push_str(&mut s, "\n");
            },
        }
        assert(s@ =~= inst_text(self@));
        s
    }
}

} // verus!
