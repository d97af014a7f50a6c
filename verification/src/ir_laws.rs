//! Properties of lowering that hold for every program.
use crate::ast::{ExprModel, StmtModel};
use crate::lexer::digits_value;
use crate::text::{all_digits, decimal, digit_char, lemma_signed_decimal_reads_back};
use crate::ir::{
    else_label, merge_label,
    lemma_lower_expr_grows, lemma_lower_stmt_grows, lemma_lower_stmts_grows, lower_expr, lower_stmt,
    lower_stmts, val_text, IrDestModel, IrInstModel, IrValModel, LoweredStmts,
};
use vstd::prelude::*;

verus! {

/// Lowering a sequence of statements is lowering its first part and then,
/// from the counters where that stopped, the rest: so lowering a program
/// statement by statement with `emit_stmt` gives what `emit_ir` gives.
pub proof fn lemma_lower_stmts_append(
    a: Seq<StmtModel>,
    b: Seq<StmtModel>,
    names: Seq<Seq<char>>,
    regs: nat,
    labels: nat,
)
    ensures
        lower_stmts(a + b, names, regs, labels) == ({
            let x = lower_stmts(a, names, regs, labels);
            let y = lower_stmts(b, names, x.regs, x.labels);
            LoweredStmts { insts: x.insts + y.insts, regs: y.regs, labels: y.labels }
        }),
    decreases b.len(),
{
    let x = lower_stmts(a, names, regs, labels);
    if b.len() == 0 {
        assert(a + b =~= a);
        assert(x.insts + Seq::<IrInstModel>::empty() =~= x.insts);
    } else {
        let bp = b.subrange(0, b.len() - 1);
        assert((a + b).subrange(0, (a + b).len() - 1) =~= a + bp);
        assert((a + b)[(a + b).len() - 1] == b[b.len() - 1]);
        lemma_lower_stmts_append(a, bp, names, regs, labels);
        let y = lower_stmts(bp, names, x.regs, x.labels);
        let s = lower_stmt(b[b.len() - 1], names, y.regs, y.labels);
        assert(x.insts + y.insts + s.insts =~= x.insts + (y.insts + s.insts));
    }
}

/// A lowered statement ends with the assignment that stores its value: a
/// declaration `let x = e` and an assignment `x = e` write the variable the
/// statement names, `names[name_id]`, and an expression statement writes the
/// register it is given, `regs`.
pub proof fn lemma_lower_stmt_target(s: StmtModel, names: Seq<Seq<char>>, regs: nat, labels: nat)
    ensures
        lower_stmt(s, names, regs, labels).insts.len() > 0,
        s matches StmtModel::Decl { name_id, .. } ==> (lower_stmt(s, names, regs, labels).insts.last() matches IrInstModel::Assign { dest, .. }
            && dest == IrDestModel::Var(names[name_id as int])),
        s matches StmtModel::Assignment { name_id, .. } ==> (lower_stmt(s, names, regs, labels).insts.last() matches IrInstModel::Assign { dest, .. }
            && dest == IrDestModel::Var(names[name_id as int])),
        s matches StmtModel::Expr(_) ==> (lower_stmt(s, names, regs, labels).insts.last() matches IrInstModel::Assign { dest, .. }
            && dest == IrDestModel::Reg(regs)),
{
}

/// The operand that holds an expression's value: a constant is itself, a
/// variable is the variable named `names[id]`, and a binary operation is
/// the register `regs`, written by a final binary instruction with the
/// operator of the same name.
pub proof fn lemma_lower_expr_value(e: ExprModel, names: Seq<Seq<char>>, regs: nat, labels: nat)
    ensures
        e matches ExprModel::ConstInt(x) ==> lower_expr(e, names, regs, labels).val
            == IrValModel::ConstInt(x),
        e matches ExprModel::ConstBool(b) ==> lower_expr(e, names, regs, labels).val
            == IrValModel::ConstBool(b),
        e matches ExprModel::Var(id) ==> lower_expr(e, names, regs, labels).val == IrValModel::Var(
            names[id as int],
        ),
        e matches ExprModel::Binary { op, .. } ==> {
            let out = lower_expr(e, names, regs, labels);
            &&& out.val == IrValModel::Reg(regs)
            &&& out.insts.len() > 0
            &&& out.insts.last() is Binary
            &&& out.insts.last()->Binary_dest == IrDestModel::Reg(regs)
            &&& op == crate::ast::BinaryOp::Add ==> out.insts.last()->Binary_op
                == crate::ir::BinaryOp::Add
            &&& op == crate::ast::BinaryOp::Mul ==> out.insts.last()->Binary_op
                == crate::ir::BinaryOp::Mul
            &&& op == crate::ast::BinaryOp::And ==> out.insts.last()->Binary_op
                == crate::ir::BinaryOp::And
        },
{
}

/// The text of an integer constant operand reads back as the constant:
/// it starts with `-` exactly when the constant is negative, and the digits
/// after any sign, without leading zero, have the constant's magnitude as
/// their value.
pub proof fn lemma_const_text_reads_back(x: i32)
    ensures
        ({
            let s = val_text(IrValModel::ConstInt(x));
            &&& s.len() >= 1
            &&& (s[0] == '-') <==> x < 0
            &&& x >= 0 ==> all_digits(s) && digits_value(s) == x && (s.len() > 1 ==> s[0] != '0')
            &&& x < 0 ==> s.len() >= 2 && all_digits(s.drop_first()) && digits_value(s.drop_first())
                == -x && s[1] != '0'
        }),
{
    lemma_signed_decimal_reads_back(x as int);
}

/// The register an instruction writes, if it writes one.
pub open spec fn written_reg(i: IrInstModel) -> Option<nat> {
    match i {
        IrInstModel::Binary { dest: IrDestModel::Reg(r), .. } => Some(r),
        IrInstModel::Assign { dest: IrDestModel::Reg(r), .. } => Some(r),
        _ => None,
    }
}

/// Every register the instructions write lies in `lo..hi`.
pub open spec fn writes_within(insts: Seq<IrInstModel>, lo: nat, hi: nat) -> bool {
    forall|i: int|
        0 <= i < insts.len() ==> match #[trigger] written_reg(insts[i]) {
            Some(r) => lo <= r < hi,
            None => true,
        }
}

pub(crate) proof fn lemma_writes_concat(a: Seq<IrInstModel>, b: Seq<IrInstModel>, lo: nat, hi: nat)
    requires
        writes_within(a, lo, hi),
        writes_within(b, lo, hi),
    ensures
        writes_within(a + b, lo, hi),
{
    assert forall|i: int| 0 <= i < (a + b).len() implies match #[trigger] written_reg((a + b)[i]) {
        Some(r) => lo <= r < hi,
        None => true,
    } by {
        if i < a.len() {
            assert((a + b)[i] == a[i]);
            assert(written_reg(a[i]) == written_reg((a + b)[i]));
        } else {
            assert((a + b)[i] == b[i - a.len()]);
            assert(written_reg(b[i - a.len()]) == written_reg((a + b)[i]));
        }
    }
}

pub(crate) proof fn lemma_writes_widen(a: Seq<IrInstModel>, lo: nat, hi: nat, lo2: nat, hi2: nat)
    requires
        writes_within(a, lo, hi),
        lo2 <= lo,
        hi <= hi2,
    ensures
        writes_within(a, lo2, hi2),
{
    assert forall|i: int| 0 <= i < a.len() implies match #[trigger] written_reg(a[i]) {
        Some(r) => lo2 <= r < hi2,
        None => true,
    } by {
        assert(written_reg(a[i]) == written_reg(a[i]));
    }
}

/// Lowering an expression from register `regs` on writes only registers it
/// allocates: those from `regs` to the counter where it stops.
pub proof fn lemma_lower_expr_writes_fresh(
    e: ExprModel,
    names: Seq<Seq<char>>,
    regs: nat,
    labels: nat,
)
    ensures
        writes_within(
            lower_expr(e, names, regs, labels).insts,
            regs,
            lower_expr(e, names, regs, labels).regs,
        ),
    decreases e,
{
    let out = lower_expr(e, names, regs, labels);
    lemma_lower_expr_grows(e, names, regs, labels);
    match e {
        ExprModel::Binary { op, left, right } => {
            let l = lower_expr(*left, names, regs + 1, labels);
            let r = lower_expr(*right, names, l.regs, l.labels);
            lemma_lower_expr_grows(*left, names, regs + 1, labels);
            lemma_lower_expr_grows(*right, names, l.regs, l.labels);
            lemma_lower_expr_writes_fresh(*left, names, regs + 1, labels);
            lemma_lower_expr_writes_fresh(*right, names, l.regs, l.labels);
            lemma_writes_widen(l.insts, regs + 1, l.regs, regs, r.regs);
            lemma_writes_widen(r.insts, l.regs, r.regs, regs, r.regs);
            let last = seq![out.insts[out.insts.len() - 1]];
            assert(written_reg(last[0]) == Some(regs));
            lemma_writes_concat(l.insts, r.insts, regs, r.regs);
            lemma_writes_concat(l.insts + r.insts, last, regs, r.regs);
            assert(out.insts =~= l.insts + r.insts + last);
        },
        ExprModel::Block { content } => {
            let n = content.len();
            if n == 0 {
                let one = out.insts;
                assert(written_reg(one[0]) == Some(regs));
            } else {
                let pre = content.subrange(0, n - 1);
                let init = lower_stmts(pre, names, regs + 1, labels);
                lemma_lower_stmts_grows(pre, names, regs + 1, labels);
                lemma_lower_stmts_writes_fresh(pre, names, regs + 1, labels);
                let first = seq![
                    IrInstModel::Assign { dest: IrDestModel::Reg(regs), src: crate::ir::IrValModel::ConstUnit },
                ];
                assert(written_reg(first[0]) == Some(regs));
                match content[n - 1] {
                    StmtModel::Expr(last) => {
                        lemma_lower_expr_grows(last, names, init.regs, init.labels);
                    },
                    last => {
                        lemma_lower_stmt_grows(last, names, init.regs, init.labels);
                    },
                }
                lemma_writes_widen(init.insts, regs + 1, init.regs, regs, out.regs);
                match content[n - 1] {
                    StmtModel::Expr(last) => {
                        let l = lower_expr(last, names, init.regs, init.labels);
                        lemma_lower_expr_grows(last, names, init.regs, init.labels);
                        lemma_lower_expr_writes_fresh(last, names, init.regs, init.labels);
                        lemma_writes_widen(l.insts, init.regs, l.regs, regs, out.regs);
                        let fin = seq![out.insts[out.insts.len() - 1]];
                        assert(written_reg(fin[0]) == Some(regs));
                        lemma_writes_concat(first, init.insts, regs, out.regs);
                        lemma_writes_concat(first + init.insts, l.insts, regs, out.regs);
                        lemma_writes_concat(first + init.insts + l.insts, fin, regs, out.regs);
                        assert(out.insts =~= first + init.insts + l.insts + fin);
                    },
                    last => {
                        let l = lower_stmt(last, names, init.regs, init.labels);
                        lemma_lower_stmt_grows(last, names, init.regs, init.labels);
                        lemma_lower_stmt_writes_fresh(last, names, init.regs, init.labels);
                        lemma_writes_widen(l.insts, init.regs, l.regs, regs, out.regs);
                        lemma_writes_concat(first, init.insts, regs, out.regs);
                        lemma_writes_concat(first + init.insts, l.insts, regs, out.regs);
                        assert(out.insts =~= first + init.insts + l.insts);
                    },
                }
            }
        },
        ExprModel::If { cond, tbranch, fbranch } => {
            let c = lower_expr(*cond, names, regs + 2, labels);
            let k = c.labels;
            let t = lower_expr(*tbranch, names, c.regs, k + 1);
            lemma_lower_expr_grows(*cond, names, regs + 2, labels);
            lemma_lower_expr_grows(*tbranch, names, c.regs, k + 1);
            lemma_lower_expr_writes_fresh(*cond, names, regs + 2, labels);
            lemma_lower_expr_writes_fresh(*tbranch, names, c.regs, k + 1);
            if let Some(f) = fbranch {
                lemma_lower_expr_grows(*f, names, t.regs, t.labels);
            }
            let p1 = seq![
                IrInstModel::Assign { dest: IrDestModel::Reg(regs + 1), src: c.val },
                IrInstModel::JmpIfFalse { cond: IrDestModel::Reg(regs + 1), jmp_to: crate::ir::else_label(k) },
            ];
            assert(writes_within(p1, regs, out.regs)) by {
                assert(written_reg(p1[0]) == Some((regs + 1) as nat));
                assert(written_reg(p1[1]) is None);
            }
            let head = c.insts + p1 + t.insts + seq![
                IrInstModel::Assign { dest: IrDestModel::Reg(regs), src: t.val },
                IrInstModel::Jmp(crate::ir::merge_label(k)),
                IrInstModel::Label(crate::ir::else_label(k)),
            ];
            let q2 = seq![
                IrInstModel::Assign { dest: IrDestModel::Reg(regs), src: t.val },
                IrInstModel::Jmp(crate::ir::merge_label(k)),
                IrInstModel::Label(crate::ir::else_label(k)),
            ];
            assert(writes_within(q2, regs, out.regs)) by {
                assert(written_reg(q2[0]) == Some(regs));
                assert(written_reg(q2[1]) is None);
                assert(written_reg(q2[2]) is None);
            }
            lemma_writes_widen(c.insts, regs + 2, c.regs, regs, out.regs);
            lemma_writes_widen(t.insts, c.regs, t.regs, regs, out.regs);
            lemma_writes_concat(c.insts, p1, regs, out.regs);
            lemma_writes_concat(c.insts + p1, t.insts, regs, out.regs);
            lemma_writes_concat(c.insts + p1 + t.insts, q2, regs, out.regs);
            match fbranch {
                Some(f) => {
                    let fl = lower_expr(*f, names, t.regs, t.labels);
                    lemma_lower_expr_grows(*f, names, t.regs, t.labels);
                    lemma_lower_expr_writes_fresh(*f, names, t.regs, t.labels);
                    lemma_writes_widen(fl.insts, t.regs, fl.regs, regs, out.regs);
                    let tail = seq![
                        IrInstModel::Assign { dest: IrDestModel::Reg(regs), src: fl.val },
                        IrInstModel::Label(crate::ir::merge_label(k)),
                    ];
                    assert(writes_within(tail, regs, out.regs)) by {
                        assert(written_reg(tail[0]) == Some(regs));
                        assert(written_reg(tail[1]) is None);
                    }
                    lemma_writes_concat(head, fl.insts, regs, out.regs);
                    lemma_writes_concat(head + fl.insts, tail, regs, out.regs);
                    assert(out.insts =~= head + fl.insts + tail);
                },
                None => {
                    let tail = seq![IrInstModel::Label(crate::ir::merge_label(k))];
                    assert(writes_within(tail, regs, out.regs)) by {
                        assert(written_reg(tail[0]) is None);
                    }
                    lemma_writes_concat(head, tail, regs, out.regs);
                    assert(out.insts =~= head + tail);
                },
            }
        },
        _ => {},
    }
}

/// Lowering a statement writes only registers it allocates.
pub proof fn lemma_lower_stmt_writes_fresh(
    s: StmtModel,
    names: Seq<Seq<char>>,
    regs: nat,
    labels: nat,
)
    ensures
        writes_within(
            lower_stmt(s, names, regs, labels).insts,
            regs,
            lower_stmt(s, names, regs, labels).regs,
        ),
    decreases s,
{
    let out = lower_stmt(s, names, regs, labels);
    match s {
        StmtModel::Expr(e) => {
            let l = lower_expr(e, names, regs + 1, labels);
            lemma_lower_expr_grows(e, names, regs + 1, labels);
            lemma_lower_expr_writes_fresh(e, names, regs + 1, labels);
            lemma_writes_widen(l.insts, regs + 1, l.regs, regs, out.regs);
            let fin = seq![out.insts[out.insts.len() - 1]];
            assert(written_reg(fin[0]) == Some(regs));
            lemma_writes_concat(l.insts, fin, regs, out.regs);
            assert(out.insts =~= l.insts + fin);
        },
        StmtModel::Decl { rhs, .. } => {
            let l = lower_expr(*rhs, names, regs, labels);
            lemma_lower_expr_writes_fresh(*rhs, names, regs, labels);
            let fin = seq![out.insts[out.insts.len() - 1]];
            assert(written_reg(fin[0]) is None);
            lemma_writes_concat(l.insts, fin, regs, out.regs);
            assert(out.insts =~= l.insts + fin);
        },
        StmtModel::Assignment { rhs, .. } => {
            let l = lower_expr(*rhs, names, regs, labels);
            lemma_lower_expr_writes_fresh(*rhs, names, regs, labels);
            let fin = seq![out.insts[out.insts.len() - 1]];
            assert(written_reg(fin[0]) is None);
            lemma_writes_concat(l.insts, fin, regs, out.regs);
            assert(out.insts =~= l.insts + fin);
        },
    }
}

/// Lowering statements, and so a whole program, writes only registers it
/// allocates: every register an instruction of the output writes lies
/// between the register counter before and the one after, so no register in
/// use before is overwritten.
pub proof fn lemma_lower_stmts_writes_fresh(
    ss: Seq<StmtModel>,
    names: Seq<Seq<char>>,
    regs: nat,
    labels: nat,
)
    ensures
        writes_within(
            lower_stmts(ss, names, regs, labels).insts,
            regs,
            lower_stmts(ss, names, regs, labels).regs,
        ),
    decreases ss,
{
    let out = lower_stmts(ss, names, regs, labels);
    if ss.len() > 0 {
        let pre = ss.subrange(0, ss.len() - 1);
        let a = lower_stmts(pre, names, regs, labels);
        let b = lower_stmt(ss[ss.len() - 1], names, a.regs, a.labels);
        lemma_lower_stmts_grows(pre, names, regs, labels);
        lemma_lower_stmt_grows(ss[ss.len() - 1], names, a.regs, a.labels);
        lemma_lower_stmts_writes_fresh(pre, names, regs, labels);
        lemma_lower_stmt_writes_fresh(ss[ss.len() - 1], names, a.regs, a.labels);
        lemma_writes_widen(a.insts, regs, a.regs, regs, out.regs);
        lemma_writes_widen(b.insts, a.regs, b.regs, regs, out.regs);
        lemma_writes_concat(a.insts, b.insts, regs, out.regs);
    }
}

proof fn lemma_decimal_nonempty(n: nat)
    ensures
        decimal(n).len() >= 1,
        n >= 10 ==> decimal(n).len() >= 2,
    decreases n,
{
    if n >= 10 {
        lemma_decimal_nonempty(n / 10);
    }
}

/// Different numbers have different decimal notations.
pub proof fn lemma_decimal_injective(a: nat, b: nat)
    requires
        decimal(a) == decimal(b),
    ensures
        a == b,
    decreases a,
{
    lemma_decimal_nonempty(a);
    lemma_decimal_nonempty(b);
    if a < 10 && b < 10 {
        assert(decimal(a)[0] == digit_char(a as int));
        assert(decimal(b)[0] == digit_char(b as int));
        assert((digit_char(a as int) as int) == 48 + a);
        assert((digit_char(b as int) as int) == 48 + b);
    } else if a >= 10 && b >= 10 {
        let da = decimal(a);
        let db = decimal(b);
        assert(da.last() == digit_char((a % 10) as int));
        assert(db.last() == digit_char((b % 10) as int));
        assert((digit_char((a % 10) as int) as int) == 48 + a % 10);
        assert((digit_char((b % 10) as int) as int) == 48 + b % 10);
        assert(da.drop_last() =~= decimal(a / 10));
        assert(db.drop_last() =~= decimal(b / 10));
        lemma_decimal_injective(a / 10, b / 10);
    }
}

/// Each conditional has labels of its own: the labels of different
/// conditionals differ, and no else label is an end label.
pub proof fn lemma_labels_distinct(a: nat, b: nat)
    ensures
        else_label(a) == else_label(b) ==> a == b,
        merge_label(a) == merge_label(b) ==> a == b,
        else_label(a) != merge_label(b),
{
    if else_label(a) == else_label(b) {
        assert(else_label(a).subrange(5, else_label(a).len() as int) =~= decimal(a));
        assert(else_label(b).subrange(5, else_label(b).len() as int) =~= decimal(b));
        lemma_decimal_injective(a, b);
    }
    if merge_label(a) == merge_label(b) {
        assert(merge_label(a).subrange(6, merge_label(a).len() as int) =~= decimal(a));
        assert(merge_label(b).subrange(6, merge_label(b).len() as int) =~= decimal(b));
        lemma_decimal_injective(a, b);
    }
    assert(else_label(a)[1] == 'e');
    assert(merge_label(b)[1] == 'm');
}

/// The label an instruction defines, if it is a label.
pub open spec fn defined_label(i: IrInstModel) -> Option<Seq<char>> {
    match i {
        IrInstModel::Label(l) => Some(l),
        _ => None,
    }
}

/// The label an instruction may jump to, if it is a jump.
pub open spec fn jump_target(i: IrInstModel) -> Option<Seq<char>> {
    match i {
        IrInstModel::Jmp(l) => Some(l),
        IrInstModel::JmpIfFalse { jmp_to, .. } => Some(jmp_to),
        _ => None,
    }
}

/// The instructions define the label `l`.
pub open spec fn defines(insts: Seq<IrInstModel>, l: Seq<char>) -> bool {
    exists|j: int| 0 <= j < insts.len() && #[trigger] defined_label(insts[j]) == Some(l)
}

/// Every jump in `insts` goes to a label that `env` defines.
pub open spec fn jumps_into(insts: Seq<IrInstModel>, env: Seq<IrInstModel>) -> bool {
    forall|i: int|
        0 <= i < insts.len() ==> match #[trigger] jump_target(insts[i]) {
            Some(l) => defines(env, l),
            None => true,
        }
}

/// Every jump goes to a label that the instructions define.
pub open spec fn jumps_resolved(insts: Seq<IrInstModel>) -> bool {
    jumps_into(insts, insts)
}

/// No label is defined twice.
pub open spec fn labels_unique(insts: Seq<IrInstModel>) -> bool {
    forall|i: int, j: int|
        0 <= i < j < insts.len() && (#[trigger] defined_label(insts[i])) is Some ==> defined_label(
            insts[i],
        ) != #[trigger] defined_label(insts[j])
}

/// `l` is a label of one of the conditionals numbered `lo..hi`.
pub open spec fn cond_label_in(l: Seq<char>, lo: nat, hi: nat) -> bool {
    exists|k: nat| lo <= k < hi && (l == else_label(k) || l == merge_label(k))
}

/// Every label defined is a label of one of the conditionals `lo..hi`.
pub open spec fn labels_from(insts: Seq<IrInstModel>, lo: nat, hi: nat) -> bool {
    forall|i: int|
        0 <= i < insts.len() ==> match #[trigger] defined_label(insts[i]) {
            Some(l) => cond_label_in(l, lo, hi),
            None => true,
        }
}

/// No label is defined in both.
pub open spec fn disjoint_labels(a: Seq<IrInstModel>, b: Seq<IrInstModel>) -> bool {
    forall|l: Seq<char>| defines(a, l) ==> !defines(b, l)
}

/// The control flow of lowered code is well formed: no label is defined
/// twice, and every jump goes to a label defined in the same code.
pub open spec fn well_formed_flow(insts: Seq<IrInstModel>) -> bool {
    labels_unique(insts) && jumps_resolved(insts)
}

pub(crate) proof fn lemma_defines_concat(a: Seq<IrInstModel>, b: Seq<IrInstModel>, l: Seq<char>)
    ensures
        defines(a + b, l) <==> defines(a, l) || defines(b, l),
{
    if defines(a, l) {
        let j = choose|j: int| 0 <= j < a.len() && #[trigger] defined_label(a[j]) == Some(l);
        assert((a + b)[j] == a[j]);
    }
    if defines(b, l) {
        let j = choose|j: int| 0 <= j < b.len() && #[trigger] defined_label(b[j]) == Some(l);
        assert((a + b)[a.len() + j] == b[j]);
    }
    if defines(a + b, l) {
        let j = choose|j: int| 0 <= j < (a + b).len() && #[trigger] defined_label((a + b)[j]) == Some(l);
        if j < a.len() {
            assert((a + b)[j] == a[j]);
        } else {
            assert((a + b)[j] == b[j - a.len()]);
        }
    }
}

proof fn lemma_jumps_into_concat(a: Seq<IrInstModel>, b: Seq<IrInstModel>, env: Seq<IrInstModel>)
    requires
        jumps_into(a, env),
        jumps_into(b, env),
    ensures
        jumps_into(a + b, env),
{
    assert forall|i: int| 0 <= i < (a + b).len() implies match #[trigger] jump_target((a + b)[i]) {
        Some(l) => defines(env, l),
        None => true,
    } by {
        if i < a.len() {
            assert((a + b)[i] == a[i]);
            assert(jump_target(a[i]) == jump_target((a + b)[i]));
        } else {
            assert((a + b)[i] == b[i - a.len()]);
            assert(jump_target(b[i - a.len()]) == jump_target((a + b)[i]));
        }
    }
}

/// Jumps into `env` also go into anything that defines all of `env`'s labels.
proof fn lemma_jumps_into_grow(a: Seq<IrInstModel>, env: Seq<IrInstModel>, env2: Seq<IrInstModel>)
    requires
        jumps_into(a, env),
        forall|l: Seq<char>| defines(env, l) ==> defines(env2, l),
    ensures
        jumps_into(a, env2),
{
    assert forall|i: int| 0 <= i < a.len() implies match #[trigger] jump_target(a[i]) {
        Some(l) => defines(env2, l),
        None => true,
    } by {
        if let Some(l) = jump_target(a[i]) {
            assert(defines(env, l));
        }
    }
}

proof fn lemma_unique_concat(a: Seq<IrInstModel>, b: Seq<IrInstModel>)
    requires
        labels_unique(a),
        labels_unique(b),
        disjoint_labels(a, b),
    ensures
        labels_unique(a + b),
{
    let c = a + b;
    assert forall|i: int, j: int|
        0 <= i < j < c.len() && (#[trigger] defined_label(c[i])) is Some implies defined_label(c[i])
        != #[trigger] defined_label(c[j]) by {
        if j < a.len() {
            assert(c[i] == a[i] && c[j] == a[j]);
        } else if i >= a.len() {
            assert(c[i] == b[i - a.len()] && c[j] == b[j - a.len()]);
        } else {
            assert(c[i] == a[i] && c[j] == b[j - a.len()]);
            let l = defined_label(a[i])->0;
            if defined_label(b[j - a.len()]) == Some(l) {
                assert(defines(a, l));
                assert(defines(b, l));
            }
        }
    }
}

proof fn lemma_labels_from_concat(a: Seq<IrInstModel>, b: Seq<IrInstModel>, lo: nat, hi: nat)
    requires
        labels_from(a, lo, hi),
        labels_from(b, lo, hi),
    ensures
        labels_from(a + b, lo, hi),
{
    assert forall|i: int| 0 <= i < (a + b).len() implies match #[trigger] defined_label((a + b)[i]) {
        Some(l) => cond_label_in(l, lo, hi),
        None => true,
    } by {
        if i < a.len() {
            assert((a + b)[i] == a[i]);
            assert(defined_label(a[i]) == defined_label((a + b)[i]));
        } else {
            assert((a + b)[i] == b[i - a.len()]);
            assert(defined_label(b[i - a.len()]) == defined_label((a + b)[i]));
        }
    }
}

proof fn lemma_labels_from_widen(a: Seq<IrInstModel>, lo: nat, hi: nat, lo2: nat, hi2: nat)
    requires
        labels_from(a, lo, hi),
        lo2 <= lo,
        hi <= hi2,
    ensures
        labels_from(a, lo2, hi2),
{
    assert forall|i: int| 0 <= i < a.len() implies match #[trigger] defined_label(a[i]) {
        Some(l) => cond_label_in(l, lo2, hi2),
        None => true,
    } by {
        if let Some(l) = defined_label(a[i]) {
            assert(cond_label_in(l, lo, hi));
            let k = choose|k: nat| lo <= k < hi && (l == else_label(k) || l == merge_label(k));
            assert(lo2 <= k < hi2);
        }
    }
}

/// Code whose labels belong to conditionals numbered apart defines no label
/// in common.
proof fn lemma_disjoint_by_range(
    a: Seq<IrInstModel>,
    b: Seq<IrInstModel>,
    lo1: nat,
    hi1: nat,
    lo2: nat,
    hi2: nat,
)
    requires
        labels_from(a, lo1, hi1),
        labels_from(b, lo2, hi2),
        hi1 <= lo2 || hi2 <= lo1,
    ensures
        disjoint_labels(a, b),
{
    assert forall|l: Seq<char>| defines(a, l) implies !defines(b, l) by {
        let i = choose|j: int| 0 <= j < a.len() && #[trigger] defined_label(a[j]) == Some(l);
        assert(cond_label_in(l, lo1, hi1));
        let k1 = choose|k: nat| lo1 <= k < hi1 && (l == else_label(k) || l == merge_label(k));
        if defines(b, l) {
            let j = choose|j: int| 0 <= j < b.len() && #[trigger] defined_label(b[j]) == Some(l);
            assert(cond_label_in(l, lo2, hi2));
            let k2 = choose|k: nat| lo2 <= k < hi2 && (l == else_label(k) || l == merge_label(k));
            lemma_labels_distinct(k1, k2);
            lemma_labels_distinct(k2, k1);
        }
    }
}

/// Code without labels and jumps.
pub open spec fn plain(insts: Seq<IrInstModel>) -> bool {
    forall|i: int| 0 <= i < insts.len() ==> (#[trigger] defined_label(insts[i])) is None && jump_target(insts[i]) is None
}

proof fn lemma_plain(insts: Seq<IrInstModel>, env: Seq<IrInstModel>, lo: nat, hi: nat)
    requires
        plain(insts),
    ensures
        labels_unique(insts),
        labels_from(insts, lo, hi),
        jumps_into(insts, env),
        forall|l: Seq<char>| !defines(insts, l),
{
    assert forall|i: int| 0 <= i < insts.len() implies match #[trigger] jump_target(insts[i]) {
        Some(l) => defines(env, l),
        None => true,
    } by {
        assert(defined_label(insts[i]) is None);
    }
}

proof fn lemma_parts(a: Seq<IrInstModel>, b: Seq<IrInstModel>)
    ensures
        forall|l: Seq<char>| #[trigger] defines(a + b, l) <==> (defines(a, l) || defines(b, l)),
{
    assert forall|l: Seq<char>| #[trigger] defines(a + b, l) <==> (defines(a, l) || defines(b, l)) by {
        lemma_defines_concat(a, b, l);
    }
}

/// Code that defines no label.
pub open spec fn label_free(insts: Seq<IrInstModel>) -> bool {
    forall|i: int| 0 <= i < insts.len() ==> (#[trigger] defined_label(insts[i])) is None
}

proof fn lemma_label_free(insts: Seq<IrInstModel>, lo: nat, hi: nat)
    requires
        label_free(insts),
    ensures
        labels_unique(insts),
        labels_from(insts, lo, hi),
        forall|l: Seq<char>| !defines(insts, l),
{
}

/// Two pieces of well-formed code, whose labels belong to conditionals
/// numbered apart, make well-formed code.
proof fn lemma_combine(a: Seq<IrInstModel>, b: Seq<IrInstModel>, lo: nat, mid: nat, hi: nat)
    requires
        lo <= mid <= hi,
        labels_from(a, lo, mid),
        labels_from(b, mid, hi),
        well_formed_flow(a),
        well_formed_flow(b),
    ensures
        labels_from(a + b, lo, hi),
        well_formed_flow(a + b),
{
    lemma_disjoint_by_range(a, b, lo, mid, mid, hi);
    lemma_unique_concat(a, b);
    lemma_labels_from_widen(a, lo, mid, lo, hi);
    lemma_labels_from_widen(b, mid, hi, lo, hi);
    lemma_labels_from_concat(a, b, lo, hi);
    lemma_parts(a, b);
    lemma_jumps_into_grow(a, a, a + b);
    lemma_jumps_into_grow(b, b, a + b);
    lemma_jumps_into_concat(a, b, a + b);
}

/// A piece with no labels and no jumps is well formed.
proof fn lemma_plain_flow(insts: Seq<IrInstModel>, lo: nat, hi: nat)
    requires
        plain(insts),
    ensures
        labels_from(insts, lo, hi),
        well_formed_flow(insts),
{
    lemma_plain(insts, insts, lo, hi);
}

proof fn lemma_disjoint_left(a: Seq<IrInstModel>, b: Seq<IrInstModel>, x: Seq<IrInstModel>)
    requires
        disjoint_labels(a, x),
        disjoint_labels(b, x),
    ensures
        disjoint_labels(a + b, x),
{
    lemma_parts(a, b);
}

/// The lowering of an expression has well-formed control flow, and its
/// labels belong to the conditionals it numbers.
pub proof fn lemma_lower_expr_flow(e: ExprModel, names: Seq<Seq<char>>, regs: nat, labels: nat)
    ensures
        labels_from(
            lower_expr(e, names, regs, labels).insts,
            labels,
            lower_expr(e, names, regs, labels).labels,
        ),
        well_formed_flow(lower_expr(e, names, regs, labels).insts),
    decreases e, 1nat,
{
    let out = lower_expr(e, names, regs, labels);
    lemma_lower_expr_grows(e, names, regs, labels);
    match e {
        ExprModel::Binary { op, left, right } => {
            let l = lower_expr(*left, names, regs + 1, labels);
            let r = lower_expr(*right, names, l.regs, l.labels);
            lemma_lower_expr_grows(*left, names, regs + 1, labels);
            lemma_lower_expr_grows(*right, names, l.regs, l.labels);
            lemma_lower_expr_flow(*left, names, regs + 1, labels);
            lemma_lower_expr_flow(*right, names, l.regs, l.labels);
            let last = seq![out.insts[out.insts.len() - 1]];
            assert(out.insts =~= l.insts + r.insts + last);
            assert(plain(last)) by {
                assert(defined_label(last[0]) is None && jump_target(last[0]) is None);
            }
            lemma_combine(l.insts, r.insts, labels, l.labels, r.labels);
            lemma_plain_flow(last, r.labels, r.labels);
            lemma_combine(l.insts + r.insts, last, labels, r.labels, r.labels);
        },
        ExprModel::Block { content } => {
            let n = content.len();
            if n == 0 {
                assert(plain(out.insts)) by {
                    assert(defined_label(out.insts[0]) is None && jump_target(out.insts[0]) is None);
                }
                lemma_plain_flow(out.insts, labels, labels);
            } else {
                let pre = content.subrange(0, n - 1);
                let init = lower_stmts(pre, names, regs + 1, labels);
                lemma_lower_stmts_grows(pre, names, regs + 1, labels);
                lemma_lower_stmts_flow(pre, names, regs + 1, labels);
                let first = seq![
                    IrInstModel::Assign { dest: IrDestModel::Reg(regs), src: crate::ir::IrValModel::ConstUnit },
                ];
                assert(plain(first)) by {
                    assert(defined_label(first[0]) is None && jump_target(first[0]) is None);
                }
                lemma_plain_flow(first, labels, labels);
                lemma_combine(first, init.insts, labels, labels, init.labels);
                match content[n - 1] {
                    StmtModel::Expr(last) => {
                        let l = lower_expr(last, names, init.regs, init.labels);
                        lemma_lower_expr_grows(last, names, init.regs, init.labels);
                        lemma_lower_expr_flow(last, names, init.regs, init.labels);
                        let fin = seq![out.insts[out.insts.len() - 1]];
                        assert(out.insts =~= first + init.insts + l.insts + fin);
                        assert(plain(fin)) by {
                            assert(defined_label(fin[0]) is None && jump_target(fin[0]) is None);
                        }
                        lemma_combine(first + init.insts, l.insts, labels, init.labels, l.labels);
                        lemma_plain_flow(fin, l.labels, l.labels);
                        lemma_combine(first + init.insts + l.insts, fin, labels, l.labels, l.labels);
                    },
                    last => {
                        let l = lower_stmt(last, names, init.regs, init.labels);
                        lemma_lower_stmt_grows(last, names, init.regs, init.labels);
                        lemma_lower_stmt_flow(last, names, init.regs, init.labels);
                        assert(out.insts =~= first + init.insts + l.insts);
                        lemma_combine(first + init.insts, l.insts, labels, init.labels, l.labels);
                    },
                }
            }
        },
        ExprModel::If { cond, tbranch, fbranch } => {
            lemma_lower_if_flow(e, names, regs, labels);
        },
        _ => {},
    }
}

/// The lowering of a statement has well-formed control flow.
pub proof fn lemma_lower_stmt_flow(s: StmtModel, names: Seq<Seq<char>>, regs: nat, labels: nat)
    ensures
        labels_from(
            lower_stmt(s, names, regs, labels).insts,
            labels,
            lower_stmt(s, names, regs, labels).labels,
        ),
        well_formed_flow(lower_stmt(s, names, regs, labels).insts),
    decreases s, 1nat,
{
    let out = lower_stmt(s, names, regs, labels);
    let (e, r0) = match s {
        StmtModel::Expr(e) => (e, regs + 1),
        StmtModel::Decl { rhs, .. } => (*rhs, regs),
        StmtModel::Assignment { rhs, .. } => (*rhs, regs),
    };
    let l = lower_expr(e, names, r0, labels);
    lemma_lower_expr_grows(e, names, r0, labels);
    lemma_lower_expr_flow(e, names, r0, labels);
    let fin = seq![out.insts[out.insts.len() - 1]];
    assert(out.insts =~= l.insts + fin);
    assert(plain(fin)) by {
        assert(defined_label(fin[0]) is None && jump_target(fin[0]) is None);
    }
    lemma_plain_flow(fin, l.labels, l.labels);
    lemma_combine(l.insts, fin, labels, l.labels, l.labels);
}

/// The lowering of statements, and so of a whole program, has well-formed
/// control flow: no label is defined twice, and every jump goes to a label
/// defined in the lowered code. Its labels belong to the conditionals it
/// numbers, so code lowered later by the same emitter defines none of them.
pub proof fn lemma_lower_stmts_flow(ss: Seq<StmtModel>, names: Seq<Seq<char>>, regs: nat, labels: nat)
    ensures
        labels_from(
            lower_stmts(ss, names, regs, labels).insts,
            labels,
            lower_stmts(ss, names, regs, labels).labels,
        ),
        well_formed_flow(lower_stmts(ss, names, regs, labels).insts),
    decreases ss, 1nat,
{
    let out = lower_stmts(ss, names, regs, labels);
    if ss.len() == 0 {
    } else {
        let pre = ss.subrange(0, ss.len() - 1);
        let a = lower_stmts(pre, names, regs, labels);
        let b = lower_stmt(ss[ss.len() - 1], names, a.regs, a.labels);
        lemma_lower_stmts_grows(pre, names, regs, labels);
        lemma_lower_stmt_grows(ss[ss.len() - 1], names, a.regs, a.labels);
        lemma_lower_stmts_flow(pre, names, regs, labels);
        lemma_lower_stmt_flow(ss[ss.len() - 1], names, a.regs, a.labels);
        lemma_combine(a.insts, b.insts, labels, a.labels, b.labels);
    }
}

proof fn lemma_lower_if_flow(e: ExprModel, names: Seq<Seq<char>>, regs: nat, labels: nat)
    requires
        e is If,
    ensures
        labels_from(
            lower_expr(e, names, regs, labels).insts,
            labels,
            lower_expr(e, names, regs, labels).labels,
        ),
        well_formed_flow(lower_expr(e, names, regs, labels).insts),
    decreases e, 0nat,
{
    let out = lower_expr(e, names, regs, labels);
    match e {
        ExprModel::If { cond, tbranch, fbranch } => {
            let c = lower_expr(*cond, names, regs + 2, labels);
            let k = c.labels;
            let t = lower_expr(*tbranch, names, c.regs, k + 1);
            lemma_lower_expr_grows(*cond, names, regs + 2, labels);
            lemma_lower_expr_grows(*tbranch, names, c.regs, k + 1);
            lemma_lower_expr_flow(*cond, names, regs + 2, labels);
            lemma_lower_expr_flow(*tbranch, names, c.regs, k + 1);
            let p1 = seq![
                IrInstModel::Assign { dest: IrDestModel::Reg(regs + 1), src: c.val },
                IrInstModel::JmpIfFalse { cond: IrDestModel::Reg(regs + 1), jmp_to: else_label(k) },
            ];
            let q2 = seq![
                IrInstModel::Assign { dest: IrDestModel::Reg(regs), src: t.val },
                IrInstModel::Jmp(merge_label(k)),
                IrInstModel::Label(else_label(k)),
            ];
            let (f_insts, f_labels, tail) = match fbranch {
                Some(f) => {
                    let fl = lower_expr(*f, names, t.regs, t.labels);
                    (
                        fl.insts,
                        fl.labels,
                        seq![
                            IrInstModel::Assign { dest: IrDestModel::Reg(regs), src: fl.val },
                            IrInstModel::Label(merge_label(k)),
                        ],
                    )
                },
                None => (Seq::<IrInstModel>::empty(), t.labels, seq![IrInstModel::Label(merge_label(k))]),
            };
            match fbranch {
                Some(f) => {
                    lemma_lower_expr_grows(*f, names, t.regs, t.labels);
                    lemma_lower_expr_flow(*f, names, t.regs, t.labels);
                    assert(out.insts =~= c.insts + p1 + t.insts + q2 + f_insts + tail);
                },
                None => {
                    assert(out.insts =~= c.insts + p1 + t.insts + q2 + f_insts + tail);
                },
            }
            assert(out.labels == f_labels);
            assert(labels_from(f_insts, t.labels, f_labels));
            assert(well_formed_flow(f_insts));
            // the small pieces
            assert(label_free(p1)) by {
                assert(defined_label(p1[0]) is None && defined_label(p1[1]) is None);
            }
            lemma_label_free(p1, k, k);
            assert(forall|l: Seq<char>| #[trigger] defines(q2, l) ==> l == else_label(k)) by {
                assert(defined_label(q2[0]) is None && defined_label(q2[1]) is None);
            }
            assert(defines(q2, else_label(k))) by {
                assert(defined_label(q2[2]) == Some(else_label(k)));
            }
            assert(forall|l: Seq<char>| #[trigger] defines(tail, l) ==> l == merge_label(k)) by {
                if fbranch is Some {
                    assert(defined_label(tail[0]) is None);
                }
            }
            assert(defines(tail, merge_label(k))) by {
                assert(defined_label(tail[tail.len() - 1]) == Some(merge_label(k)));
            }
            assert(labels_from(q2, k, k + 1)) by {
                assert(defined_label(q2[0]) is None && defined_label(q2[1]) is None);
                assert(cond_label_in(else_label(k), k, k + 1));
            }
            assert(labels_from(tail, k, k + 1)) by {
                assert(cond_label_in(merge_label(k), k, k + 1));
                if fbranch is Some {
                    assert(defined_label(tail[0]) is None);
                }
            }
            assert(labels_unique(q2)) by {
                assert(defined_label(q2[0]) is None && defined_label(q2[1]) is None);
            }
            assert(labels_unique(tail)) by {
                if fbranch is Some {
                    assert(defined_label(tail[0]) is None);
                }
            }
            // uniqueness, piece by piece
            let a1 = c.insts + p1;
            let a2 = a1 + t.insts;
            let a3 = a2 + q2;
            let a4 = a3 + f_insts;
            lemma_parts(c.insts, p1);
            lemma_parts(a1, t.insts);
            lemma_parts(a2, q2);
            lemma_parts(a3, f_insts);
            lemma_parts(a4, tail);
            lemma_unique_concat(c.insts, p1);
            lemma_disjoint_by_range(c.insts, t.insts, labels, k, k + 1, t.labels);
            lemma_disjoint_left(c.insts, p1, t.insts);
            lemma_unique_concat(a1, t.insts);
            lemma_disjoint_by_range(c.insts, q2, labels, k, k, k + 1);
            lemma_disjoint_by_range(t.insts, q2, k + 1, t.labels, k, k + 1);
            lemma_disjoint_left(c.insts, p1, q2);
            lemma_disjoint_left(a1, t.insts, q2);
            lemma_unique_concat(a2, q2);
            lemma_disjoint_by_range(c.insts, f_insts, labels, k, t.labels, f_labels);
            lemma_disjoint_by_range(t.insts, f_insts, k + 1, t.labels, t.labels, f_labels);
            lemma_disjoint_by_range(q2, f_insts, k, k + 1, t.labels, f_labels);
            lemma_disjoint_left(c.insts, p1, f_insts);
            lemma_disjoint_left(a1, t.insts, f_insts);
            lemma_disjoint_left(a2, q2, f_insts);
            lemma_unique_concat(a3, f_insts);
            lemma_disjoint_by_range(c.insts, tail, labels, k, k, k + 1);
            lemma_disjoint_by_range(t.insts, tail, k + 1, t.labels, k, k + 1);
            lemma_disjoint_by_range(f_insts, tail, t.labels, f_labels, k, k + 1);
            assert(disjoint_labels(q2, tail)) by {
                lemma_labels_distinct(k, k);
            }
            lemma_disjoint_left(c.insts, p1, tail);
            lemma_disjoint_left(a1, t.insts, tail);
            lemma_disjoint_left(a2, q2, tail);
            lemma_disjoint_left(a3, f_insts, tail);
            lemma_unique_concat(a4, tail);
            // the labels belong to the conditionals numbered here
            lemma_labels_from_widen(c.insts, labels, k, labels, f_labels);
            lemma_labels_from_widen(t.insts, k + 1, t.labels, labels, f_labels);
            lemma_labels_from_widen(q2, k, k + 1, labels, f_labels);
            lemma_labels_from_widen(f_insts, t.labels, f_labels, labels, f_labels);
            lemma_labels_from_widen(tail, k, k + 1, labels, f_labels);
            lemma_labels_from_concat(c.insts, p1, labels, f_labels);
            lemma_labels_from_concat(a1, t.insts, labels, f_labels);
            lemma_labels_from_concat(a2, q2, labels, f_labels);
            lemma_labels_from_concat(a3, f_insts, labels, f_labels);
            lemma_labels_from_concat(a4, tail, labels, f_labels);
            // every jump lands on a label of the whole
            let whole = a4 + tail;
            lemma_jumps_into_grow(c.insts, c.insts, whole);
            lemma_jumps_into_grow(t.insts, t.insts, whole);
            lemma_jumps_into_grow(f_insts, f_insts, whole);
            assert(jumps_into(p1, whole)) by {
                assert(jump_target(p1[0]) is None);
                assert(jump_target(p1[1]) == Some(else_label(k)));
            }
            assert(jumps_into(q2, whole)) by {
                assert(jump_target(q2[0]) is None);
                assert(jump_target(q2[1]) == Some(merge_label(k)));
                assert(jump_target(q2[2]) is None);
            }
            assert(jumps_into(tail, whole)) by {
                assert(jump_target(tail[0]) is None);
                if fbranch is Some {
                    assert(jump_target(tail[1]) is None);
                }
            }
            lemma_jumps_into_concat(c.insts, p1, whole);
            lemma_jumps_into_concat(a1, t.insts, whole);
            lemma_jumps_into_concat(a2, q2, whole);
            lemma_jumps_into_concat(a3, f_insts, whole);
            lemma_jumps_into_concat(a4, tail, whole);
        },
        _ => {},
    }
}

/// An emitter used twice in a row never hands out a register or label twice:
/// the code of two programs lowered one after the other defines no label in
/// common, together still has well-formed control flow, and the second
/// writes only registers allocated after the first.
pub proof fn lemma_successive_lowerings(
    first: Seq<StmtModel>,
    second: Seq<StmtModel>,
    names: Seq<Seq<char>>,
    regs: nat,
    labels: nat,
)
    ensures
        ({
            let a = lower_stmts(first, names, regs, labels);
            let b = lower_stmts(second, names, a.regs, a.labels);
            &&& disjoint_labels(a.insts, b.insts)
            &&& well_formed_flow(a.insts + b.insts)
            &&& writes_within(a.insts, regs, a.regs)
            &&& writes_within(b.insts, a.regs, b.regs)
        }),
{
    let a = lower_stmts(first, names, regs, labels);
    let b = lower_stmts(second, names, a.regs, a.labels);
    lemma_lower_stmts_grows(first, names, regs, labels);
    lemma_lower_stmts_grows(second, names, a.regs, a.labels);
    lemma_lower_stmts_flow(first, names, regs, labels);
    lemma_lower_stmts_flow(second, names, a.regs, a.labels);
    lemma_disjoint_by_range(a.insts, b.insts, labels, a.labels, a.labels, b.labels);
    lemma_combine(a.insts, b.insts, labels, a.labels, b.labels);
    lemma_lower_stmts_writes_fresh(first, names, regs, labels);
    lemma_lower_stmts_writes_fresh(second, names, a.regs, a.labels);
}

} // verus!
