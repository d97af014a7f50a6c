//! Order and counting properties of lowered code: jumps only go forward,
//! each conditional gives a fixed set of control instructions, and every
//! register is written before it is read.
use crate::ast::{ExprModel, StmtModel};
use crate::ir::{
    else_label, merge_label, lower_expr, lower_stmt, lower_stmts, IrDestModel, IrInstModel,
    IrValModel,
};
use crate::ir::{lemma_lower_expr_grows, lemma_lower_stmt_grows, lemma_lower_stmts_grows};
use crate::ir_laws::{
    defined_label, defines, jump_target, lemma_defines_concat, lemma_lower_expr_writes_fresh,
    lemma_lower_stmt_writes_fresh, lemma_lower_stmts_writes_fresh, lemma_writes_concat,
    lemma_writes_widen, writes_within, written_reg,
};
use vstd::prelude::*;

verus! {

/// Every jump goes to a label defined later in the same code.
pub open spec fn jumps_forward(s: Seq<IrInstModel>) -> bool {
    forall|i: int|
        0 <= i < s.len() && (#[trigger] jump_target(s[i])) is Some ==> exists|j: int|
            i < j < s.len() && #[trigger] defined_label(s[j]) == jump_target(s[i])
}

proof fn lemma_forward_concat(a: Seq<IrInstModel>, b: Seq<IrInstModel>)
    requires
        jumps_forward(a),
        jumps_forward(b),
    ensures
        jumps_forward(a + b),
{
    let s = a + b;
    assert forall|i: int| 0 <= i < s.len() && (#[trigger] jump_target(s[i])) is Some implies exists|
        j: int,
    | i < j < s.len() && #[trigger] defined_label(s[j]) == jump_target(s[i]) by {
        if i < a.len() {
            assert(s[i] == a[i]);
            assert(jump_target(a[i]) is Some);
            let j = choose|j: int| i < j < a.len() && #[trigger] defined_label(a[j]) == jump_target(a[i]);
            assert(s[j] == a[j]);
        } else {
            let i2 = i - a.len();
            assert(s[i] == b[i2]);
            assert(jump_target(b[i2]) is Some);
            let j = choose|j: int| i2 < j < b.len() && #[trigger] defined_label(b[j]) == jump_target(b[i2]);
            assert(s[j + a.len()] == b[j]);
        }
    }
}

proof fn lemma_forward_plain(s: Seq<IrInstModel>)
    requires
        forall|i: int| 0 <= i < s.len() ==> (#[trigger] jump_target(s[i])) is None,
    ensures
        jumps_forward(s),
{
}

/// A jump in front of code that defines its label.
proof fn lemma_forward_jump(x: IrInstModel, y: Seq<IrInstModel>)
    requires
        jump_target(x) is Some,
        jumps_forward(y),
        defines(y, jump_target(x).unwrap()),
    ensures
        jumps_forward(seq![x] + y),
{
    let s = seq![x] + y;
    let l = jump_target(x).unwrap();
    assert forall|i: int| 0 <= i < s.len() && (#[trigger] jump_target(s[i])) is Some implies exists|
        j: int,
    | i < j < s.len() && #[trigger] defined_label(s[j]) == jump_target(s[i]) by {
        if i == 0 {
            assert(s[0] == x);
            let j = choose|j: int| 0 <= j < y.len() && #[trigger] defined_label(y[j]) == Some(l);
            assert(s[j + 1] == y[j]);
        } else {
            let i2 = i - 1;
            assert(s[i] == y[i2]);
            assert(jump_target(y[i2]) is Some);
            let j = choose|j: int| i2 < j < y.len() && #[trigger] defined_label(y[j]) == jump_target(y[i2]);
            assert(s[j + 1] == y[j]);
        }
    }
}

proof fn lemma_one_plain(x: IrInstModel)
    requires
        jump_target(x) is None,
    ensures
        jumps_forward(seq![x]),
{
    lemma_forward_plain(seq![x]);
}

/// The instructions of a conditional whose condition is lowered to `c` and
/// whose branches are lowered to `t` and `f`, around the jumps and labels of
/// label number `k`: the jumps go forward where those of the parts do.
proof fn lemma_forward_if(
    c: Seq<IrInstModel>,
    t: Seq<IrInstModel>,
    f: Option<Seq<IrInstModel>>,
    a1: IrInstModel,
    j1: IrInstModel,
    a2: IrInstModel,
    a3: IrInstModel,
    k: nat,
)
    requires
        jumps_forward(c),
        jumps_forward(t),
        f matches Some(fi) ==> jumps_forward(fi),
        jump_target(a1) is None,
        jump_target(j1) == Some(else_label(k)),
        jump_target(a2) is None,
        jump_target(a3) is None,
    ensures
        jumps_forward(
            c + seq![a1, j1] + t + seq![
                a2,
                IrInstModel::Jmp(merge_label(k)),
                IrInstModel::Label(else_label(k)),
            ] + if_tail(f, a3, k),
        ),
{
    let le = IrInstModel::Label(else_label(k));
    let lm = IrInstModel::Label(merge_label(k));
    let j2 = IrInstModel::Jmp(merge_label(k));
    let tail = if_tail(f, a3, k);
    match f {
        Some(fi) => {
            lemma_forward_plain(seq![a3, lm]);
            lemma_forward_concat(fi, seq![a3, lm]);
            assert(defined_label(tail[fi.len() as int + 1]) == Some(merge_label(k)));
        },
        None => {
            lemma_one_plain(lm);
            assert(defined_label(tail[0]) == Some(merge_label(k)));
        },
    }
    lemma_one_plain(le);
    let y1 = seq![le] + tail;
    lemma_forward_concat(seq![le], tail);
    lemma_defines_concat(seq![le], tail, merge_label(k));
    assert(defined_label(y1[0]) == Some(else_label(k)));
    let y2 = seq![j2] + y1;
    lemma_forward_jump(j2, y1);
    assert(defined_label(y2[1]) == Some(else_label(k)));
    lemma_one_plain(a2);
    lemma_forward_concat(t, seq![a2]);
    lemma_forward_concat(t + seq![a2], y2);
    let y3 = t + seq![a2] + y2;
    lemma_defines_concat(t + seq![a2], y2, else_label(k));
    lemma_forward_jump(j1, y3);
    let y4 = seq![j1] + y3;
    lemma_one_plain(a1);
    lemma_forward_concat(c, seq![a1]);
    lemma_forward_concat(c + seq![a1], y4);
    assert(c + seq![a1, j1] + t + seq![a2, j2, le] + tail =~= c + seq![a1] + y4);
}

/// What follows the else label of a conditional: the else branch and its
/// assignment, then the label after the conditional.
pub open spec fn if_tail(f: Option<Seq<IrInstModel>>, a3: IrInstModel, k: nat) -> Seq<IrInstModel> {
    match f {
        Some(fi) => fi + seq![a3, IrInstModel::Label(merge_label(k))],
        None => seq![IrInstModel::Label(merge_label(k))],
    }
}

/// Jumps in the lowering of an expression only go forward.
pub proof fn lemma_lower_expr_forward(e: ExprModel, names: Seq<Seq<char>>, regs: nat, labels: nat)
    ensures
        jumps_forward(lower_expr(e, names, regs, labels).insts),
    decreases e, 1nat,
{
    let out = lower_expr(e, names, regs, labels);
    match e {
        ExprModel::Binary { op, left, right } => {
            let l = lower_expr(*left, names, regs + 1, labels);
            let r = lower_expr(*right, names, l.regs, l.labels);
            lemma_lower_expr_forward(*left, names, regs + 1, labels);
            lemma_lower_expr_forward(*right, names, l.regs, l.labels);
            let last = seq![out.insts[out.insts.len() - 1]];
            assert(out.insts =~= l.insts + r.insts + last);
            lemma_one_plain(last[0]);
            lemma_forward_concat(l.insts, r.insts);
            lemma_forward_concat(l.insts + r.insts, last);
        },
        ExprModel::Block { content } => {
            let n = content.len();
            if n == 0 {
                lemma_one_plain(out.insts[0]);
                assert(out.insts =~= seq![out.insts[0]]);
            } else {
                let pre = content.subrange(0, n - 1);
                let init = lower_stmts(pre, names, regs + 1, labels);
                lemma_lower_stmts_forward(pre, names, regs + 1, labels);
                let first = seq![
                    IrInstModel::Assign { dest: IrDestModel::Reg(regs), src: IrValModel::ConstUnit },
                ];
                lemma_one_plain(first[0]);
                lemma_forward_concat(first, init.insts);
                match content[n - 1] {
                    StmtModel::Expr(last) => {
                        let l = lower_expr(last, names, init.regs, init.labels);
                        lemma_lower_expr_forward(last, names, init.regs, init.labels);
                        let fin = seq![out.insts[out.insts.len() - 1]];
                        assert(out.insts =~= first + init.insts + l.insts + fin);
                        lemma_one_plain(fin[0]);
                        lemma_forward_concat(first + init.insts, l.insts);
                        lemma_forward_concat(first + init.insts + l.insts, fin);
                    },
                    last => {
                        let l = lower_stmt(last, names, init.regs, init.labels);
                        lemma_lower_stmt_forward(last, names, init.regs, init.labels);
                        assert(out.insts =~= first + init.insts + l.insts);
                        lemma_forward_concat(first + init.insts, l.insts);
                    },
                }
            }
        },
        ExprModel::If { cond, tbranch, fbranch } => {
            let c = lower_expr(*cond, names, regs + 2, labels);
            let k = c.labels;
            let t = lower_expr(*tbranch, names, c.regs, k + 1);
            lemma_lower_expr_forward(*cond, names, regs + 2, labels);
            lemma_lower_expr_forward(*tbranch, names, c.regs, k + 1);
            let a1 = IrInstModel::Assign { dest: IrDestModel::Reg(regs + 1), src: c.val };
            let j1 = IrInstModel::JmpIfFalse { cond: IrDestModel::Reg(regs + 1), jmp_to: else_label(k) };
            let a2 = IrInstModel::Assign { dest: IrDestModel::Reg(regs), src: t.val };
            match fbranch {
                Some(f) => {
                    let fl = lower_expr(*f, names, t.regs, t.labels);
                    lemma_lower_expr_forward(*f, names, t.regs, t.labels);
                    let a3 = IrInstModel::Assign { dest: IrDestModel::Reg(regs), src: fl.val };
                    lemma_forward_if(c.insts, t.insts, Some(fl.insts), a1, j1, a2, a3, k);
                    assert(out.insts =~= c.insts + seq![a1, j1] + t.insts + seq![
                        a2,
                        IrInstModel::Jmp(merge_label(k)),
                        IrInstModel::Label(else_label(k)),
                    ] + if_tail(Some(fl.insts), a3, k));
                },
                None => {
                    lemma_forward_if(c.insts, t.insts, None, a1, j1, a2, a2, k);
                    assert(out.insts =~= c.insts + seq![a1, j1] + t.insts + seq![
                        a2,
                        IrInstModel::Jmp(merge_label(k)),
                        IrInstModel::Label(else_label(k)),
                    ] + if_tail(None, a2, k));
                },
            }
        },
        _ => {
            lemma_forward_plain(out.insts);
        },
    }
}

/// Jumps in the lowering of a statement only go forward.
pub proof fn lemma_lower_stmt_forward(s: StmtModel, names: Seq<Seq<char>>, regs: nat, labels: nat)
    ensures
        jumps_forward(lower_stmt(s, names, regs, labels).insts),
    decreases s, 1nat,
{
    let out = lower_stmt(s, names, regs, labels);
    let (e, r0) = match s {
        StmtModel::Expr(e) => (e, regs + 1),
        StmtModel::Decl { rhs, .. } => (*rhs, regs),
        StmtModel::Assignment { rhs, .. } => (*rhs, regs),
    };
    let l = lower_expr(e, names, r0, labels);
    lemma_lower_expr_forward(e, names, r0, labels);
    let fin = seq![out.insts[out.insts.len() - 1]];
    assert(out.insts =~= l.insts + fin);
    lemma_one_plain(fin[0]);
    lemma_forward_concat(l.insts, fin);
}

/// Jumps in lowered code only go forward: each jump, of a whole lowered
/// program too, goes to a label defined after it.
pub proof fn lemma_lower_stmts_forward(ss: Seq<StmtModel>, names: Seq<Seq<char>>, regs: nat, labels: nat)
    ensures
        jumps_forward(lower_stmts(ss, names, regs, labels).insts),
    decreases ss, 1nat,
{
    let out = lower_stmts(ss, names, regs, labels);
    if ss.len() == 0 {
        lemma_forward_plain(out.insts);
    } else {
        let pre = ss.subrange(0, ss.len() - 1);
        let a = lower_stmts(pre, names, regs, labels);
        let b = lower_stmt(ss[ss.len() - 1], names, a.regs, a.labels);
        lemma_lower_stmts_forward(pre, names, regs, labels);
        lemma_lower_stmt_forward(ss[ss.len() - 1], names, a.regs, a.labels);
        lemma_forward_concat(a.insts, b.insts);
    }
}

/// Whether an instruction reads register `k`.
pub open spec fn reads_reg(i: IrInstModel, k: nat) -> bool {
    match i {
        IrInstModel::Binary { left, right, .. } => left == IrValModel::Reg(k) || right
            == IrValModel::Reg(k),
        IrInstModel::Assign { src, .. } => src == IrValModel::Reg(k),
        IrInstModel::JmpIfFalse { cond, .. } => cond == IrDestModel::Reg(k),
        _ => false,
    }
}

/// Some instruction writes register `k`.
pub open spec fn writes_reg(s: Seq<IrInstModel>, k: nat) -> bool {
    exists|j: int| 0 <= j < s.len() && #[trigger] written_reg(s[j]) == Some(k)
}

/// Every register an instruction reads is written by an instruction before
/// it.
pub open spec fn written_before_read(s: Seq<IrInstModel>) -> bool {
    forall|i: int, k: nat|
        0 <= i < s.len() && #[trigger] reads_reg(s[i], k) ==> exists|j: int|
            0 <= j < i && #[trigger] written_reg(s[j]) == Some(k)
}

/// A register operand is written by one of the instructions.
pub open spec fn val_written(s: Seq<IrInstModel>, v: IrValModel) -> bool {
    match v {
        IrValModel::Reg(k) => writes_reg(s, k),
        _ => true,
    }
}

/// The expression has no unary operator: lowering gives each of its
/// operands a real value.
pub open spec fn unary_free_expr(e: ExprModel) -> bool
    decreases e,
{
    match e {
        ExprModel::Unary { .. } => false,
        ExprModel::Binary { left, right, .. } => unary_free_expr(*left) && unary_free_expr(*right),
        ExprModel::Block { content } => unary_free_stmts(content),
        ExprModel::If { cond, tbranch, fbranch } => unary_free_expr(*cond) && unary_free_expr(
            *tbranch,
        ) && match fbranch {
            Some(f) => unary_free_expr(*f),
            None => true,
        },
        _ => true,
    }
}

pub open spec fn unary_free_stmt(s: StmtModel) -> bool
    decreases s,
{
    match s {
        StmtModel::Decl { rhs, .. } => unary_free_expr(*rhs),
        StmtModel::Assignment { rhs, .. } => unary_free_expr(*rhs),
        StmtModel::Expr(e) => unary_free_expr(e),
    }
}

pub open spec fn unary_free_stmts(ss: Seq<StmtModel>) -> bool
    decreases ss,
{
    if ss.len() == 0 {
        true
    } else {
        unary_free_stmts(ss.subrange(0, ss.len() - 1)) && unary_free_stmt(ss[ss.len() - 1])
    }
}

proof fn lemma_writes_left(a: Seq<IrInstModel>, b: Seq<IrInstModel>, k: nat)
    requires
        writes_reg(a, k),
    ensures
        writes_reg(a + b, k),
{
    let j = choose|j: int| 0 <= j < a.len() && #[trigger] written_reg(a[j]) == Some(k);
    assert((a + b)[j] == a[j]);
}

proof fn lemma_writes_right(a: Seq<IrInstModel>, b: Seq<IrInstModel>, k: nat)
    requires
        writes_reg(b, k),
    ensures
        writes_reg(a + b, k),
{
    let j = choose|j: int| 0 <= j < b.len() && #[trigger] written_reg(b[j]) == Some(k);
    assert((a + b)[a.len() + j] == b[j]);
}

proof fn lemma_val_left(a: Seq<IrInstModel>, b: Seq<IrInstModel>, v: IrValModel)
    requires
        val_written(a, v),
    ensures
        val_written(a + b, v),
{
    if let IrValModel::Reg(k) = v {
        lemma_writes_left(a, b, k);
    }
}

proof fn lemma_val_right(a: Seq<IrInstModel>, b: Seq<IrInstModel>, v: IrValModel)
    requires
        val_written(b, v),
    ensures
        val_written(a + b, v),
{
    if let IrValModel::Reg(k) = v {
        lemma_writes_right(a, b, k);
    }
}

proof fn lemma_wbr_concat(a: Seq<IrInstModel>, b: Seq<IrInstModel>)
    requires
        written_before_read(a),
        written_before_read(b),
    ensures
        written_before_read(a + b),
{
    let s = a + b;
    assert forall|i: int, k: nat| 0 <= i < s.len() && #[trigger] reads_reg(s[i], k) implies exists|
        j: int,
    | 0 <= j < i && #[trigger] written_reg(s[j]) == Some(k) by {
        if i < a.len() {
            assert(s[i] == a[i]);
            assert(reads_reg(a[i], k));
            let j = choose|j: int| 0 <= j < i && #[trigger] written_reg(a[j]) == Some(k);
            assert(s[j] == a[j]);
        } else {
            let i2 = i - a.len();
            assert(s[i] == b[i2]);
            assert(reads_reg(b[i2], k));
            let j = choose|j: int| 0 <= j < i2 && #[trigger] written_reg(b[j]) == Some(k);
            assert(s[j + a.len()] == b[j]);
        }
    }
}

/// An instruction whose register operands the code before it writes.
proof fn lemma_wbr_push(a: Seq<IrInstModel>, x: IrInstModel)
    requires
        written_before_read(a),
        forall|k: nat| #[trigger] reads_reg(x, k) ==> writes_reg(a, k),
    ensures
        written_before_read(a + seq![x]),
{
    let s = a + seq![x];
    assert forall|i: int, k: nat| 0 <= i < s.len() && #[trigger] reads_reg(s[i], k) implies exists|
        j: int,
    | 0 <= j < i && #[trigger] written_reg(s[j]) == Some(k) by {
        if i < a.len() {
            assert(s[i] == a[i]);
            assert(reads_reg(a[i], k));
            let j = choose|j: int| 0 <= j < i && #[trigger] written_reg(a[j]) == Some(k);
            assert(s[j] == a[j]);
        } else {
            assert(s[i] == x);
            assert(writes_reg(a, k));
            let j = choose|j: int| 0 <= j < a.len() && #[trigger] written_reg(a[j]) == Some(k);
            assert(s[j] == a[j]);
        }
    }
}

/// An assignment from an operand the code before it writes.
proof fn lemma_wbr_assign(a: Seq<IrInstModel>, d: IrDestModel, v: IrValModel)
    requires
        written_before_read(a),
        val_written(a, v),
    ensures
        written_before_read(a + seq![IrInstModel::Assign { dest: d, src: v }]),
{
    lemma_wbr_push(a, IrInstModel::Assign { dest: d, src: v });
}

/// An instruction that reads no register.
proof fn lemma_wbr_noread(a: Seq<IrInstModel>, x: IrInstModel)
    requires
        written_before_read(a),
        forall|k: nat| !(#[trigger] reads_reg(x, k)),
    ensures
        written_before_read(a + seq![x]),
{
    lemma_wbr_push(a, x);
}

/// In the lowering of an expression without unary operators, every register
/// read is written before, and the operand holding the value is written.
pub proof fn lemma_lower_expr_written(e: ExprModel, names: Seq<Seq<char>>, regs: nat, labels: nat)
    requires
        unary_free_expr(e),
    ensures
        written_before_read(lower_expr(e, names, regs, labels).insts),
        val_written(lower_expr(e, names, regs, labels).insts, lower_expr(e, names, regs, labels).val),
    decreases e, 1nat,
{
    let out = lower_expr(e, names, regs, labels);
    let empty = Seq::<IrInstModel>::empty();
    match e {
        ExprModel::Binary { op, left, right } => {
            let l = lower_expr(*left, names, regs + 1, labels);
            let r = lower_expr(*right, names, l.regs, l.labels);
            lemma_lower_expr_written(*left, names, regs + 1, labels);
            lemma_lower_expr_written(*right, names, l.regs, l.labels);
            let x = out.insts[out.insts.len() - 1];
            assert(out.insts =~= l.insts + r.insts + seq![x]);
            lemma_wbr_concat(l.insts, r.insts);
            lemma_val_left(l.insts, r.insts, l.val);
            lemma_val_right(l.insts, r.insts, r.val);
            lemma_wbr_push(l.insts + r.insts, x);
            assert(written_reg(out.insts[out.insts.len() - 1]) == Some(regs));
        },
        ExprModel::Block { content } => {
            let n = content.len();
            let first = seq![
                IrInstModel::Assign { dest: IrDestModel::Reg(regs), src: IrValModel::ConstUnit },
            ];
            lemma_wbr_noread(empty, first[0]);
            assert(empty + first =~= first);
            assert(written_reg(out.insts[0]) == Some(regs));
            if n > 0 {
                let pre = content.subrange(0, n - 1);
                let init = lower_stmts(pre, names, regs + 1, labels);
                assert(unary_free_stmts(content));
                assert(unary_free_stmts(pre) && unary_free_stmt(content[n - 1]));
                lemma_lower_stmts_written(pre, names, regs + 1, labels);
                lemma_wbr_concat(first, init.insts);
                match content[n - 1] {
                    StmtModel::Expr(last) => {
                        let l = lower_expr(last, names, init.regs, init.labels);
                        lemma_lower_expr_written(last, names, init.regs, init.labels);
                        lemma_wbr_concat(first + init.insts, l.insts);
                        lemma_val_right(first + init.insts, l.insts, l.val);
                        lemma_wbr_assign(first + init.insts + l.insts, IrDestModel::Reg(regs), l.val);
                        assert(out.insts =~= first + init.insts + l.insts + seq![
                            IrInstModel::Assign { dest: IrDestModel::Reg(regs), src: l.val },
                        ]);
                    },
                    last => {
                        let l = lower_stmt(last, names, init.regs, init.labels);
                        lemma_lower_stmt_written(last, names, init.regs, init.labels);
                        lemma_wbr_concat(first + init.insts, l.insts);
                        assert(out.insts =~= first + init.insts + l.insts);
                    },
                }
            }
        },
        ExprModel::If { cond, tbranch, fbranch } => {
            let c = lower_expr(*cond, names, regs + 2, labels);
            let k = c.labels;
            let t = lower_expr(*tbranch, names, c.regs, k + 1);
            lemma_lower_expr_written(*cond, names, regs + 2, labels);
            lemma_lower_expr_written(*tbranch, names, c.regs, k + 1);
            let a1 = IrInstModel::Assign { dest: IrDestModel::Reg(regs + 1), src: c.val };
            let j1 = IrInstModel::JmpIfFalse { cond: IrDestModel::Reg(regs + 1), jmp_to: else_label(k) };
            let a2 = IrInstModel::Assign { dest: IrDestModel::Reg(regs), src: t.val };
            let j2 = IrInstModel::Jmp(merge_label(k));
            let le = IrInstModel::Label(else_label(k));
            let lm = IrInstModel::Label(merge_label(k));
            let x1 = c.insts + seq![a1];
            lemma_wbr_assign(c.insts, IrDestModel::Reg(regs + 1), c.val);
            assert(written_reg(x1[c.insts.len() as int]) == Some((regs + 1) as nat));
            let x2 = x1 + seq![j1];
            lemma_wbr_push(x1, j1);
            let x3 = x2 + t.insts;
            lemma_wbr_concat(x2, t.insts);
            lemma_val_right(x2, t.insts, t.val);
            let x4 = x3 + seq![a2];
            lemma_wbr_assign(x3, IrDestModel::Reg(regs), t.val);
            assert(written_reg(x4[x3.len() as int]) == Some(regs));
            let x5 = x4 + seq![j2];
            lemma_wbr_noread(x4, j2);
            let x6 = x5 + seq![le];
            lemma_wbr_noread(x5, le);
            lemma_writes_left(x4, seq![j2], regs);
            lemma_writes_left(x5, seq![le], regs);
            match fbranch {
                Some(f) => {
                    let fl = lower_expr(*f, names, t.regs, t.labels);
                    lemma_lower_expr_written(*f, names, t.regs, t.labels);
                    let a3 = IrInstModel::Assign { dest: IrDestModel::Reg(regs), src: fl.val };
                    let x7 = x6 + fl.insts;
                    lemma_wbr_concat(x6, fl.insts);
                    lemma_val_right(x6, fl.insts, fl.val);
                    let x8 = x7 + seq![a3];
                    lemma_wbr_assign(x7, IrDestModel::Reg(regs), fl.val);
                    lemma_wbr_noread(x8, lm);
                    lemma_writes_left(x6, fl.insts, regs);
                    lemma_writes_left(x7, seq![a3], regs);
                    lemma_writes_left(x8, seq![lm], regs);
                    assert(out.insts =~= x8 + seq![lm]);
                },
                None => {
                    lemma_wbr_noread(x6, lm);
                    lemma_writes_left(x6, seq![lm], regs);
                    assert(out.insts =~= x6 + seq![lm]);
                },
            }
        },
        _ => {},
    }
}

/// In the lowering of a statement without unary operators, every register
/// read is written before.
pub proof fn lemma_lower_stmt_written(s: StmtModel, names: Seq<Seq<char>>, regs: nat, labels: nat)
    requires
        unary_free_stmt(s),
    ensures
        written_before_read(lower_stmt(s, names, regs, labels).insts),
    decreases s, 1nat,
{
    let out = lower_stmt(s, names, regs, labels);
    let (e, r0) = match s {
        StmtModel::Expr(e) => (e, regs + 1),
        StmtModel::Decl { rhs, .. } => (*rhs, regs),
        StmtModel::Assignment { rhs, .. } => (*rhs, regs),
    };
    let l = lower_expr(e, names, r0, labels);
    lemma_lower_expr_written(e, names, r0, labels);
    let fin = out.insts[out.insts.len() - 1];
    assert(out.insts =~= l.insts + seq![fin]);
    lemma_wbr_push(l.insts, fin);
}

/// In lowered code without unary operators, of a whole program too, every
/// register an instruction reads is written by an instruction before it.
pub proof fn lemma_lower_stmts_written(ss: Seq<StmtModel>, names: Seq<Seq<char>>, regs: nat, labels: nat)
    requires
        unary_free_stmts(ss),
    ensures
        written_before_read(lower_stmts(ss, names, regs, labels).insts),
    decreases ss, 1nat,
{
    if ss.len() > 0 {
        let pre = ss.subrange(0, ss.len() - 1);
        let a = lower_stmts(pre, names, regs, labels);
        let b = lower_stmt(ss[ss.len() - 1], names, a.regs, a.labels);
        lemma_lower_stmts_written(pre, names, regs, labels);
        lemma_lower_stmt_written(ss[ss.len() - 1], names, a.regs, a.labels);
        lemma_wbr_concat(a.insts, b.insts);
    }
}

/// Whether an instruction reads or writes register `k`.
pub open spec fn mentions(i: IrInstModel, k: nat) -> bool {
    reads_reg(i, k) || written_reg(i) == Some(k)
}

/// Every register the instructions read or write is below `n`.
pub open spec fn regs_below(s: Seq<IrInstModel>, n: nat) -> bool {
    forall|i: int, k: nat| 0 <= i < s.len() && #[trigger] mentions(s[i], k) ==> k < n
}

/// Code whose reads follow its writes mentions only the registers it writes.
proof fn lemma_mentions_within(s: Seq<IrInstModel>, lo: nat, hi: nat)
    requires
        written_before_read(s),
        writes_within(s, lo, hi),
    ensures
        forall|i: int, k: nat| 0 <= i < s.len() && #[trigger] mentions(s[i], k) ==> lo <= k < hi,
{
    assert forall|i: int, k: nat| 0 <= i < s.len() && #[trigger] mentions(s[i], k) implies lo <= k
        < hi by {
        if reads_reg(s[i], k) {
            let j = choose|j: int| 0 <= j < i && #[trigger] written_reg(s[j]) == Some(k);
            assert(written_reg(s[j]) == Some(k));
        } else {
            assert(written_reg(s[i]) == Some(k));
        }
    }
}

/// Lowering statements without unary operators after code that mentions
/// only registers below the register counter keeps that so: an emitter that
/// lowers statement after statement never hands out a register that its
/// earlier output mentions.
pub proof fn lemma_lower_stmts_regs_below(
    ss: Seq<StmtModel>,
    names: Seq<Seq<char>>,
    regs: nat,
    labels: nat,
    before: Seq<IrInstModel>,
)
    requires
        unary_free_stmts(ss),
        regs_below(before, regs),
    ensures
        regs_below(before + lower_stmts(ss, names, regs, labels).insts, lower_stmts(ss, names, regs, labels).regs),
{
    let out = lower_stmts(ss, names, regs, labels);
    lemma_lower_stmts_grows(ss, names, regs, labels);
    lemma_lower_stmts_written(ss, names, regs, labels);
    lemma_lower_stmts_writes_fresh(ss, names, regs, labels);
    lemma_mentions_within(out.insts, regs, out.regs);
    let all = before + out.insts;
    assert forall|i: int, k: nat| 0 <= i < all.len() && #[trigger] mentions(all[i], k) implies k
        < out.regs by {
        if i < before.len() {
            assert(all[i] == before[i]);
            assert(mentions(before[i], k));
        } else {
            assert(all[i] == out.insts[i - before.len()]);
            assert(mentions(out.insts[i - before.len()], k));
        }
    }
}

/// Lowering a statement without unary operators after code that mentions
/// only registers below the register counter keeps that so.
pub proof fn lemma_lower_stmt_regs_below(
    st: StmtModel,
    names: Seq<Seq<char>>,
    regs: nat,
    labels: nat,
    before: Seq<IrInstModel>,
)
    requires
        unary_free_stmt(st),
        regs_below(before, regs),
    ensures
        regs_below(before + lower_stmt(st, names, regs, labels).insts, lower_stmt(st, names, regs, labels).regs),
{
    let out = lower_stmt(st, names, regs, labels);
    lemma_lower_stmt_grows(st, names, regs, labels);
    lemma_lower_stmt_written(st, names, regs, labels);
    lemma_lower_stmt_writes_fresh(st, names, regs, labels);
    lemma_mentions_within(out.insts, regs, out.regs);
    let all = before + out.insts;
    assert forall|i: int, k: nat| 0 <= i < all.len() && #[trigger] mentions(all[i], k) implies k
        < out.regs by {
        if i < before.len() {
            assert(all[i] == before[i]);
            assert(mentions(before[i], k));
        } else {
            assert(all[i] == out.insts[i - before.len()]);
            assert(mentions(out.insts[i - before.len()], k));
        }
    }
}

/// The register that an expression statement is assigned to is new: after
/// code that mentions only registers below the counter, no instruction but
/// the statement's last, which writes it, mentions that register, and all
/// registers mentioned stay below the new counter.
pub proof fn lemma_stmt_register_fresh(
    s: StmtModel,
    names: Seq<Seq<char>>,
    regs: nat,
    labels: nat,
    before: Seq<IrInstModel>,
)
    requires
        s is Expr,
        unary_free_stmt(s),
        regs_below(before, regs),
    ensures
        ({
            let out = lower_stmt(s, names, regs, labels);
            let all = before + out.insts;
            &&& all.len() > before.len()
            &&& written_reg(all[all.len() - 1]) == Some(regs)
            &&& forall|i: int| 0 <= i < all.len() - 1 ==> !mentions(#[trigger] all[i], regs)
            &&& regs_below(all, out.regs)
        }),
{
    let out = lower_stmt(s, names, regs, labels);
    let e = s->Expr_0;
    let l = lower_expr(e, names, regs + 1, labels);
    lemma_lower_expr_grows(e, names, regs + 1, labels);
    lemma_lower_expr_written(e, names, regs + 1, labels);
    lemma_lower_expr_writes_fresh(e, names, regs + 1, labels);
    lemma_mentions_within(l.insts, regs + 1, l.regs);
    let fin = IrInstModel::Assign { dest: IrDestModel::Reg(regs), src: l.val };
    assert(out.insts =~= l.insts + seq![fin]);
    let all = before + out.insts;
    assert(all =~= before + l.insts + seq![fin]);
    if let IrValModel::Reg(k) = l.val {
        let j = choose|j: int| 0 <= j < l.insts.len() && #[trigger] written_reg(l.insts[j]) == Some(k);
        assert(mentions(l.insts[j], k));
    }
    assert forall|i: int| 0 <= i < all.len() - 1 implies !mentions(#[trigger] all[i], regs) by {
        if i < before.len() {
            assert(all[i] == before[i]);
            if mentions(before[i], regs) {
                assert(regs < regs);
            }
        } else {
            assert(all[i] == l.insts[i - before.len()]);
            if mentions(l.insts[i - before.len()], regs) {
                assert(regs + 1 <= regs);
            }
        }
    }
    assert forall|i: int, k: nat| 0 <= i < all.len() && #[trigger] mentions(all[i], k) implies k
        < out.regs by {
        if i < before.len() {
            assert(all[i] == before[i]);
            assert(mentions(before[i], k));
        } else if i < before.len() + l.insts.len() {
            assert(all[i] == l.insts[i - before.len()]);
            assert(mentions(l.insts[i - before.len()], k));
        } else {
            assert(all[i] == fin);
        }
    }
}

/// The numbers of conditional jumps, jumps and labels among the
/// instructions.
pub open spec fn control_counts(s: Seq<IrInstModel>) -> (nat, nat, nat)
    decreases s.len(),
{
    if s.len() == 0 {
        (0, 0, 0)
    } else {
        let (a, b, c) = control_counts(s.drop_last());
        match s.last() {
            IrInstModel::JmpIfFalse { .. } => (a + 1, b, c),
            IrInstModel::Jmp(_) => (a, b + 1, c),
            IrInstModel::Label(_) => (a, b, c + 1),
            _ => (a, b, c),
        }
    }
}

pub open spec fn add3(x: (nat, nat, nat), y: (nat, nat, nat)) -> (nat, nat, nat) {
    (x.0 + y.0, x.1 + y.1, x.2 + y.2)
}

/// The conditionals that lowering reaches: those not inside the operand of
/// a unary operator, which is not lowered.
pub open spec fn lowered_ifs_expr(e: ExprModel) -> nat
    decreases e,
{
    match e {
        ExprModel::Binary { left, right, .. } => lowered_ifs_expr(*left) + lowered_ifs_expr(*right),
        ExprModel::Block { content } => lowered_ifs_stmts(content),
        ExprModel::If { cond, tbranch, fbranch } => 1 + lowered_ifs_expr(*cond) + lowered_ifs_expr(
            *tbranch,
        ) + match fbranch {
            Some(f) => lowered_ifs_expr(*f),
            None => 0,
        },
        _ => 0,
    }
}

pub open spec fn lowered_ifs_stmt(s: StmtModel) -> nat
    decreases s,
{
    match s {
        StmtModel::Decl { rhs, .. } => lowered_ifs_expr(*rhs),
        StmtModel::Assignment { rhs, .. } => lowered_ifs_expr(*rhs),
        StmtModel::Expr(e) => lowered_ifs_expr(e),
    }
}

pub open spec fn lowered_ifs_stmts(ss: Seq<StmtModel>) -> nat
    decreases ss,
{
    if ss.len() == 0 {
        0
    } else {
        lowered_ifs_stmts(ss.subrange(0, ss.len() - 1)) + lowered_ifs_stmt(ss[ss.len() - 1])
    }
}

/// The counts per conditional: one conditional jump, one jump, two labels.
pub open spec fn per_if(n: nat) -> (nat, nat, nat) {
    (n, n, 2 * n)
}

proof fn lemma_counts_concat(a: Seq<IrInstModel>, b: Seq<IrInstModel>)
    ensures
        control_counts(a + b) == add3(control_counts(a), control_counts(b)),
    decreases b.len(),
{
    if b.len() == 0 {
        assert(a + b =~= a);
    } else {
        assert((a + b).drop_last() =~= a + b.drop_last());
        assert((a + b).last() == b.last());
        lemma_counts_concat(a, b.drop_last());
    }
}

proof fn lemma_counts_one(x: IrInstModel)
    ensures
        control_counts(seq![x]) == match x {
            IrInstModel::JmpIfFalse { .. } => (1nat, 0nat, 0nat),
            IrInstModel::Jmp(_) => (0nat, 1nat, 0nat),
            IrInstModel::Label(_) => (0nat, 0nat, 1nat),
            _ => (0nat, 0nat, 0nat),
        },
{
    assert(seq![x].drop_last() =~= Seq::<IrInstModel>::empty());
    assert(control_counts(Seq::<IrInstModel>::empty()) == (0nat, 0nat, 0nat));
    assert(seq![x].last() == x);
}

/// Appends one instruction and counts it.
proof fn lemma_counts_push(a: Seq<IrInstModel>, x: IrInstModel)
    ensures
        control_counts(a + seq![x]) == add3(control_counts(a), control_counts(seq![x])),
        control_counts(seq![x]) == match x {
            IrInstModel::JmpIfFalse { .. } => (1nat, 0nat, 0nat),
            IrInstModel::Jmp(_) => (0nat, 1nat, 0nat),
            IrInstModel::Label(_) => (0nat, 0nat, 1nat),
            _ => (0nat, 0nat, 0nat),
        },
{
    lemma_counts_concat(a, seq![x]);
    lemma_counts_one(x);
}

/// The lowering of an expression has one conditional jump, one jump and two
/// labels for each conditional it lowers, and no others.
pub proof fn lemma_lower_expr_counts(e: ExprModel, names: Seq<Seq<char>>, regs: nat, labels: nat)
    ensures
        control_counts(lower_expr(e, names, regs, labels).insts) == per_if(lowered_ifs_expr(e)),
    decreases e, 1nat,
{
    let out = lower_expr(e, names, regs, labels);
    let empty = Seq::<IrInstModel>::empty();
    match e {
        ExprModel::Binary { op, left, right } => {
            let l = lower_expr(*left, names, regs + 1, labels);
            let r = lower_expr(*right, names, l.regs, l.labels);
            lemma_lower_expr_counts(*left, names, regs + 1, labels);
            lemma_lower_expr_counts(*right, names, l.regs, l.labels);
            let x = IrInstModel::Binary {
                dest: IrDestModel::Reg(regs),
                op: crate::ir::lowered_op(op).unwrap(),
                left: l.val,
                right: r.val,
            };
            assert(out.insts =~= l.insts + r.insts + seq![x]);
            lemma_counts_concat(l.insts, r.insts);
            lemma_counts_push(l.insts + r.insts, x);
            let n1 = lowered_ifs_expr(*left);
            let n2 = lowered_ifs_expr(*right);
            assert(control_counts(l.insts + r.insts) == (n1 + n2, n1 + n2, 2 * n1 + 2 * n2));
            assert(control_counts(out.insts) == (n1 + n2, n1 + n2, 2 * n1 + 2 * n2));
            assert(lowered_ifs_expr(e) == n1 + n2);
        },
        ExprModel::Block { content } => {
            let n = content.len();
            let a0 = IrInstModel::Assign { dest: IrDestModel::Reg(regs), src: IrValModel::ConstUnit };
            lemma_counts_one(a0);
            if n == 0 {
                assert(out.insts =~= seq![a0]);
                assert(lowered_ifs_stmts(content) == 0);
            } else {
                let pre = content.subrange(0, n - 1);
                let init = lower_stmts(pre, names, regs + 1, labels);
                lemma_lower_stmts_counts(pre, names, regs + 1, labels);
                lemma_counts_concat(seq![a0], init.insts);
                assert(lowered_ifs_stmts(content) == lowered_ifs_stmts(pre) + lowered_ifs_stmt(
                    content[n - 1],
                ));
                match content[n - 1] {
                    StmtModel::Expr(last) => {
                        let l = lower_expr(last, names, init.regs, init.labels);
                        lemma_lower_expr_counts(last, names, init.regs, init.labels);
                        lemma_counts_concat(seq![a0] + init.insts, l.insts);
                        let fin = IrInstModel::Assign { dest: IrDestModel::Reg(regs), src: l.val };
                        lemma_counts_push(seq![a0] + init.insts + l.insts, fin);
                        assert(out.insts =~= seq![a0] + init.insts + l.insts + seq![fin]);
                    },
                    last => {
                        let l = lower_stmt(last, names, init.regs, init.labels);
                        lemma_lower_stmt_counts(last, names, init.regs, init.labels);
                        lemma_counts_concat(seq![a0] + init.insts, l.insts);
                        assert(out.insts =~= seq![a0] + init.insts + l.insts);
                    },
                }
            }
        },
        ExprModel::If { .. } => {
            lemma_lower_if_counts(e, names, regs, labels);
        },
        _ => {
            assert(out.insts =~= empty);
        },
    }
}

/// The counts of the lowering of a conditional.
#[verifier::rlimit(40)]
proof fn lemma_lower_if_counts(e: ExprModel, names: Seq<Seq<char>>, regs: nat, labels: nat)
    requires
        e is If,
    ensures
        control_counts(lower_expr(e, names, regs, labels).insts) == per_if(lowered_ifs_expr(e)),
    decreases e, 0nat,
{
    let out = lower_expr(e, names, regs, labels);
    match e {
        ExprModel::If { cond, tbranch, fbranch } => {
            let c = lower_expr(*cond, names, regs + 2, labels);
            let k = c.labels;
            let t = lower_expr(*tbranch, names, c.regs, k + 1);
            lemma_lower_expr_counts(*cond, names, regs + 2, labels);
            lemma_lower_expr_counts(*tbranch, names, c.regs, k + 1);
            let a1 = IrInstModel::Assign { dest: IrDestModel::Reg(regs + 1), src: c.val };
            let j1 = IrInstModel::JmpIfFalse { cond: IrDestModel::Reg(regs + 1), jmp_to: else_label(k) };
            let a2 = IrInstModel::Assign { dest: IrDestModel::Reg(regs), src: t.val };
            let j2 = IrInstModel::Jmp(merge_label(k));
            let le = IrInstModel::Label(else_label(k));
            let lm = IrInstModel::Label(merge_label(k));
            let x1 = c.insts + seq![a1];
            lemma_counts_push(c.insts, a1);
            let x2 = x1 + seq![j1];
            lemma_counts_push(x1, j1);
            let x3 = x2 + t.insts;
            lemma_counts_concat(x2, t.insts);
            let x4 = x3 + seq![a2];
            lemma_counts_push(x3, a2);
            let x5 = x4 + seq![j2];
            lemma_counts_push(x4, j2);
            let x6 = x5 + seq![le];
            lemma_counts_push(x5, le);
            match fbranch {
                Some(f) => {
                    let fl = lower_expr(*f, names, t.regs, t.labels);
                    lemma_lower_expr_counts(*f, names, t.regs, t.labels);
                    let a3 = IrInstModel::Assign { dest: IrDestModel::Reg(regs), src: fl.val };
                    let x7 = x6 + fl.insts;
                    lemma_counts_concat(x6, fl.insts);
                    let x8 = x7 + seq![a3];
                    lemma_counts_push(x7, a3);
                    lemma_counts_push(x8, lm);
                    assert(out.insts =~= x8 + seq![lm]);
                },
                None => {
                    lemma_counts_push(x6, lm);
                    assert(out.insts =~= x6 + seq![lm]);
                },
            }
        },
        _ => {},
    }
}

/// The lowering of a statement has the control instructions of the
/// conditionals it lowers.
pub proof fn lemma_lower_stmt_counts(s: StmtModel, names: Seq<Seq<char>>, regs: nat, labels: nat)
    ensures
        control_counts(lower_stmt(s, names, regs, labels).insts) == per_if(lowered_ifs_stmt(s)),
    decreases s, 1nat,
{
    let out = lower_stmt(s, names, regs, labels);
    let (e, r0) = match s {
        StmtModel::Expr(e) => (e, regs + 1),
        StmtModel::Decl { rhs, .. } => (*rhs, regs),
        StmtModel::Assignment { rhs, .. } => (*rhs, regs),
    };
    let l = lower_expr(e, names, r0, labels);
    lemma_lower_expr_counts(e, names, r0, labels);
    let fin = out.insts[out.insts.len() - 1];
    assert(out.insts =~= l.insts + seq![fin]);
    lemma_counts_push(l.insts, fin);
}

/// Lowered code, of a whole program too, holds exactly one conditional
/// jump, one jump and two labels for each conditional it lowers.
pub proof fn lemma_lower_stmts_counts(ss: Seq<StmtModel>, names: Seq<Seq<char>>, regs: nat, labels: nat)
    ensures
        control_counts(lower_stmts(ss, names, regs, labels).insts) == per_if(lowered_ifs_stmts(ss)),
    decreases ss, 1nat,
{
    let out = lower_stmts(ss, names, regs, labels);
    if ss.len() > 0 {
        let pre = ss.subrange(0, ss.len() - 1);
        let a = lower_stmts(pre, names, regs, labels);
        let b = lower_stmt(ss[ss.len() - 1], names, a.regs, a.labels);
        lemma_lower_stmts_counts(pre, names, regs, labels);
        lemma_lower_stmt_counts(ss[ss.len() - 1], names, a.regs, a.labels);
        lemma_counts_concat(a.insts, b.insts);
    }
}

/// The register a binary instruction writes, if the instruction is one.
pub open spec fn binary_dest(i: IrInstModel) -> Option<nat> {
    match i {
        IrInstModel::Binary { dest: IrDestModel::Reg(r), .. } => Some(r),
        _ => None,
    }
}

/// The register each binary instruction writes is written by no other
/// instruction.
pub open spec fn binary_dests_unique(s: Seq<IrInstModel>) -> bool {
    forall|i: int, j: int|
        0 <= i < s.len() && 0 <= j < s.len() && i != j && (#[trigger] binary_dest(s[i])) is Some
            ==> #[trigger] written_reg(s[j]) != binary_dest(s[i])
}

/// Every binary instruction writes a register from `m` on.
pub open spec fn bins_from(s: Seq<IrInstModel>, m: nat) -> bool {
    forall|i: int| 0 <= i < s.len() ==> match #[trigger] binary_dest(s[i]) {
        Some(r) => m <= r,
        None => true,
    }
}

/// No binary instruction, and only registers below `m` written.
pub open spec fn plain_below(p: Seq<IrInstModel>, m: nat) -> bool {
    forall|i: int| 0 <= i < p.len() ==> (#[trigger] binary_dest(p[i])) is None && match written_reg(
        p[i],
    ) {
        Some(r) => r < m,
        None => true,
    }
}

proof fn lemma_bins_of_writes(s: Seq<IrInstModel>, lo: nat, hi: nat)
    requires
        writes_within(s, lo, hi),
    ensures
        bins_from(s, lo),
{
    assert forall|i: int| 0 <= i < s.len() implies match #[trigger] binary_dest(s[i]) {
        Some(r) => lo <= r,
        None => true,
    } by {
        assert(written_reg(s[i]) == written_reg(s[i]));
    }
}

/// Code whose writes lie in disjoint ranges keeps its binary registers
/// apart.
proof fn lemma_bdu_disjoint(
    a: Seq<IrInstModel>,
    b: Seq<IrInstModel>,
    la: nat,
    ha: nat,
    lb: nat,
    hb: nat,
)
    requires
        binary_dests_unique(a),
        binary_dests_unique(b),
        writes_within(a, la, ha),
        writes_within(b, lb, hb),
        ha <= lb || hb <= la,
    ensures
        binary_dests_unique(a + b),
{
    let s = a + b;
    assert forall|i: int, j: int|
        0 <= i < s.len() && 0 <= j < s.len() && i != j && (#[trigger] binary_dest(s[i])) is Some
            implies #[trigger] written_reg(s[j]) != binary_dest(s[i]) by {
        let n = a.len() as int;
        if i < n {
            assert(s[i] == a[i]);
            assert(written_reg(a[i]) == binary_dest(a[i]));
            if j < n {
                assert(s[j] == a[j]);
            } else {
                assert(s[j] == b[j - n]);
                assert(written_reg(b[j - n]) == written_reg(s[j]));
            }
        } else {
            assert(s[i] == b[i - n]);
            assert(written_reg(b[i - n]) == binary_dest(b[i - n]));
            if j < n {
                assert(s[j] == a[j]);
                assert(written_reg(a[j]) == written_reg(s[j]));
            } else {
                assert(s[j] == b[j - n]);
            }
        }
    }
}

/// Putting instructions that write only registers below every binary
/// register between two parts keeps the binary registers apart.
proof fn lemma_bdu_insert(x: Seq<IrInstModel>, p: Seq<IrInstModel>, y: Seq<IrInstModel>, m: nat)
    requires
        binary_dests_unique(x + y),
        bins_from(x + y, m),
        plain_below(p, m),
    ensures
        binary_dests_unique(x + p + y),
        bins_from(x + p + y, m),
{
    let s = x + p + y;
    let xy = x + y;
    let nx = x.len() as int;
    let np = p.len() as int;
    // positions of `s` outside `p` map onto `x + y`
    assert forall|i: int| 0 <= i < s.len() && !(nx <= i < nx + np) implies s[i] == xy[if i < nx {
        i
    } else {
        i - np
    }] by {
        if i < nx {
            assert(s[i] == x[i]);
            assert(xy[i] == x[i]);
        } else {
            assert(s[i] == y[i - nx - np]);
            assert(xy[i - np] == y[i - np - nx]);
        }
    }
    assert forall|i: int| 0 <= i < s.len() implies match #[trigger] binary_dest(s[i]) {
        Some(r) => m <= r,
        None => true,
    } by {
        if nx <= i < nx + np {
            assert(s[i] == p[i - nx]);
            assert(binary_dest(p[i - nx]) is None);
        } else {
            let k = if i < nx { i } else { i - np };
            assert(s[i] == xy[k]);
            assert(binary_dest(xy[k]) == binary_dest(s[i]));
        }
    }
    assert forall|i: int, j: int|
        0 <= i < s.len() && 0 <= j < s.len() && i != j && (#[trigger] binary_dest(s[i])) is Some
            implies #[trigger] written_reg(s[j]) != binary_dest(s[i]) by {
        if nx <= i < nx + np {
            assert(s[i] == p[i - nx]);
            assert(binary_dest(p[i - nx]) is None);
        } else {
            let ki = if i < nx { i } else { i - np };
            assert(s[i] == xy[ki]);
            assert(binary_dest(xy[ki]) == binary_dest(s[i]));
            assert(m <= binary_dest(xy[ki]).unwrap());
            if nx <= j < nx + np {
                assert(s[j] == p[j - nx]);
                assert(binary_dest(p[j - nx]) is None);
                assert(written_reg(p[j - nx]) == written_reg(s[j]));
            } else {
                let kj = if j < nx { j } else { j - np };
                assert(s[j] == xy[kj]);
                assert(written_reg(xy[kj]) == written_reg(s[j]));
            }
        }
    }
}

proof fn lemma_bdu_plain(p: Seq<IrInstModel>, m: nat)
    requires
        plain_below(p, m),
    ensures
        binary_dests_unique(p),
{
    assert forall|i: int, j: int|
        0 <= i < p.len() && 0 <= j < p.len() && i != j && (#[trigger] binary_dest(p[i])) is Some
            implies #[trigger] written_reg(p[j]) != binary_dest(p[i]) by {
        assert(binary_dest(p[i]) is None);
    }
}

/// In the lowering of an expression, the register of each binary
/// instruction is written by no other instruction.
pub proof fn lemma_lower_expr_binary_unique(e: ExprModel, names: Seq<Seq<char>>, regs: nat, labels: nat)
    ensures
        binary_dests_unique(lower_expr(e, names, regs, labels).insts),
    decreases e, 1nat,
{
    let out = lower_expr(e, names, regs, labels);
    let empty = Seq::<IrInstModel>::empty();
    match e {
        ExprModel::Binary { op, left, right } => {
            let l = lower_expr(*left, names, regs + 1, labels);
            let r = lower_expr(*right, names, l.regs, l.labels);
            lemma_lower_expr_binary_unique(*left, names, regs + 1, labels);
            lemma_lower_expr_binary_unique(*right, names, l.regs, l.labels);
            lemma_lower_expr_grows(*left, names, regs + 1, labels);
            lemma_lower_expr_grows(*right, names, l.regs, l.labels);
            lemma_lower_expr_writes_fresh(*left, names, regs + 1, labels);
            lemma_lower_expr_writes_fresh(*right, names, l.regs, l.labels);
            lemma_bdu_disjoint(l.insts, r.insts, regs + 1, l.regs, l.regs, r.regs);
            lemma_writes_widen(l.insts, regs + 1, l.regs, regs + 1, r.regs);
            lemma_writes_widen(r.insts, l.regs, r.regs, regs + 1, r.regs);
            lemma_writes_concat(l.insts, r.insts, regs + 1, r.regs);
            let x = out.insts[out.insts.len() - 1];
            assert(out.insts =~= l.insts + r.insts + seq![x]);
            let last = seq![x];
            assert(written_reg(last[0]) == Some(regs));
            assert(writes_within(last, regs, regs + 1));
            lemma_bdu_plain_one(x);
            lemma_bdu_disjoint(l.insts + r.insts, last, regs + 1, r.regs, regs, regs + 1);
        },
        ExprModel::Block { content } => {
            let n = content.len();
            let a0 = IrInstModel::Assign { dest: IrDestModel::Reg(regs), src: IrValModel::ConstUnit };
            assert(plain_below(seq![a0], regs + 1));
            if n == 0 {
                assert(out.insts =~= seq![a0]);
                lemma_bdu_plain(seq![a0], regs + 1);
            } else {
                let pre = content.subrange(0, n - 1);
                let init = lower_stmts(pre, names, regs + 1, labels);
                lemma_lower_stmts_binary_unique(pre, names, regs + 1, labels);
                lemma_lower_stmts_grows(pre, names, regs + 1, labels);
                lemma_lower_stmts_writes_fresh(pre, names, regs + 1, labels);
                let (li, lr) = match content[n - 1] {
                    StmtModel::Expr(last) => {
                        let l = lower_expr(last, names, init.regs, init.labels);
                        lemma_lower_expr_binary_unique(last, names, init.regs, init.labels);
                        lemma_lower_expr_grows(last, names, init.regs, init.labels);
                        lemma_lower_expr_writes_fresh(last, names, init.regs, init.labels);
                        (l.insts, l.regs)
                    },
                    last => {
                        let l = lower_stmt(last, names, init.regs, init.labels);
                        lemma_lower_stmt_binary_unique(last, names, init.regs, init.labels);
                        lemma_lower_stmt_grows(last, names, init.regs, init.labels);
                        lemma_lower_stmt_writes_fresh(last, names, init.regs, init.labels);
                        (l.insts, l.regs)
                    },
                };
                lemma_bdu_disjoint(init.insts, li, regs + 1, init.regs, init.regs, lr);
                lemma_writes_widen(init.insts, regs + 1, init.regs, regs + 1, lr);
                lemma_writes_widen(li, init.regs, lr, regs + 1, lr);
                lemma_writes_concat(init.insts, li, regs + 1, lr);
                lemma_bins_of_writes(init.insts + li, regs + 1, lr);
                assert(empty + (init.insts + li) =~= init.insts + li);
                lemma_bdu_insert(empty, seq![a0], init.insts + li, regs + 1);
                let z = empty + seq![a0] + (init.insts + li);
                match content[n - 1] {
                    StmtModel::Expr(last) => {
                        let l = lower_expr(last, names, init.regs, init.labels);
                        let fin = IrInstModel::Assign { dest: IrDestModel::Reg(regs), src: l.val };
                        assert(plain_below(seq![fin], regs + 1));
                        assert(z + empty =~= z);
                        lemma_bdu_insert(z, seq![fin], empty, regs + 1);
                        assert(out.insts =~= z + seq![fin] + empty);
                    },
                    last => {
                        assert(out.insts =~= z);
                    },
                }
            }
        },
        ExprModel::If { .. } => {
            lemma_lower_if_binary_unique(e, names, regs, labels);
        },
        _ => {
            assert(out.insts =~= empty);
        },
    }
}

proof fn lemma_bdu_plain_one(x: IrInstModel)
    ensures
        binary_dests_unique(seq![x]),
{
}

/// The binary registers of the lowering of a conditional.
#[verifier::rlimit(40)]
proof fn lemma_lower_if_binary_unique(e: ExprModel, names: Seq<Seq<char>>, regs: nat, labels: nat)
    requires
        e is If,
    ensures
        binary_dests_unique(lower_expr(e, names, regs, labels).insts),
    decreases e, 0nat,
{
    let out = lower_expr(e, names, regs, labels);
    let empty = Seq::<IrInstModel>::empty();
    match e {
        ExprModel::If { cond, tbranch, fbranch } => {
            let c = lower_expr(*cond, names, regs + 2, labels);
            let k = c.labels;
            let t = lower_expr(*tbranch, names, c.regs, k + 1);
            lemma_lower_expr_binary_unique(*cond, names, regs + 2, labels);
            lemma_lower_expr_binary_unique(*tbranch, names, c.regs, k + 1);
            lemma_lower_expr_grows(*cond, names, regs + 2, labels);
            lemma_lower_expr_grows(*tbranch, names, c.regs, k + 1);
            lemma_lower_expr_writes_fresh(*cond, names, regs + 2, labels);
            lemma_lower_expr_writes_fresh(*tbranch, names, c.regs, k + 1);
            let a1 = IrInstModel::Assign { dest: IrDestModel::Reg(regs + 1), src: c.val };
            let j1 = IrInstModel::JmpIfFalse { cond: IrDestModel::Reg(regs + 1), jmp_to: else_label(k) };
            let a2 = IrInstModel::Assign { dest: IrDestModel::Reg(regs), src: t.val };
            let j2 = IrInstModel::Jmp(merge_label(k));
            let le = IrInstModel::Label(else_label(k));
            let lm = IrInstModel::Label(merge_label(k));
            let (fi, fr) = match fbranch {
                Some(f) => {
                    let fl = lower_expr(*f, names, t.regs, t.labels);
                    lemma_lower_expr_binary_unique(*f, names, t.regs, t.labels);
                    lemma_lower_expr_grows(*f, names, t.regs, t.labels);
                    lemma_lower_expr_writes_fresh(*f, names, t.regs, t.labels);
                    (fl.insts, fl.regs)
                },
                None => (empty, t.regs),
            };
            let p3 = match fbranch {
                Some(f) => seq![
                    IrInstModel::Assign {
                        dest: IrDestModel::Reg(regs),
                        src: lower_expr(*f, names, t.regs, t.labels).val,
                    },
                    lm,
                ],
                None => seq![lm],
            };
            let p1 = seq![a1, j1];
            let p2 = seq![a2, j2, le];
            let m = regs + 2;
            assert(plain_below(p1, m)) by {
                assert(p1[0] == a1 && p1[1] == j1);
            }
            assert(plain_below(p2, m)) by {
                assert(p2[0] == a2 && p2[1] == j2 && p2[2] == le);
            }
            assert(plain_below(p3, m)) by {
                if fbranch is Some {
                    assert(p3[1] == lm);
                } else {
                    assert(p3[0] == lm);
                }
            }
            // the branches and the condition, in register order
            lemma_bdu_disjoint(t.insts, fi, c.regs, t.regs, t.regs, fr);
            lemma_writes_widen(t.insts, c.regs, t.regs, c.regs, fr);
            lemma_writes_widen(fi, t.regs, fr, c.regs, fr);
            lemma_writes_concat(t.insts, fi, c.regs, fr);
            lemma_bdu_disjoint(c.insts, t.insts + fi, m, c.regs, c.regs, fr);
            lemma_writes_widen(c.insts, m, c.regs, m, fr);
            lemma_writes_widen(t.insts + fi, c.regs, fr, m, fr);
            lemma_writes_concat(c.insts, t.insts + fi, m, fr);
            lemma_bins_of_writes(c.insts + (t.insts + fi), m, fr);
            // the control instructions between them
            lemma_bdu_insert(c.insts, p1, t.insts + fi, m);
            let x2 = c.insts + p1 + t.insts;
            assert(c.insts + p1 + (t.insts + fi) =~= x2 + fi);
            lemma_bdu_insert(x2, p2, fi, m);
            let x3 = x2 + p2 + fi;
            assert(x3 + empty =~= x3);
            lemma_bdu_insert(x3, p3, empty, m);
            assert(out.insts =~= x3 + p3 + empty);
        },
        _ => {},
    }
}

/// In the lowering of a statement, the register of each binary instruction
/// is written by no other instruction.
pub proof fn lemma_lower_stmt_binary_unique(s: StmtModel, names: Seq<Seq<char>>, regs: nat, labels: nat)
    ensures
        binary_dests_unique(lower_stmt(s, names, regs, labels).insts),
    decreases s, 1nat,
{
    let out = lower_stmt(s, names, regs, labels);
    let empty = Seq::<IrInstModel>::empty();
    let (e, r0) = match s {
        StmtModel::Expr(e) => (e, regs + 1),
        StmtModel::Decl { rhs, .. } => (*rhs, regs),
        StmtModel::Assignment { rhs, .. } => (*rhs, regs),
    };
    let l = lower_expr(e, names, r0, labels);
    lemma_lower_expr_binary_unique(e, names, r0, labels);
    lemma_lower_expr_writes_fresh(e, names, r0, labels);
    lemma_bins_of_writes(l.insts, r0, l.regs);
    let fin = out.insts[out.insts.len() - 1];
    assert(out.insts =~= l.insts + seq![fin] + empty);
    assert(l.insts + empty =~= l.insts);
    assert(plain_below(seq![fin], r0)) by {
        assert(seq![fin][0] == fin);
    }
    lemma_bdu_insert(l.insts, seq![fin], empty, r0);
}

/// In lowered code, of a whole program too, the register of each binary
/// instruction is written by no other instruction.
pub proof fn lemma_lower_stmts_binary_unique(
    ss: Seq<StmtModel>,
    names: Seq<Seq<char>>,
    regs: nat,
    labels: nat,
)
    ensures
        binary_dests_unique(lower_stmts(ss, names, regs, labels).insts),
    decreases ss, 1nat,
{
    if ss.len() > 0 {
        let pre = ss.subrange(0, ss.len() - 1);
        let a = lower_stmts(pre, names, regs, labels);
        let b = lower_stmt(ss[ss.len() - 1], names, a.regs, a.labels);
        lemma_lower_stmts_binary_unique(pre, names, regs, labels);
        lemma_lower_stmt_binary_unique(ss[ss.len() - 1], names, a.regs, a.labels);
        lemma_lower_stmts_grows(pre, names, regs, labels);
        lemma_lower_stmts_writes_fresh(pre, names, regs, labels);
        lemma_lower_stmt_writes_fresh(ss[ss.len() - 1], names, a.regs, a.labels);
        lemma_bdu_disjoint(a.insts, b.insts, regs, a.regs, a.regs, b.regs);
    } else {
        assert(binary_dests_unique(lower_stmts(ss, names, regs, labels).insts));
    }
}

} // verus!
