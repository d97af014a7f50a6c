use crate::type_checker::Type;
use vstd::prelude::*;

verus! {

/// Binary operators of the source language.
#[derive(Debug, Clone, Copy, PartialEq, Eq, Structural)]
pub enum BinaryOp {
    Add,
    Sub,
    Mul,
    Div,
    Lt,
    Lte,
    Gt,
    Gte,
    Eq,
    Or,
    And,
}

/// Unary operators of the source language.
#[derive(Debug, Clone, Copy, PartialEq, Eq, Structural)]
pub enum UnaryOp {
    Neg,
}

/// Expressions. A variable is the index of its name in the identifier table.
#[derive(Debug, PartialEq)]
#[allow(inconsistent_fields)]
pub enum Expr {
    ConstInt(i32),
    ConstBool(bool),
    Var(usize),
    Unary { op: UnaryOp, child: Box<Expr> },
    Binary { op: BinaryOp, left: Box<Expr>, right: Box<Expr> },
    Block { content: Vec<Stmt> },
    If { cond: Box<Expr>, tbranch: Box<Expr>, fbranch: Option<Box<Expr>> },
}

/// Statements.
#[derive(Debug, PartialEq)]
pub enum Stmt {
    Decl { name_id: usize, decl_type: Option<Type>, rhs: Box<Expr> },
    Assignment { name_id: usize, rhs: Box<Expr> },
    Expr(Expr),
}

/// A parsed program: its statements and the table of identifier names.
#[derive(Debug, Clone, PartialEq)]
pub struct Program {
    pub stmts: Vec<Stmt>,
    pub idtable: Vec<String>,
}

/// The mathematical value of an expression: the same tree, with the
/// statements of a block held in a sequence.
#[allow(inconsistent_fields)]
pub enum ExprModel {
    ConstInt(i32),
    ConstBool(bool),
    Var(usize),
    Unary { op: UnaryOp, child: Box<ExprModel> },
    Binary { op: BinaryOp, left: Box<ExprModel>, right: Box<ExprModel> },
    Block { content: Seq<StmtModel> },
    If { cond: Box<ExprModel>, tbranch: Box<ExprModel>, fbranch: Option<Box<ExprModel>> },
}

/// The mathematical value of a statement.
pub enum StmtModel {
    Decl { name_id: usize, decl_type: Option<Type>, rhs: Box<ExprModel> },
    Assignment { name_id: usize, rhs: Box<ExprModel> },
    Expr(ExprModel),
}

pub open spec fn expr_model(e: Expr) -> ExprModel
    decreases e,
{
    match e {
        Expr::ConstInt(x) => ExprModel::ConstInt(x),
        Expr::ConstBool(b) => ExprModel::ConstBool(b),
        Expr::Var(id) => ExprModel::Var(id),
        Expr::Unary { op, child } => ExprModel::Unary { op, child: Box::new(expr_model(*child)) },
        Expr::Binary { op, left, right } => ExprModel::Binary {
            op,
            left: Box::new(expr_model(*left)),
            right: Box::new(expr_model(*right)),
        },
        Expr::Block { content } => ExprModel::Block { content: stmts_model(content@) },
        Expr::If { cond, tbranch, fbranch } => ExprModel::If {
            cond: Box::new(expr_model(*cond)),
            tbranch: Box::new(expr_model(*tbranch)),
            fbranch: match fbranch {
                Some(f) => Some(Box::new(expr_model(*f))),
                None => None,
            },
        },
    }
}

pub open spec fn stmt_model(s: Stmt) -> StmtModel
    decreases s,
{
    match s {
        Stmt::Decl { name_id, decl_type, rhs } => StmtModel::Decl {
            name_id,
            decl_type,
            rhs: Box::new(expr_model(*rhs)),
        },
        Stmt::Assignment { name_id, rhs } => StmtModel::Assignment {
            name_id,
            rhs: Box::new(expr_model(*rhs)),
        },
        Stmt::Expr(e) => StmtModel::Expr(expr_model(e)),
    }
}

pub open spec fn stmts_model(s: Seq<Stmt>) -> Seq<StmtModel>
    decreases s,
{
    if s.len() == 0 {
        Seq::empty()
    } else {
        stmts_model(s.subrange(0, s.len() - 1)).push(stmt_model(s[s.len() - 1]))
    }
}

impl View for Expr {
    type V = ExprModel;

    open spec fn view(&self) -> ExprModel {
        expr_model(*self)
    }
}

impl View for Stmt {
    type V = StmtModel;

    open spec fn view(&self) -> StmtModel {
        stmt_model(*self)
    }
}

/// The statements of a block or program, one by one.
pub proof fn lemma_stmts_model(s: Seq<Stmt>)
    ensures
        stmts_model(s).len() == s.len(),
        forall|i: int| 0 <= i < s.len() ==> #[trigger] stmts_model(s)[i] == s[i]@,
    decreases s.len(),
{
    if s.len() > 0 {
        lemma_stmts_model(s.subrange(0, s.len() - 1));
    }
}

impl Clone for Expr {
    fn clone(&self) -> (r: Self)
        ensures
            r@ == self@,
        decreases self,
    {
        match self {
            Expr::ConstInt(x) => Expr::ConstInt(*x),
            Expr::ConstBool(b) => Expr::ConstBool(*b),
            Expr::Var(id) => Expr::Var(*id),
            Expr::Unary { op, child } => {
                let c: &Expr = child;
                Expr::Unary { op: *op, child: Box::new(c.clone()) }
            },
            Expr::Binary { op, left, right } => {
                let l: &Expr = left;
                let r: &Expr = right;
                Expr::Binary { op: *op, left: Box::new(l.clone()), right: Box::new(r.clone()) }
            },
            Expr::Block { content } => {
                Expr::Block { content: clone_stmts(content) }
            },
            Expr::If { cond, tbranch, fbranch } => {
                let c: &Expr = cond;
                let t: &Expr = tbranch;
                let f = match fbranch {
                    Some(f) => {
                        let fe: &Expr = f;
                        Some(Box::new(fe.clone()))
                    },
                    None => None,
                };
                Expr::If { cond: Box::new(c.clone()), tbranch: Box::new(t.clone()), fbranch: f }
            },
        }
    }
}

impl Clone for Stmt {
    fn clone(&self) -> (r: Self)
        ensures
            r@ == self@,
        decreases self,
    {
        match self {
            Stmt::Decl { name_id, decl_type, rhs } => {
                let e: &Expr = rhs;
                Stmt::Decl { name_id: *name_id, decl_type: *decl_type, rhs: Box::new(e.clone()) }
            },
            Stmt::Assignment { name_id, rhs } => {
                let e: &Expr = rhs;
                Stmt::Assignment { name_id: *name_id, rhs: Box::new(e.clone()) }
            },
            Stmt::Expr(e) => Stmt::Expr(e.clone()),
        }
    }
}

fn clone_stmts(v: &Vec<Stmt>) -> (r: Vec<Stmt>)
    ensures
        stmts_model(r@) == stmts_model(v@),
    decreases v,
{
    let mut r: Vec<Stmt> = Vec::new();
    let mut i: usize = 0;
    proof {
        lemma_stmts_model(v@);
    }
    while i < v.len()
        invariant
            i <= v@.len(),
            r@.len() == i,
            forall|j: int| 0 <= j < i ==> #[trigger] r@[j]@ == v@[j]@,
        decreases v.len() - i,
    {
        r.push(v[i].clone());
        i += 1;
    }
    proof {
        lemma_stmts_model(r@);
        assert(stmts_model(r@) =~= stmts_model(v@));
    }
    r
}

} // verus!
