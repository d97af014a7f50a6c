//! A recursive-descent parser from tokens to the syntax tree.
//!
//! The grammar, from the loosest binding to the tightest:
//!
//! ```text
//! program    = (';' | stmt)*
//! stmt       = 'let' Id (':' type)? '=' comparison
//!            | Id '=' expr
//!            | expr
//! expr       = 'if' expr block ('else' expr)? | block | logical_or
//! block      = '{' (';' | stmt)* '}'
//! logical_or = logical_and ('||' logical_and)*
//! logical_and= comparison ('&&' comparison)*
//! comparison = aexpr (('<' | '<=' | '>' | '>=' | '==') aexpr)*
//! aexpr      = term (('+' | '-') term)*
//! term       = unary (('*' | '/') unary)*
//! unary      = '-' unary | factor
//! factor     = '(' comparison ')' | 'true' | 'false' | Int | Id
//! ```
//!
//! All binary operators associate to the left.
//!
//! Each grammar function below gives the tree read from position `p` with
//! the position after it, or `None` where the tokens there do not fit. The
//! checks `advanced(toks, p, q)` make the number of tokens left a measure
//! that every repetition lowers; the parser proves that every successful
//! parse moves forward within the tokens, so they always hold.
use crate::ast::{
    expr_model, stmt_model, stmts_model, BinaryOp, Expr, ExprModel, Program, Stmt, StmtModel,
    UnaryOp,
};
use crate::lexer::Token;
use crate::type_checker::Type;
use vstd::prelude::*;

verus! {

/// The token at `p`, if there is one.
pub open spec fn tok(toks: Seq<Token>, p: int) -> Option<Token> {
    if 0 <= p < toks.len() {
        Some(toks[p])
    } else {
        None
    }
}

/// Whether the token at `p` is `t`.
pub open spec fn at(toks: Seq<Token>, p: int, t: Token) -> bool {
    tok(toks, p) == Some(t)
}

/// `q` lies after `p` and within the tokens.
pub open spec fn advanced(toks: Seq<Token>, p: int, q: int) -> bool {
    p < q <= toks.len()
}

/// The operator of a multiplicative token.
pub open spec fn mul_op(t: Option<Token>) -> Option<BinaryOp> {
    match t {
        Some(Token::Star) => Some(BinaryOp::Mul),
        Some(Token::Slash) => Some(BinaryOp::Div),
        _ => None,
    }
}

/// The operator of an additive token.
pub open spec fn add_op(t: Option<Token>) -> Option<BinaryOp> {
    match t {
        Some(Token::Plus) => Some(BinaryOp::Add),
        Some(Token::Minus) => Some(BinaryOp::Sub),
        _ => None,
    }
}

/// The operator of a comparison token.
pub open spec fn rel_op(t: Option<Token>) -> Option<BinaryOp> {
    match t {
        Some(Token::LT) => Some(BinaryOp::Lt),
        Some(Token::LTE) => Some(BinaryOp::Lte),
        Some(Token::GT) => Some(BinaryOp::Gt),
        Some(Token::GTE) => Some(BinaryOp::Gte),
        Some(Token::EQEQ) => Some(BinaryOp::Eq),
        _ => None,
    }
}

/// The type named by a type token.
pub open spec fn type_of(t: Option<Token>) -> Option<Type> {
    match t {
        Some(Token::IntType) => Some(Type::Int),
        Some(Token::CharType) => Some(Type::Char),
        Some(Token::BoolType) => Some(Type::Bool),
        _ => None,
    }
}

pub open spec fn binary(op: BinaryOp, l: ExprModel, r: ExprModel) -> ExprModel {
    ExprModel::Binary { op, left: Box::new(l), right: Box::new(r) }
}

/// factor = '(' comparison ')' | 'true' | 'false' | Int | Id
pub open spec fn factor(toks: Seq<Token>, p: int) -> Option<(ExprModel, int)>
    decreases toks.len() - p, 0nat,
{
    match tok(toks, p) {
        Some(Token::LParen) => match comparison(toks, p + 1) {
            Some((e, q)) => if at(toks, q, Token::RParen) {
                Some((e, q + 1))
            } else {
                None
            },
            None => None,
        },
        Some(Token::TrueLit) => Some((ExprModel::ConstBool(true), p + 1)),
        Some(Token::FalseLit) => Some((ExprModel::ConstBool(false), p + 1)),
        Some(Token::IntLit(x)) => Some((ExprModel::ConstInt(x), p + 1)),
        Some(Token::Id(id)) => Some((ExprModel::Var(id), p + 1)),
        _ => None,
    }
}

/// unary = '-' unary | factor
pub open spec fn unary(toks: Seq<Token>, p: int) -> Option<(ExprModel, int)>
    decreases toks.len() - p, 1nat,
{
    if at(toks, p, Token::Minus) {
        match unary(toks, p + 1) {
            Some((e, q)) => Some((ExprModel::Unary { op: UnaryOp::Neg, child: Box::new(e) }, q)),
            None => None,
        }
    } else {
        factor(toks, p)
    }
}

/// term = unary (('*' | '/') unary)*
pub open spec fn term(toks: Seq<Token>, p: int) -> Option<(ExprModel, int)>
    decreases toks.len() - p, 2nat,
{
    match unary(toks, p) {
        Some((e, q)) => if advanced(toks, p, q) {
            mul_rest(toks, q, e)
        } else {
            None
        },
        None => None,
    }
}

/// The repetition of `term` after its first operand `acc`, which ends at `p`.
pub open spec fn mul_rest(toks: Seq<Token>, p: int, acc: ExprModel) -> Option<(ExprModel, int)>
    decreases toks.len() - p, 2nat,
{
    match mul_op(tok(toks, p)) {
        Some(op) => match unary(toks, p + 1) {
            Some((r, q)) => if advanced(toks, p, q) {
                mul_rest(toks, q, binary(op, acc, r))
            } else {
                None
            },
            None => None,
        },
        None => Some((acc, p)),
    }
}

/// aexpr = term (('+' | '-') term)*
pub open spec fn aexpr(toks: Seq<Token>, p: int) -> Option<(ExprModel, int)>
    decreases toks.len() - p, 3nat,
{
    match term(toks, p) {
        Some((e, q)) => if advanced(toks, p, q) {
            add_rest(toks, q, e)
        } else {
            None
        },
        None => None,
    }
}

pub open spec fn add_rest(toks: Seq<Token>, p: int, acc: ExprModel) -> Option<(ExprModel, int)>
    decreases toks.len() - p, 3nat,
{
    match add_op(tok(toks, p)) {
        Some(op) => match term(toks, p + 1) {
            Some((r, q)) => if advanced(toks, p, q) {
                add_rest(toks, q, binary(op, acc, r))
            } else {
                None
            },
            None => None,
        },
        None => Some((acc, p)),
    }
}

/// comparison = aexpr (('<' | '<=' | '>' | '>=' | '==') aexpr)*
pub open spec fn comparison(toks: Seq<Token>, p: int) -> Option<(ExprModel, int)>
    decreases toks.len() - p, 4nat,
{
    match aexpr(toks, p) {
        Some((e, q)) => if advanced(toks, p, q) {
            rel_rest(toks, q, e)
        } else {
            None
        },
        None => None,
    }
}

pub open spec fn rel_rest(toks: Seq<Token>, p: int, acc: ExprModel) -> Option<(ExprModel, int)>
    decreases toks.len() - p, 4nat,
{
    match rel_op(tok(toks, p)) {
        Some(op) => match aexpr(toks, p + 1) {
            Some((r, q)) => if advanced(toks, p, q) {
                rel_rest(toks, q, binary(op, acc, r))
            } else {
                None
            },
            None => None,
        },
        None => Some((acc, p)),
    }
}

/// logical_and = comparison ('&&' comparison)*
pub open spec fn logical_and(toks: Seq<Token>, p: int) -> Option<(ExprModel, int)>
    decreases toks.len() - p, 5nat,
{
    match comparison(toks, p) {
        Some((e, q)) => if advanced(toks, p, q) {
            and_rest(toks, q, e)
        } else {
            None
        },
        None => None,
    }
}

pub open spec fn and_rest(toks: Seq<Token>, p: int, acc: ExprModel) -> Option<(ExprModel, int)>
    decreases toks.len() - p, 5nat,
{
    if at(toks, p, Token::LogicAnd) {
        match comparison(toks, p + 1) {
            Some((r, q)) => if advanced(toks, p, q) {
                and_rest(toks, q, binary(BinaryOp::And, acc, r))
            } else {
                None
            },
            None => None,
        }
    } else {
        Some((acc, p))
    }
}

/// logical_or = logical_and ('||' logical_and)*
pub open spec fn logical_or(toks: Seq<Token>, p: int) -> Option<(ExprModel, int)>
    decreases toks.len() - p, 6nat,
{
    match logical_and(toks, p) {
        Some((e, q)) => if advanced(toks, p, q) {
            or_rest(toks, q, e)
        } else {
            None
        },
        None => None,
    }
}

pub open spec fn or_rest(toks: Seq<Token>, p: int, acc: ExprModel) -> Option<(ExprModel, int)>
    decreases toks.len() - p, 6nat,
{
    if at(toks, p, Token::LogicOr) {
        match logical_and(toks, p + 1) {
            Some((r, q)) => if advanced(toks, p, q) {
                or_rest(toks, q, binary(BinaryOp::Or, acc, r))
            } else {
                None
            },
            None => None,
        }
    } else {
        Some((acc, p))
    }
}

/// block = '{' (';' | stmt)* '}'
pub open spec fn block(toks: Seq<Token>, p: int) -> Option<(ExprModel, int)>
    decreases toks.len() - p, 7nat,
{
    if at(toks, p, Token::LCBrace) {
        match block_items(toks, p + 1) {
            Some((ss, q)) => Some((ExprModel::Block { content: ss }, q)),
            None => None,
        }
    } else {
        None
    }
}

/// The statements of a block from `p` on, up to and including its `}`.
pub open spec fn block_items(toks: Seq<Token>, p: int) -> Option<(Seq<StmtModel>, int)>
    decreases toks.len() - p, 10nat,
{
    match tok(toks, p) {
        None => None,
        Some(Token::RCBrace) => Some((Seq::empty(), p + 1)),
        Some(Token::Semicolon) => block_items(toks, p + 1),
        Some(_) => match stmt(toks, p) {
            Some((s, q)) => if advanced(toks, p, q) {
                match block_items(toks, q) {
                    Some((ss, r)) => Some((seq![s] + ss, r)),
                    None => None,
                }
            } else {
                None
            },
            None => None,
        },
    }
}

/// expr = 'if' expr block ('else' expr)? | block | logical_or
pub open spec fn expr(toks: Seq<Token>, p: int) -> Option<(ExprModel, int)>
    decreases toks.len() - p, 8nat,
{
    if at(toks, p, Token::If) {
        match expr(toks, p + 1) {
            Some((c, q1)) => if advanced(toks, p, q1) {
                match block(toks, q1) {
                    Some((t, q2)) => if advanced(toks, p, q2) {
                        if at(toks, q2, Token::Else) {
                            match expr(toks, q2 + 1) {
                                Some((f, q3)) => Some((
                                    ExprModel::If {
                                        cond: Box::new(c),
                                        tbranch: Box::new(t),
                                        fbranch: Some(Box::new(f)),
                                    },
                                    q3,
                                )),
                                None => None,
                            }
                        } else {
                            Some((
                                ExprModel::If {
                                    cond: Box::new(c),
                                    tbranch: Box::new(t),
                                    fbranch: None,
                                },
                                q2,
                            ))
                        }
                    } else {
                        None
                    },
                    None => None,
                }
            } else {
                None
            },
            None => None,
        }
    } else if at(toks, p, Token::LCBrace) {
        block(toks, p)
    } else {
        logical_or(toks, p)
    }
}

/// The variable assigned by a statement that starts at `p`: an identifier
/// followed by `=`.
pub open spec fn assign_target(toks: Seq<Token>, p: int) -> Option<usize> {
    match tok(toks, p) {
        Some(Token::Id(id)) => if at(toks, p + 1, Token::EQ) {
            Some(id)
        } else {
            None
        },
        _ => None,
    }
}

/// stmt = 'let' Id (':' type)? '=' comparison | Id '=' expr | expr
pub open spec fn stmt(toks: Seq<Token>, p: int) -> Option<(StmtModel, int)>
    decreases toks.len() - p, 9nat,
{
    if at(toks, p, Token::Let) {
        match tok(toks, p + 1) {
            Some(Token::Id(id)) => {
                let has_type = at(toks, p + 2, Token::Colon);
                let ty = type_of(tok(toks, p + 3));
                let q = if has_type { p + 4 } else { p + 2 };
                if has_type && ty is None {
                    None
                } else if at(toks, q, Token::EQ) {
                    match comparison(toks, q + 1) {
                        Some((e, r)) => Some((
                            StmtModel::Decl {
                                name_id: id,
                                decl_type: if has_type { ty } else { None },
                                rhs: Box::new(e),
                            },
                            r,
                        )),
                        None => None,
                    }
                } else {
                    None
                }
            },
            _ => None,
        }
    } else {
        match assign_target(toks, p) {
            Some(id) => match expr(toks, p + 2) {
                Some((e, q)) => Some((StmtModel::Assignment { name_id: id, rhs: Box::new(e) }, q)),
                None => None,
            },
            None => match expr(toks, p) {
                Some((e, q)) => Some((StmtModel::Expr(e), q)),
                None => None,
            },
        }
    }
}

/// The statements of a program from `p` on; `;` between them is skipped.
pub open spec fn program_from(toks: Seq<Token>, p: int) -> Option<Seq<StmtModel>>
    decreases toks.len() - p,
{
    match tok(toks, p) {
        None => Some(Seq::empty()),
        Some(Token::Semicolon) => program_from(toks, p + 1),
        Some(_) => match stmt(toks, p) {
            Some((s, q)) => if advanced(toks, p, q) {
                match program_from(toks, q) {
                    Some(ss) => Some(seq![s] + ss),
                    None => None,
                }
            } else {
                None
            },
            None => None,
        },
    }
}

/// Puts the statements already read in front of the result for the rest.
pub open spec fn after_items(
    ss0: Seq<StmtModel>,
    rest: Option<(Seq<StmtModel>, int)>,
) -> Option<(Seq<StmtModel>, int)> {
    match rest {
        Some((ss, q)) => Some((ss0 + ss, q)),
        None => None,
    }
}

/// Puts the statements already read in front of the result for the rest.
pub open spec fn after_stmts(ss0: Seq<StmtModel>, rest: Option<Seq<StmtModel>>) -> Option<
    Seq<StmtModel>,
> {
    match rest {
        Some(ss) => Some(ss0 + ss),
        None => None,
    }
}

/// A parser over a slice of tokens; it hands its identifier table on to the
/// program it builds.
pub struct Parser<'a> {
    tokens: &'a [Token],
    pos: usize,
    idtable: Vec<String>,
}

/// What an expression parser returns, against what the grammar gives from
/// `p0`: the same tree, with the position after it, or nothing.
pub open spec fn yields_expr(r: Option<Expr>, g: Option<(ExprModel, int)>, p0: int, p: int, n: int) -> bool {
    match g {
        Some((e, q)) => r matches Some(x) && x@ == e && p == q && p0 < q <= n,
        None => r is None,
    }
}

pub open spec fn yields_stmt(r: Option<Stmt>, g: Option<(StmtModel, int)>, p0: int, p: int, n: int) -> bool {
    match g {
        Some((s, q)) => r matches Some(x) && x@ == s && p == q && p0 < q <= n,
        None => r is None,
    }
}

fn mul_op_of(t: Option<Token>) -> (r: Option<BinaryOp>)
    ensures
        r == mul_op(t),
{
    match t {
        Some(Token::Star) => Some(BinaryOp::Mul),
        Some(Token::Slash) => Some(BinaryOp::Div),
        _ => None,
    }
}

fn add_op_of(t: Option<Token>) -> (r: Option<BinaryOp>)
    ensures
        r == add_op(t),
{
    match t {
        Some(Token::Plus) => Some(BinaryOp::Add),
        Some(Token::Minus) => Some(BinaryOp::Sub),
        _ => None,
    }
}

fn rel_op_of(t: Option<Token>) -> (r: Option<BinaryOp>)
    ensures
        r == rel_op(t),
{
    match t {
        Some(Token::LT) => Some(BinaryOp::Lt),
        Some(Token::LTE) => Some(BinaryOp::Lte),
        Some(Token::GT) => Some(BinaryOp::Gt),
        Some(Token::GTE) => Some(BinaryOp::Gte),
        Some(Token::EQEQ) => Some(BinaryOp::Eq),
        _ => None,
    }
}

impl<'a> Parser<'a> {
    #[verifier::type_invariant]
    spec fn position_in_range(&self) -> bool {
        self.pos <= self.tokens.len()
    }

    /// The tokens being parsed.
    pub closed spec fn tokens(&self) -> Seq<Token> {
        self.tokens@
    }

    /// The position of the next token to read.
    pub closed spec fn position(&self) -> int {
        self.pos as int
    }

    /// The identifier table handed on to the program.
    pub closed spec fn table(&self) -> Seq<String> {
        self.idtable@
    }

    pub fn new(lexemes: &'a [Token], table: Vec<String>) -> (p: Self)
        ensures
            p.tokens() == lexemes@,
            p.position() == 0,
            p.table() == table@,
    {
        Parser { tokens: lexemes, pos: 0, idtable: table }
    }

    fn peek(&self) -> (r: Option<Token>)
        ensures
            r == tok(self.tokens@, self.pos as int),
    {
        if self.pos < self.tokens.len() {
            Some(self.tokens[self.pos])
        } else {
            None
        }
    }

    /// Consumes the next token where it is `expected`.
    fn eat(&mut self, expected: Token) -> (r: bool)
        ensures
            final(self).tokens@ == old(self).tokens@,
            final(self).idtable@ == old(self).idtable@,
            r == at(old(self).tokens@, old(self).pos as int, expected),
            final(self).pos == if r { old(self).pos + 1 } else { old(self).pos as int },
    {
        proof {
            use_type_invariant(&*self);
        }
        if self.pos < self.tokens.len() && self.tokens[self.pos] == expected {
            self.pos = self.pos + 1;
            true
        } else {
            false
        }
    }

    /// Consumes the next token where it is a type, and gives that type.
    fn expect_type(&mut self) -> (r: Option<Type>)
        ensures
            final(self).tokens@ == old(self).tokens@,
            final(self).idtable@ == old(self).idtable@,
            r == type_of(tok(old(self).tokens@, old(self).pos as int)),
            r is Some ==> final(self).pos == old(self).pos + 1,
    {
        proof {
            use_type_invariant(&*self);
        }
        let r = match self.peek() {
            Some(Token::IntType) => Some(Type::Int),
            Some(Token::CharType) => Some(Type::Char),
            Some(Token::BoolType) => Some(Type::Bool),
            _ => None,
        };
        if r.is_some() {
            self.pos = self.pos + 1;
        }
        r
    }

    /// Consumes the next token where it is an identifier, and gives its index.
    fn expect_identifier(&mut self) -> (r: Option<usize>)
        ensures
            final(self).tokens@ == old(self).tokens@,
            final(self).idtable@ == old(self).idtable@,
            r == match tok(old(self).tokens@, old(self).pos as int) {
                Some(Token::Id(id)) => Some(id),
                _ => None,
            },
            r is Some ==> final(self).pos == old(self).pos + 1,
    {
        proof {
            use_type_invariant(&*self);
        }
        match self.peek() {
            Some(Token::Id(id)) => {
                self.pos = self.pos + 1;
                Some(id)
            },
            _ => None,
        }
    }

    fn parse_factor(&mut self) -> (r: Option<Expr>)
        ensures
            final(self).tokens@ == old(self).tokens@,
            final(self).idtable@ == old(self).idtable@,
            yields_expr(r, factor(old(self).tokens@, old(self).pos as int), old(self).pos as int,
                final(self).pos as int, final(self).tokens@.len() as int),
        decreases old(self).tokens@.len() - old(self).pos, 0nat,
    {
        proof {
            use_type_invariant(&*self);
        }
        match self.peek() {
            Some(Token::LParen) => {
                self.pos = self.pos + 1;
                match self.parse_comparison() {
                    Some(e) => if self.eat(Token::RParen) {
                        Some(e)
                    } else {
                        None
                    },
                    None => None,
                }
            },
            Some(Token::TrueLit) => {
                self.pos = self.pos + 1;
                Some(Expr::ConstBool(true))
            },
            Some(Token::FalseLit) => {
                self.pos = self.pos + 1;
                Some(Expr::ConstBool(false))
            },
            Some(Token::IntLit(x)) => {
                self.pos = self.pos + 1;
                Some(Expr::ConstInt(x))
            },
            Some(Token::Id(id)) => {
                self.pos = self.pos + 1;
                Some(Expr::Var(id))
            },
            _ => None,
        }
    }

    fn parse_unary(&mut self) -> (r: Option<Expr>)
        ensures
            final(self).tokens@ == old(self).tokens@,
            final(self).idtable@ == old(self).idtable@,
            yields_expr(r, unary(old(self).tokens@, old(self).pos as int), old(self).pos as int,
                final(self).pos as int, final(self).tokens@.len() as int),
        decreases old(self).tokens@.len() - old(self).pos, 1nat,
    {
        proof {
            use_type_invariant(&*self);
        }
        if self.eat(Token::Minus) {
            match self.parse_unary() {
                Some(e) => Some(Expr::Unary { op: UnaryOp::Neg, child: Box::new(e) }),
                None => None,
            }
        } else {
            self.parse_factor()
        }
    }

    fn parse_term(&mut self) -> (r: Option<Expr>)
        ensures
            final(self).tokens@ == old(self).tokens@,
            final(self).idtable@ == old(self).idtable@,
            yields_expr(r, term(old(self).tokens@, old(self).pos as int), old(self).pos as int,
                final(self).pos as int, final(self).tokens@.len() as int),
        decreases old(self).tokens@.len() - old(self).pos, 2nat,
    {
        proof {
            use_type_invariant(&*self);
        }
        let ghost toks = self.tokens@;
        let ghost p0 = self.pos as int;
        let mut root = match self.parse_unary() {
            Some(e) => e,
            None => return None,
        };
        loop
            invariant
                self.tokens@ == toks,
                old(self).tokens@ == self.tokens@,
                old(self).idtable@ == self.idtable@,
                old(self).pos == p0,
                p0 < self.pos <= toks.len(),
                term(toks, p0) == mul_rest(toks, self.pos as int, root@),
            ensures
                self.tokens@ == toks,
                old(self).tokens@ == self.tokens@,
                old(self).idtable@ == self.idtable@,
                p0 < self.pos <= toks.len(),
                term(toks, p0) == Some((root@, self.pos as int)),
            decreases toks.len() - self.pos,
        {
            match mul_op_of(self.peek()) {
                None => {
                    break;
                },
                Some(op) => {
                    proof {
                        use_type_invariant(&*self);
                    }
                    self.pos = self.pos + 1;
                    match self.parse_unary() {
                        Some(right) => {
                            root = Expr::Binary { op, left: Box::new(root), right: Box::new(right) };
                        },
                        None => {
                            return None;
                        },
                    }
                },
            }
        }
        Some(root)
    }

    fn parse_aexpr(&mut self) -> (r: Option<Expr>)
        ensures
            final(self).tokens@ == old(self).tokens@,
            final(self).idtable@ == old(self).idtable@,
            yields_expr(r, aexpr(old(self).tokens@, old(self).pos as int), old(self).pos as int,
                final(self).pos as int, final(self).tokens@.len() as int),
        decreases old(self).tokens@.len() - old(self).pos, 3nat,
    {
        proof {
            use_type_invariant(&*self);
        }
        let ghost toks = self.tokens@;
        let ghost p0 = self.pos as int;
        let mut root = match self.parse_term() {
            Some(e) => e,
            None => return None,
        };
        loop
            invariant
                self.tokens@ == toks,
                old(self).tokens@ == self.tokens@,
                old(self).idtable@ == self.idtable@,
                old(self).pos == p0,
                p0 < self.pos <= toks.len(),
                aexpr(toks, p0) == add_rest(toks, self.pos as int, root@),
            ensures
                self.tokens@ == toks,
                old(self).tokens@ == self.tokens@,
                old(self).idtable@ == self.idtable@,
                p0 < self.pos <= toks.len(),
                aexpr(toks, p0) == Some((root@, self.pos as int)),
            decreases toks.len() - self.pos,
        {
            match add_op_of(self.peek()) {
                None => {
                    break;
                },
                Some(op) => {
                    proof {
                        use_type_invariant(&*self);
                    }
                    self.pos = self.pos + 1;
                    match self.parse_term() {
                        Some(right) => {
                            root = Expr::Binary { op, left: Box::new(root), right: Box::new(right) };
                        },
                        None => {
                            return None;
                        },
                    }
                },
            }
        }
        Some(root)
    }

    fn parse_comparison(&mut self) -> (r: Option<Expr>)
        ensures
            final(self).tokens@ == old(self).tokens@,
            final(self).idtable@ == old(self).idtable@,
            yields_expr(r, comparison(old(self).tokens@, old(self).pos as int), old(self).pos as int,
                final(self).pos as int, final(self).tokens@.len() as int),
        decreases old(self).tokens@.len() - old(self).pos, 4nat,
    {
        proof {
            use_type_invariant(&*self);
        }
        let ghost toks = self.tokens@;
        let ghost p0 = self.pos as int;
        let mut root = match self.parse_aexpr() {
            Some(e) => e,
            None => return None,
        };
        loop
            invariant
                self.tokens@ == toks,
                old(self).tokens@ == self.tokens@,
                old(self).idtable@ == self.idtable@,
                old(self).pos == p0,
                p0 < self.pos <= toks.len(),
                comparison(toks, p0) == rel_rest(toks, self.pos as int, root@),
            ensures
                self.tokens@ == toks,
                old(self).tokens@ == self.tokens@,
                old(self).idtable@ == self.idtable@,
                p0 < self.pos <= toks.len(),
                comparison(toks, p0) == Some((root@, self.pos as int)),
            decreases toks.len() - self.pos,
        {
            match rel_op_of(self.peek()) {
                None => {
                    break;
                },
                Some(op) => {
                    proof {
                        use_type_invariant(&*self);
                    }
                    self.pos = self.pos + 1;
                    match self.parse_aexpr() {
                        Some(right) => {
                            root = Expr::Binary { op, left: Box::new(root), right: Box::new(right) };
                        },
                        None => {
                            return None;
                        },
                    }
                },
            }
        }
        Some(root)
    }

    fn parse_logical_and(&mut self) -> (r: Option<Expr>)
        ensures
            final(self).tokens@ == old(self).tokens@,
            final(self).idtable@ == old(self).idtable@,
            yields_expr(r, logical_and(old(self).tokens@, old(self).pos as int), old(self).pos as int,
                final(self).pos as int, final(self).tokens@.len() as int),
        decreases old(self).tokens@.len() - old(self).pos, 5nat,
    {
        proof {
            use_type_invariant(&*self);
        }
        let ghost toks = self.tokens@;
        let ghost p0 = self.pos as int;
        let mut root = match self.parse_comparison() {
            Some(e) => e,
            None => return None,
        };
        loop
            invariant
                self.tokens@ == toks,
                old(self).tokens@ == self.tokens@,
                old(self).idtable@ == self.idtable@,
                old(self).pos == p0,
                p0 < self.pos <= toks.len(),
                logical_and(toks, p0) == and_rest(toks, self.pos as int, root@),
            ensures
                self.tokens@ == toks,
                old(self).tokens@ == self.tokens@,
                old(self).idtable@ == self.idtable@,
                p0 < self.pos <= toks.len(),
                logical_and(toks, p0) == Some((root@, self.pos as int)),
            decreases toks.len() - self.pos,
        {
            if !self.eat(Token::LogicAnd) {
                break;
            }
            match self.parse_comparison() {
                Some(right) => {
                    root = Expr::Binary {
                        op: BinaryOp::And,
                        left: Box::new(root),
                        right: Box::new(right),
                    };
                },
                None => {
                    return None;
                },
            }
        }
        Some(root)
    }

    fn parse_logical_or(&mut self) -> (r: Option<Expr>)
        ensures
            final(self).tokens@ == old(self).tokens@,
            final(self).idtable@ == old(self).idtable@,
            yields_expr(r, logical_or(old(self).tokens@, old(self).pos as int), old(self).pos as int,
                final(self).pos as int, final(self).tokens@.len() as int),
        decreases old(self).tokens@.len() - old(self).pos, 6nat,
    {
        proof {
            use_type_invariant(&*self);
        }
        let ghost toks = self.tokens@;
        let ghost p0 = self.pos as int;
        let mut root = match self.parse_logical_and() {
            Some(e) => e,
            None => return None,
        };
        loop
            invariant
                self.tokens@ == toks,
                old(self).tokens@ == self.tokens@,
                old(self).idtable@ == self.idtable@,
                old(self).pos == p0,
                p0 < self.pos <= toks.len(),
                logical_or(toks, p0) == or_rest(toks, self.pos as int, root@),
            ensures
                self.tokens@ == toks,
                old(self).tokens@ == self.tokens@,
                old(self).idtable@ == self.idtable@,
                p0 < self.pos <= toks.len(),
                logical_or(toks, p0) == Some((root@, self.pos as int)),
            decreases toks.len() - self.pos,
        {
            if !self.eat(Token::LogicOr) {
                break;
            }
            match self.parse_logical_and() {
                Some(right) => {
                    root = Expr::Binary {
                        op: BinaryOp::Or,
                        left: Box::new(root),
                        right: Box::new(right),
                    };
                },
                None => {
                    return None;
                },
            }
        }
        Some(root)
    }


    #[verifier::rlimit(60)]
    fn parse_block(&mut self) -> (r: Option<Expr>)
        ensures
            final(self).tokens@ == old(self).tokens@,
            final(self).idtable@ == old(self).idtable@,
            yields_expr(r, block(old(self).tokens@, old(self).pos as int), old(self).pos as int,
                final(self).pos as int, final(self).tokens@.len() as int),
        decreases old(self).tokens@.len() - old(self).pos, 7nat,
    {
        proof {
            use_type_invariant(&*self);
        }
        let ghost toks = self.tokens@;
        let ghost p0 = self.pos as int;
        if !self.eat(Token::LCBrace) {
            return None;
        }
        let ghost p1 = self.pos as int;
        let mut content: Vec<Stmt> = Vec::new();
        assert(Seq::<StmtModel>::empty() + Seq::<StmtModel>::empty() =~= Seq::<StmtModel>::empty());
        proof {
            if let Some((ss, q)) = block_items(toks, p1) {
                assert(stmts_model(content@) + ss =~= ss);
            }
        }
        loop
            invariant_except_break
                block_items(toks, p1) == after_items(
                    stmts_model(content@),
                    block_items(toks, self.pos as int),
                ),
            invariant
                self.tokens@ == toks,
                old(self).tokens@ == self.tokens@,
                old(self).idtable@ == self.idtable@,
                old(self).pos == p0,
                p1 == p0 + 1,
                p0 < p1 <= self.pos <= toks.len(),
            ensures
                self.tokens@ == toks,
                old(self).tokens@ == self.tokens@,
                old(self).idtable@ == self.idtable@,
                p0 < self.pos <= toks.len(),
                block_items(toks, p1) == Some((stmts_model(content@), self.pos as int)),
            decreases toks.len() - self.pos,
        {
            proof {
                use_type_invariant(&*self);
            }
            match self.peek() {
                None => {
                    return None;
                },
                Some(Token::RCBrace) => {
                    self.pos = self.pos + 1;
                    assert(stmts_model(content@) + Seq::<StmtModel>::empty() =~= stmts_model(
                        content@,
                    ));
                    break;
                },
                Some(Token::Semicolon) => {
                    self.pos = self.pos + 1;
                },
                Some(_) => {
                    match self.try_parse_stmt() {
                        Some(st) => {
                            let ghost before = content@;
                            content.push(st);
                            proof {
                                assert(content@.subrange(0, content@.len() - 1) =~= before);
                                if let Some((ss, q)) = block_items(toks, self.pos as int) {
                                    assert(stmts_model(before) + (seq![st@] + ss) =~= stmts_model(
                                        content@,
                                    ) + ss);
                                }
                            }
                        },
                        None => {
                            return None;
                        },
                    }
                },
            }
        }
        Some(Expr::Block { content })
    }

    /// Parses an expression; `None` where the tokens from the current
    /// position do not start with one.
    pub fn try_parse_expr(&mut self) -> (r: Option<Expr>)
        ensures
            final(self).tokens() == old(self).tokens(),
            final(self).table() == old(self).table(),
            yields_expr(r, expr(old(self).tokens(), old(self).position()), old(self).position(),
                final(self).position(), final(self).tokens().len() as int),
        decreases old(self).tokens().len() - old(self).position(), 8nat,
    {
        proof {
            use_type_invariant(&*self);
        }
        if self.eat(Token::If) {
            let cond = match self.try_parse_expr() {
                Some(c) => c,
                None => return None,
            };
            let then = match self.parse_block() {
                Some(t) => t,
                None => return None,
            };
            if self.eat(Token::Else) {
                match self.try_parse_expr() {
                    Some(f) => Some(
                        Expr::If {
                            cond: Box::new(cond),
                            tbranch: Box::new(then),
                            fbranch: Some(Box::new(f)),
                        },
                    ),
                    None => None,
                }
            } else {
                Some(Expr::If { cond: Box::new(cond), tbranch: Box::new(then), fbranch: None })
            }
        } else {
            match self.peek() {
                Some(Token::LCBrace) => self.parse_block(),
                _ => self.parse_logical_or(),
            }
        }
    }

    /// Parses a statement; `None` where the tokens from the current position
    /// do not start with one.
    pub fn try_parse_stmt(&mut self) -> (r: Option<Stmt>)
        ensures
            final(self).tokens() == old(self).tokens(),
            final(self).table() == old(self).table(),
            yields_stmt(r, stmt(old(self).tokens(), old(self).position()), old(self).position(),
                final(self).position(), final(self).tokens().len() as int),
        decreases old(self).tokens().len() - old(self).position(), 9nat,
    {
        proof {
            use_type_invariant(&*self);
        }
        if self.eat(Token::Let) {
            let id = match self.expect_identifier() {
                Some(id) => id,
                None => return None,
            };
            let mut maybe_type: Option<Type> = None;
            if self.eat(Token::Colon) {
                match self.expect_type() {
                    Some(t) => {
                        maybe_type = Some(t);
                    },
                    None => {
                        return None;
                    },
                }
            }
            if !self.eat(Token::EQ) {
                return None;
            }
            match self.parse_comparison() {
                Some(rhs) => Some(
                    Stmt::Decl { name_id: id, decl_type: maybe_type, rhs: Box::new(rhs) },
                ),
                None => None,
            }
        } else {
            let target = match self.peek() {
                Some(Token::Id(id)) => if self.pos + 1 < self.tokens.len() && self.tokens[self.pos
                    + 1] == Token::EQ {
                    Some(id)
                } else {
                    None
                },
                _ => None,
            };
            match target {
                Some(id) => {
                    self.pos = self.pos + 2;
                    match self.try_parse_expr() {
                        Some(rhs) => Some(Stmt::Assignment { name_id: id, rhs: Box::new(rhs) }),
                        None => None,
                    }
                },
                None => match self.try_parse_expr() {
                    Some(e) => Some(Stmt::Expr(e)),
                    None => None,
                },
            }
        }
    }

    /// Parses the statements from the current position to the end.
    #[verifier::rlimit(60)]
    fn parse_stmts(&mut self) -> (r: Option<Vec<Stmt>>)
        ensures
            final(self).tokens@ == old(self).tokens@,
            final(self).idtable@ == old(self).idtable@,
            match program_from(old(self).tokens@, old(self).pos as int) {
                Some(ss) => r matches Some(v) && stmts_model(v@) == ss,
                None => r is None,
            },
    {
        proof {
            use_type_invariant(&*self);
        }
        let ghost toks = self.tokens@;
        let ghost p0 = self.pos as int;
        let mut stmts: Vec<Stmt> = Vec::new();
        proof {
            if let Some(ss) = program_from(toks, p0) {
                assert(stmts_model(stmts@) + ss =~= ss);
            }
        }
        loop
            invariant_except_break
                program_from(toks, p0) == after_stmts(
                    stmts_model(stmts@),
                    program_from(toks, self.pos as int),
                ),
            invariant
                self.tokens@ == toks,
                old(self).tokens@ == self.tokens@,
                old(self).idtable@ == self.idtable@,
                old(self).pos == p0,
                self.pos <= toks.len(),
            ensures
                old(self).tokens@ == self.tokens@,
                old(self).idtable@ == self.idtable@,
                program_from(toks, p0) == Some(stmts_model(stmts@)),
            decreases toks.len() - self.pos,
        {
            proof {
                use_type_invariant(&*self);
            }
            match self.peek() {
                None => {
                    assert(stmts_model(stmts@) + Seq::<StmtModel>::empty() =~= stmts_model(
                        stmts@,
                    ));
                    break;
                },
                Some(Token::Semicolon) => {
                    self.pos = self.pos + 1;
                },
                Some(_) => {
                    match self.try_parse_stmt() {
                        Some(st) => {
                            let ghost before = stmts@;
                            stmts.push(st);
                            proof {
                                assert(stmts@.subrange(0, stmts@.len() - 1) =~= before);
                                if let Some(ss) = program_from(toks, self.pos as int) {
                                    assert(stmts_model(before) + (seq![st@] + ss) =~= stmts_model(
                                        stmts@,
                                    ) + ss);
                                }
                            }
                        },
                        None => {
                            return None;
                        },
                    }
                },
            }
        }
        Some(stmts)
    }
}

impl<'a> Parser<'a> {
    /// Whether the tokens from the current position on form a program.
    pub open spec fn can_parse_program(&self) -> bool {
        program_from(self.tokens(), self.position()) is Some
    }

    /// Whether the tokens from the current position on start with a statement.
    pub open spec fn can_parse_stmt(&self) -> bool {
        stmt(self.tokens(), self.position()) is Some
    }

    /// Whether the tokens from the current position on start with an
    /// expression.
    pub open spec fn can_parse_expr(&self) -> bool {
        expr(self.tokens(), self.position()) is Some
    }

    /// Parses the tokens from the current position to the end as a program,
    /// which takes over the identifier table.
    pub fn parse_program(self) -> (p: Program)
        requires
            self.can_parse_program(),
        ensures
            stmts_model(p.stmts@) == program_from(self.tokens(), self.position())->0,
            p.idtable@ == self.table(),
    {
        let mut parser = self;
        match parser.parse_stmts() {
            Some(stmts) => Program { stmts, idtable: parser.idtable },
            None => Program { stmts: Vec::new(), idtable: parser.idtable },
        }
    }

    /// As `parse_program`, but gives `None` where the tokens do not form a
    /// program.
    pub fn try_parse_program(self) -> (r: Option<Program>)
        ensures
            match program_from(self.tokens(), self.position()) {
                Some(ss) => r matches Some(p) && stmts_model(p.stmts@) == ss && p.idtable@
                    == self.table(),
                None => r is None,
            },
    {
        let mut parser = self;
        match parser.parse_stmts() {
            Some(stmts) => Some(Program { stmts, idtable: parser.idtable }),
            None => None,
        }
    }

    /// Parses a statement at the current position.
    pub fn parse_stmt(&mut self) -> (s: Stmt)
        requires
            old(self).can_parse_stmt(),
        ensures
            final(self).tokens() == old(self).tokens(),
            final(self).table() == old(self).table(),
            stmt(old(self).tokens(), old(self).position()) == Some((s@, final(self).position())),
    {
        match self.try_parse_stmt() {
            Some(s) => s,
            None => Stmt::Expr(Expr::ConstBool(false)),
        }
    }

    /// Parses an expression at the current position.
    pub fn parse_expr(&mut self) -> (e: Expr)
        requires
            old(self).can_parse_expr(),
        ensures
            final(self).tokens() == old(self).tokens(),
            final(self).table() == old(self).table(),
            expr(old(self).tokens(), old(self).position()) == Some((e@, final(self).position())),
    {
        match self.try_parse_expr() {
            Some(e) => e,
            None => Expr::ConstBool(false),
        }
    }
}

} // verus!
