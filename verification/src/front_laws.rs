//! Properties of lexing and parsing that hold for every input.
use crate::lexer::{
    digits_end, extend, lemma_digits_end, lemma_name_end, lemma_step_advances, lex_from, name_end,
    step_at, unicode_alphabetic, unicode_whitespace, StepModel, Token,
};
use crate::ast::{ExprModel, StmtModel};
use crate::parser::{
    add_rest, advanced, aexpr, and_rest, assign_target, block, block_items, comparison, expr,
    factor, logical_and, logical_or, mul_rest, or_rest, program_from, rel_rest, stmt, term, tok,
    unary,
};
use vstd::prelude::*;

verus! {

/// The indices of the identifier tokens, in order.
pub open spec fn id_indices(ts: Seq<Token>) -> Seq<usize>
    decreases ts.len(),
{
    if ts.len() == 0 {
        Seq::empty()
    } else {
        let rest = id_indices(ts.subrange(1, ts.len() as int));
        match ts[0] {
            Token::Id(k) => seq![k] + rest,
            _ => rest,
        }
    }
}

/// Every identifier token has an index in `lo..hi`.
pub open spec fn ids_in(ts: Seq<Token>, lo: nat, hi: nat) -> bool {
    forall|i: int| 0 <= i < ts.len() ==> match #[trigger] ts[i] {
        Token::Id(k) => lo <= k < hi,
        _ => true,
    }
}

proof fn lemma_prepend_non_id(t: Token, ts: Seq<Token>, lo: nat, hi: nat)
    requires
        !(t is Id),
        ids_in(ts, lo, hi),
    ensures
        id_indices(seq![t] + ts) == id_indices(ts),
        ids_in(seq![t] + ts, lo, hi),
{
    assert((seq![t] + ts).subrange(1, (seq![t] + ts).len() as int) =~= ts);
    assert forall|i: int| 0 <= i < (seq![t] + ts).len() implies match #[trigger] (seq![t] + ts)[i] {
        Token::Id(k) => lo <= k < hi,
        _ => true,
    } by {
        if i > 0 {
            assert((seq![t] + ts)[i] == ts[i - 1]);
        }
    }
}

/// The lexer numbers identifiers in the order they occur: the identifier
/// tokens of the output are `Id(next_id)`, `Id(next_id + 1)`, ..., one for
/// each name added to the table, so each names the entry of the table that
/// holds its text.
pub proof fn lemma_lex_numbers_ids(cs: Seq<char>, p: int, next_id: nat)
    requires
        lex_from(cs, p, next_id) is Some,
        0 <= p,
        next_id + lex_from(cs, p, next_id).unwrap().1.len() <= usize::MAX,
    ensures
        id_indices(lex_from(cs, p, next_id).unwrap().0) == Seq::new(
            lex_from(cs, p, next_id).unwrap().1.len(),
            |i: int| (next_id + i) as usize,
        ),
        ids_in(
            lex_from(cs, p, next_id).unwrap().0,
            next_id,
            next_id + lex_from(cs, p, next_id).unwrap().1.len(),
        ),
        lex_from(cs, p, next_id).unwrap().1.len() <= cs.len() - p || p >= cs.len(),
    decreases cs.len() - p,
{
    let (ts, ns) = lex_from(cs, p, next_id).unwrap();
    if p < 0 || p >= cs.len() {
        assert(id_indices(ts) =~= Seq::new(ns.len(), |i: int| (next_id + i) as usize));
    } else {
        let c = cs[p];
        let blank = unicode_whitespace(c);
        let alpha = unicode_alphabetic(c);
        lemma_step_advances(cs, p, blank, alpha);
        match step_at(cs, p, blank, alpha) {
            StepModel::Blank => {
                lemma_lex_numbers_ids(cs, p + 1, next_id);
            },
            StepModel::Emit(t, e) => {
                lemma_lex_numbers_ids(cs, e, next_id);
                let (ts2, ns2) = lex_from(cs, e, next_id).unwrap();
                assert(!(t is Id)) by {
                    lemma_step_emits_no_id(cs, p, blank, alpha);
                }
                lemma_prepend_non_id(t, ts2, next_id, next_id + ns2.len());
            },
            StepModel::Name(e) => {
                lemma_lex_numbers_ids(cs, e, next_id + 1);
                let (ts2, ns2) = lex_from(cs, e, next_id + 1).unwrap();
                let t = Token::Id(next_id as usize);
                assert((seq![t] + ts2).subrange(1, (seq![t] + ts2).len() as int) =~= ts2);
                assert(id_indices(ts) =~= Seq::new(ns.len(), |i: int| (next_id + i) as usize));
                assert forall|i: int| 0 <= i < ts.len() implies match #[trigger] ts[i] {
                    Token::Id(k) => next_id <= k < next_id + ns.len(),
                    _ => true,
                } by {
                    if i > 0 {
                        assert(ts[i] == ts2[i - 1]);
                    }
                }
            },
            StepModel::TooLarge => {},
        }
    }
}

/// A step that gives a token never gives an identifier: identifiers come
/// only from names.
proof fn lemma_step_emits_no_id(cs: Seq<char>, p: int, blank: bool, alpha: bool)
    requires
        0 <= p < cs.len(),
    ensures
        step_at(cs, p, blank, alpha) matches StepModel::Emit(t, _) ==> !(t is Id),
{
}

/// Every variable an expression reads or writes has an index below `n`.
pub open spec fn names_below_expr(e: ExprModel, n: nat) -> bool
    decreases e,
{
    match e {
        ExprModel::Var(id) => id < n,
        ExprModel::Unary { child, .. } => names_below_expr(*child, n),
        ExprModel::Binary { left, right, .. } => names_below_expr(*left, n) && names_below_expr(
            *right,
            n,
        ),
        ExprModel::Block { content } => names_below_stmts(content, n),
        ExprModel::If { cond, tbranch, fbranch } => names_below_expr(*cond, n) && names_below_expr(
            *tbranch,
            n,
        ) && match fbranch {
            Some(f) => names_below_expr(*f, n),
            None => true,
        },
        _ => true,
    }
}

pub open spec fn names_below_stmt(s: StmtModel, n: nat) -> bool
    decreases s,
{
    match s {
        StmtModel::Decl { name_id, rhs, .. } => name_id < n && names_below_expr(*rhs, n),
        StmtModel::Assignment { name_id, rhs } => name_id < n && names_below_expr(*rhs, n),
        StmtModel::Expr(e) => names_below_expr(e, n),
    }
}

pub open spec fn names_below_stmts(ss: Seq<StmtModel>, n: nat) -> bool
    decreases ss,
{
    if ss.len() == 0 {
        true
    } else {
        names_below_stmt(ss[0], n) && names_below_stmts(ss.subrange(1, ss.len() as int), n)
    }
}

proof fn lemma_names_cons(s: StmtModel, ss: Seq<StmtModel>, n: nat)
    requires
        names_below_stmt(s, n),
        names_below_stmts(ss, n),
    ensures
        names_below_stmts(seq![s] + ss, n),
{
    assert((seq![s] + ss).subrange(1, (seq![s] + ss).len() as int) =~= ss);
    assert((seq![s] + ss)[0] == s);
}

proof fn lemma_factor_names(toks: Seq<Token>, p: int, n: nat)
    requires
        ids_in(toks, 0, n),
    ensures
        factor(toks, p) matches Some((e, _)) ==> names_below_expr(e, n),
    decreases toks.len() - p, 0nat,
{
    if 0 <= p < toks.len() {
        let t = toks[p];
        if t == Token::LParen {
            lemma_comparison_names(toks, p + 1, n);
        }
    }
}

proof fn lemma_unary_names(toks: Seq<Token>, p: int, n: nat)
    requires
        ids_in(toks, 0, n),
    ensures
        unary(toks, p) matches Some((e, _)) ==> names_below_expr(e, n),
    decreases toks.len() - p, 1nat,
{
    if tok(toks, p) == Some(Token::Minus) {
        lemma_unary_names(toks, p + 1, n);
    } else {
        lemma_factor_names(toks, p, n);
    }
}

proof fn lemma_term_names(toks: Seq<Token>, p: int, n: nat)
    requires
        ids_in(toks, 0, n),
    ensures
        term(toks, p) matches Some((e, _)) ==> names_below_expr(e, n),
    decreases toks.len() - p, 2nat,
{
    lemma_unary_names(toks, p, n);
    if let Some((e, q)) = unary(toks, p) {
        if advanced(toks, p, q) {
            lemma_mul_rest_names(toks, q, e, n);
        }
    }
}

proof fn lemma_mul_rest_names(toks: Seq<Token>, p: int, acc: ExprModel, n: nat)
    requires
        ids_in(toks, 0, n),
        names_below_expr(acc, n),
    ensures
        mul_rest(toks, p, acc) matches Some((e, _)) ==> names_below_expr(e, n),
    decreases toks.len() - p, 2nat,
{
    if let Some(op) = crate::parser::mul_op(tok(toks, p)) {
        lemma_unary_names(toks, p + 1, n);
        if let Some((r, q)) = unary(toks, p + 1) {
            if advanced(toks, p, q) {
                lemma_mul_rest_names(toks, q, crate::parser::binary(op, acc, r), n);
            }
        }
    }
}

proof fn lemma_aexpr_names(toks: Seq<Token>, p: int, n: nat)
    requires
        ids_in(toks, 0, n),
    ensures
        aexpr(toks, p) matches Some((e, _)) ==> names_below_expr(e, n),
    decreases toks.len() - p, 3nat,
{
    lemma_term_names(toks, p, n);
    if let Some((e, q)) = term(toks, p) {
        if advanced(toks, p, q) {
            lemma_add_rest_names(toks, q, e, n);
        }
    }
}

proof fn lemma_add_rest_names(toks: Seq<Token>, p: int, acc: ExprModel, n: nat)
    requires
        ids_in(toks, 0, n),
        names_below_expr(acc, n),
    ensures
        add_rest(toks, p, acc) matches Some((e, _)) ==> names_below_expr(e, n),
    decreases toks.len() - p, 3nat,
{
    if let Some(op) = crate::parser::add_op(tok(toks, p)) {
        lemma_term_names(toks, p + 1, n);
        if let Some((r, q)) = term(toks, p + 1) {
            if advanced(toks, p, q) {
                lemma_add_rest_names(toks, q, crate::parser::binary(op, acc, r), n);
            }
        }
    }
}

proof fn lemma_comparison_names(toks: Seq<Token>, p: int, n: nat)
    requires
        ids_in(toks, 0, n),
    ensures
        comparison(toks, p) matches Some((e, _)) ==> names_below_expr(e, n),
    decreases toks.len() - p, 4nat,
{
    lemma_aexpr_names(toks, p, n);
    if let Some((e, q)) = aexpr(toks, p) {
        if advanced(toks, p, q) {
            lemma_rel_rest_names(toks, q, e, n);
        }
    }
}

proof fn lemma_rel_rest_names(toks: Seq<Token>, p: int, acc: ExprModel, n: nat)
    requires
        ids_in(toks, 0, n),
        names_below_expr(acc, n),
    ensures
        rel_rest(toks, p, acc) matches Some((e, _)) ==> names_below_expr(e, n),
    decreases toks.len() - p, 4nat,
{
    if let Some(op) = crate::parser::rel_op(tok(toks, p)) {
        lemma_aexpr_names(toks, p + 1, n);
        if let Some((r, q)) = aexpr(toks, p + 1) {
            if advanced(toks, p, q) {
                lemma_rel_rest_names(toks, q, crate::parser::binary(op, acc, r), n);
            }
        }
    }
}

proof fn lemma_logical_and_names(toks: Seq<Token>, p: int, n: nat)
    requires
        ids_in(toks, 0, n),
    ensures
        logical_and(toks, p) matches Some((e, _)) ==> names_below_expr(e, n),
    decreases toks.len() - p, 5nat,
{
    lemma_comparison_names(toks, p, n);
    if let Some((e, q)) = comparison(toks, p) {
        if advanced(toks, p, q) {
            lemma_and_rest_names(toks, q, e, n);
        }
    }
}

proof fn lemma_and_rest_names(toks: Seq<Token>, p: int, acc: ExprModel, n: nat)
    requires
        ids_in(toks, 0, n),
        names_below_expr(acc, n),
    ensures
        and_rest(toks, p, acc) matches Some((e, _)) ==> names_below_expr(e, n),
    decreases toks.len() - p, 5nat,
{
    if tok(toks, p) == Some(Token::LogicAnd) {
        lemma_comparison_names(toks, p + 1, n);
        if let Some((r, q)) = comparison(toks, p + 1) {
            if advanced(toks, p, q) {
                lemma_and_rest_names(
                    toks,
                    q,
                    crate::parser::binary(crate::ast::BinaryOp::And, acc, r),
                    n,
                );
            }
        }
    }
}

proof fn lemma_logical_or_names(toks: Seq<Token>, p: int, n: nat)
    requires
        ids_in(toks, 0, n),
    ensures
        logical_or(toks, p) matches Some((e, _)) ==> names_below_expr(e, n),
    decreases toks.len() - p, 6nat,
{
    lemma_logical_and_names(toks, p, n);
    if let Some((e, q)) = logical_and(toks, p) {
        if advanced(toks, p, q) {
            lemma_or_rest_names(toks, q, e, n);
        }
    }
}

proof fn lemma_or_rest_names(toks: Seq<Token>, p: int, acc: ExprModel, n: nat)
    requires
        ids_in(toks, 0, n),
        names_below_expr(acc, n),
    ensures
        or_rest(toks, p, acc) matches Some((e, _)) ==> names_below_expr(e, n),
    decreases toks.len() - p, 6nat,
{
    if tok(toks, p) == Some(Token::LogicOr) {
        lemma_logical_and_names(toks, p + 1, n);
        if let Some((r, q)) = logical_and(toks, p + 1) {
            if advanced(toks, p, q) {
                lemma_or_rest_names(
                    toks,
                    q,
                    crate::parser::binary(crate::ast::BinaryOp::Or, acc, r),
                    n,
                );
            }
        }
    }
}

proof fn lemma_block_names(toks: Seq<Token>, p: int, n: nat)
    requires
        ids_in(toks, 0, n),
    ensures
        block(toks, p) matches Some((e, _)) ==> names_below_expr(e, n),
    decreases toks.len() - p, 7nat,
{
    if tok(toks, p) == Some(Token::LCBrace) {
        lemma_block_items_names(toks, p + 1, n);
    }
}

proof fn lemma_block_items_names(toks: Seq<Token>, p: int, n: nat)
    requires
        ids_in(toks, 0, n),
    ensures
        block_items(toks, p) matches Some((ss, _)) ==> names_below_stmts(ss, n),
    decreases toks.len() - p, 10nat,
{
    match tok(toks, p) {
        None => {},
        Some(Token::RCBrace) => {},
        Some(Token::Semicolon) => {
            lemma_block_items_names(toks, p + 1, n);
        },
        Some(_) => {
            lemma_stmt_names(toks, p, n);
            if let Some((s, q)) = stmt(toks, p) {
                if advanced(toks, p, q) {
                    lemma_block_items_names(toks, q, n);
                    if let Some((ss, r)) = block_items(toks, q) {
                        lemma_names_cons(s, ss, n);
                    }
                }
            }
        },
    }
}

proof fn lemma_expr_names(toks: Seq<Token>, p: int, n: nat)
    requires
        ids_in(toks, 0, n),
    ensures
        expr(toks, p) matches Some((e, _)) ==> names_below_expr(e, n),
    decreases toks.len() - p, 8nat,
{
    if tok(toks, p) == Some(Token::If) {
        lemma_expr_names(toks, p + 1, n);
        if let Some((c, q1)) = expr(toks, p + 1) {
            if advanced(toks, p, q1) {
                lemma_block_names(toks, q1, n);
                if let Some((t, q2)) = block(toks, q1) {
                    if advanced(toks, p, q2) {
                        if tok(toks, q2) == Some(Token::Else) {
                            lemma_expr_names(toks, q2 + 1, n);
                        }
                    }
                }
            }
        }
    } else if tok(toks, p) == Some(Token::LCBrace) {
        lemma_block_names(toks, p, n);
    } else {
        lemma_logical_or_names(toks, p, n);
    }
}

proof fn lemma_stmt_names(toks: Seq<Token>, p: int, n: nat)
    requires
        ids_in(toks, 0, n),
    ensures
        stmt(toks, p) matches Some((s, _)) ==> names_below_stmt(s, n),
    decreases toks.len() - p, 9nat,
{
    if tok(toks, p) == Some(Token::Let) {
        if let Some(Token::Id(id)) = tok(toks, p + 1) {
            let t = toks[p + 1];
            let has_type = crate::parser::at(toks, p + 2, Token::Colon);
            let q = if has_type { p + 4 } else { p + 2 };
            if crate::parser::at(toks, q, Token::EQ) {
                lemma_comparison_names(toks, q + 1, n);
            }
        }
    } else {
        match assign_target(toks, p) {
            Some(id) => {
                let t = toks[p];
                lemma_expr_names(toks, p + 2, n);
            },
            None => {
                lemma_expr_names(toks, p, n);
            },
        }
    }
}

/// Every variable of a parsed program is named by an identifier token of the
/// input: where the identifier tokens are all below `n`, so are the
/// variables the program declares, assigns and reads.
pub proof fn lemma_program_names(toks: Seq<Token>, p: int, n: nat)
    requires
        ids_in(toks, 0, n),
    ensures
        program_from(toks, p) matches Some(ss) ==> names_below_stmts(ss, n),
    decreases toks.len() - p,
{
    match tok(toks, p) {
        None => {},
        Some(Token::Semicolon) => {
            lemma_program_names(toks, p + 1, n);
        },
        Some(_) => {
            lemma_stmt_names(toks, p, n);
            if let Some((s, q)) = stmt(toks, p) {
                if advanced(toks, p, q) {
                    lemma_program_names(toks, q, n);
                    if let Some(ss) = program_from(toks, q) {
                        lemma_names_cons(s, ss, n);
                    }
                }
            }
        },
    }
}

/// Lexing a source and parsing its tokens gives a program whose variables
/// all index the lexer's identifier table: every name id of the program is
/// below the length of the table after lexing, so the emitter given that
/// table never looks a name up out of range.
pub proof fn lemma_parsed_names_in_table(cs: Seq<char>, table_len: nat)
    requires
        lex_from(cs, 0, table_len) is Some,
        table_len + lex_from(cs, 0, table_len).unwrap().1.len() <= usize::MAX,
    ensures
        program_from(lex_from(cs, 0, table_len).unwrap().0, 0) matches Some(ss) ==> names_below_stmts(
            ss,
            table_len + lex_from(cs, 0, table_len).unwrap().1.len(),
        ),
{
    let (ts, ns) = lex_from(cs, 0, table_len).unwrap();
    let n: nat = table_len + ns.len();
    lemma_lex_numbers_ids(cs, 0, table_len);
    assert forall|i: int| 0 <= i < ts.len() implies match #[trigger] ts[i] {
        Token::Id(k) => 0 <= k < n,
        _ => true,
    } by {
        assert(ids_in(ts, table_len, n));
    }
    lemma_program_names(ts, 0, n);
}

/// Every character of `w` is blank.
pub open spec fn all_blank(w: Seq<char>) -> bool {
    forall|i: int| 0 <= i < w.len() ==> unicode_whitespace(#[trigger] w[i])
}

/// The result of lexing one part of a text followed by the result of lexing
/// `cs` from `p` on, whose identifiers are numbered after those of the first.
pub open spec fn then_lex(
    first: Option<(Seq<Token>, Seq<Seq<char>>)>,
    cs: Seq<char>,
    p: int,
    next_id: nat,
) -> Option<(Seq<Token>, Seq<Seq<char>>)> {
    match first {
        Some((ts, ns)) => extend(ts, ns, lex_from(cs, p, next_id + ns.len())),
        None => None,
    }
}

/// Text after which no token of `a` can go on: nothing, or a blank.
spec fn stops_tokens(r: Seq<char>) -> bool {
    r.len() == 0 || unicode_whitespace(r[0])
}

proof fn lemma_digits_end_prefix(a: Seq<char>, r: Seq<char>, q: int)
    requires
        0 <= q <= a.len(),
        stops_tokens(r),
    ensures
        digits_end(a + r, q) == digits_end(a, q),
    decreases a.len() - q,
{
    if q < a.len() {
        assert((a + r)[q] == a[q]);
        lemma_digits_end_prefix(a, r, q + 1);
    } else if r.len() > 0 {
        assert((a + r)[q] == r[0]);
    }
}

proof fn lemma_name_end_prefix(a: Seq<char>, r: Seq<char>, q: int)
    requires
        0 <= q <= a.len(),
        stops_tokens(r),
    ensures
        name_end(a + r, q) == name_end(a, q),
    decreases a.len() - q,
{
    if q < a.len() {
        assert((a + r)[q] == a[q]);
        lemma_name_end_prefix(a, r, q + 1);
    } else if r.len() > 0 {
        assert((a + r)[q] == r[0]);
    }
}

/// A step inside `a` reads nothing past a blank that follows `a`.
proof fn lemma_step_prefix(a: Seq<char>, r: Seq<char>, p: int, blank: bool, alpha: bool)
    requires
        0 <= p < a.len(),
        stops_tokens(r),
    ensures
        step_at(a + r, p, blank, alpha) == step_at(a, p, blank, alpha),
{
    let cs = a + r;
    assert(cs[p] == a[p]);
    lemma_digits_end_prefix(a, r, p + 1);
    lemma_name_end_prefix(a, r, p + 1);
    lemma_digits_end(a, p + 1);
    lemma_name_end(a, p + 1);
    let de = digits_end(a, p + 1);
    let ne = name_end(a, p + 1);
    assert(cs.subrange(p, de) =~= a.subrange(p, de));
    assert(cs.subrange(p, ne) =~= a.subrange(p, ne));
    if p + 1 < a.len() {
        assert(cs[p + 1] == a[p + 1]);
    } else if r.len() > 0 {
        assert(cs[p + 1] == r[0]);
    }
}

/// Lexing `a + r` up to the end of `a` gives what lexing `a` alone gives,
/// where `r` starts with a blank (or is empty).
proof fn lemma_lex_prefix(a: Seq<char>, r: Seq<char>, p: int, n: nat)
    requires
        0 <= p <= a.len(),
        stops_tokens(r),
    ensures
        lex_from(a + r, p, n) == then_lex(lex_from(a, p, n), a + r, a.len() as int, n),
    decreases a.len() - p,
{
    let cs = a + r;
    if p == a.len() {
        if let Some((ts, ns)) = lex_from(cs, p, n) {
            assert(Seq::<Token>::empty() + ts =~= ts);
            assert(Seq::<Seq<char>>::empty() + ns =~= ns);
        }
    } else {
        let c = a[p];
        assert(cs[p] == c);
        let blank = unicode_whitespace(c);
        let alpha = unicode_alphabetic(c);
        lemma_step_prefix(a, r, p, blank, alpha);
        lemma_step_advances(a, p, blank, alpha);
        match step_at(a, p, blank, alpha) {
            StepModel::Blank => {
                lemma_lex_prefix(a, r, p + 1, n);
            },
            StepModel::Emit(t, e) => {
                lemma_lex_prefix(a, r, e, n);
                if let Some((ts1, ns1)) = lex_from(a, e, n) {
                    if let Some((ts2, ns2)) = lex_from(cs, a.len() as int, n + ns1.len()) {
                        assert(seq![t] + (ts1 + ts2) =~= (seq![t] + ts1) + ts2);
                    }
                }
            },
            StepModel::Name(e) => {
                assert(cs.subrange(p, e) =~= a.subrange(p, e));
                lemma_lex_prefix(a, r, e, n + 1);
                if let Some((ts1, ns1)) = lex_from(a, e, n + 1) {
                    if let Some((ts2, ns2)) = lex_from(cs, a.len() as int, n + 1 + ns1.len()) {
                        let t = Token::Id(n as usize);
                        let w = a.subrange(p, e);
                        assert(seq![t] + (ts1 + ts2) =~= (seq![t] + ts1) + ts2);
                        assert(seq![w] + (ns1 + ns2) =~= (seq![w] + ns1) + ns2);
                    }
                }
            },
            StepModel::TooLarge => {},
        }
    }
}

/// Blanks give nothing: lexing from the start of a run of blanks is lexing
/// from its end.
proof fn lemma_lex_skips_blanks(cs: Seq<char>, q: int, k: int, n: nat)
    requires
        0 <= q,
        0 <= k,
        q + k <= cs.len(),
        forall|i: int| q <= i < q + k ==> unicode_whitespace(#[trigger] cs[i]),
    ensures
        lex_from(cs, q, n) == lex_from(cs, q + k, n),
    decreases k,
{
    if k > 0 {
        lemma_lex_skips_blanks(cs, q + 1, k - 1, n);
        assert(unicode_whitespace(cs[q]));
    }
}

proof fn lemma_digits_end_shift(x: Seq<char>, b: Seq<char>, q: int)
    requires
        0 <= q,
    ensures
        digits_end(x + b, x.len() + q) == x.len() + digits_end(b, q),
    decreases b.len() - q,
{
    if q < b.len() {
        assert((x + b)[x.len() + q] == b[q]);
        lemma_digits_end_shift(x, b, q + 1);
    }
}

proof fn lemma_name_end_shift(x: Seq<char>, b: Seq<char>, q: int)
    requires
        0 <= q,
    ensures
        name_end(x + b, x.len() + q) == x.len() + name_end(b, q),
    decreases b.len() - q,
{
    if q < b.len() {
        assert((x + b)[x.len() + q] == b[q]);
        lemma_name_end_shift(x, b, q + 1);
    }
}

/// Lexing `x + b` from inside `b` reads nothing of `x`.
proof fn lemma_lex_suffix(x: Seq<char>, b: Seq<char>, p: int, n: nat)
    requires
        0 <= p,
    ensures
        lex_from(x + b, x.len() + p, n) == lex_from(b, p, n),
    decreases b.len() - p,
{
    let cs = x + b;
    let d = x.len() as int;
    if p < b.len() {
        let c = b[p];
        assert(cs[d + p] == c);
        let blank = unicode_whitespace(c);
        let alpha = unicode_alphabetic(c);
        lemma_step_advances(b, p, blank, alpha);
        lemma_digits_end_shift(x, b, p + 1);
        lemma_name_end_shift(x, b, p + 1);
        lemma_digits_end(b, p + 1);
        lemma_name_end(b, p + 1);
        let de = digits_end(b, p + 1);
        let ne = name_end(b, p + 1);
        assert(cs.subrange(d + p, d + de) =~= b.subrange(p, de));
        assert(cs.subrange(d + p, d + ne) =~= b.subrange(p, ne));
        if p + 1 < b.len() {
            assert(cs[d + p + 1] == b[p + 1]);
        }
        match step_at(b, p, blank, alpha) {
            StepModel::Blank => {
                lemma_lex_suffix(x, b, p + 1, n);
            },
            StepModel::Emit(t, e) => {
                lemma_lex_suffix(x, b, e, n);
            },
            StepModel::Name(e) => {
                lemma_lex_suffix(x, b, e, n + 1);
            },
            StepModel::TooLarge => {},
        }
    }
}

/// A non-empty run of blanks splits lexing in two: the tokens of `a`, then
/// those of `b`, whose identifiers are numbered on after those of `a`.
pub proof fn lemma_lex_blank_split(a: Seq<char>, w: Seq<char>, b: Seq<char>, n: nat)
    requires
        w.len() > 0,
        all_blank(w),
    ensures
        lex_from(a + w + b, 0, n) == then_lex(lex_from(a, 0, n), b, 0, n),
{
    let r = w + b;
    let cs = a + r;
    assert(a + w + b =~= cs);
    assert(r[0] == w[0]);
    lemma_lex_prefix(a, r, 0, n);
    if let Some((ts, ns)) = lex_from(a, 0, n) {
        let m = n + ns.len();
        assert forall|i: int| a.len() <= i < a.len() + w.len() implies unicode_whitespace(
            #[trigger] cs[i],
        ) by {
            assert(cs[i] == w[i - a.len()]);
        }
        lemma_lex_skips_blanks(cs, a.len() as int, w.len() as int, m);
        assert(cs =~= (a + w) + b);
        lemma_lex_suffix(a + w, b, 0, m);
    }
}

/// Lexing does not depend on which blanks separate tokens: replacing one
/// non-empty run of blanks by another gives the same tokens and names.
pub proof fn lemma_lex_blank_runs(
    a: Seq<char>,
    w1: Seq<char>,
    w2: Seq<char>,
    b: Seq<char>,
    n: nat,
)
    requires
        w1.len() > 0,
        w2.len() > 0,
        all_blank(w1),
        all_blank(w2),
    ensures
        lex_from(a + w1 + b, 0, n) == lex_from(a + w2 + b, 0, n),
{
    lemma_lex_blank_split(a, w1, b, n);
    lemma_lex_blank_split(a, w2, b, n);
}

/// The tokens of `t1` from `lo` to its end are those of `t2` from `lo + d`
/// on, and after them `t2` ends or has a `;`.
pub open spec fn agree(t1: Seq<Token>, t2: Seq<Token>, lo: int, d: int) -> bool {
    &&& 0 <= lo
    &&& 0 <= lo + d
    &&& t1.len() + d <= t2.len()
    &&& forall|x: int| lo <= x < t1.len() ==> #[trigger] t1[x] == t2[x + d]
    &&& (t1.len() + d == t2.len() || t2[t1.len() + d] == Token::Semicolon)
}

proof fn lemma_tok_agree(t1: Seq<Token>, t2: Seq<Token>, lo: int, d: int, y: int)
    requires
        agree(t1, t2, lo, d),
        lo <= y <= t1.len(),
    ensures
        y < t1.len() ==> tok(t2, y + d) == tok(t1, y),
        y == t1.len() ==> tok(t1, y) is None && (tok(t2, y + d) is None || tok(t2, y + d) == Some(
            Token::Semicolon,
        )),
{
    if y < t1.len() {
        assert(t1[y] == t2[y + d]);
    }
}

proof fn lemma_factor_shift(t1: Seq<Token>, t2: Seq<Token>, lo: int, d: int, x: int)
    requires
        agree(t1, t2, lo, d),
        lo <= x <= t1.len(),
    ensures
        factor(t1, x) matches Some((v, q)) ==> x <= q <= t1.len() && factor(t2, x + d) == Some((v, q + d)),
    decreases t1.len() - x, 0nat,
{
    lemma_tok_agree(t1, t2, lo, d, x);
    if tok(t1, x) == Some(Token::LParen) {
        lemma_comparison_shift(t1, t2, lo, d, x + 1);
        if let Some((e, q)) = comparison(t1, x + 1) {
            if q <= t1.len() {
                lemma_tok_agree(t1, t2, lo, d, q);
            }
        }
    }
}

proof fn lemma_unary_shift(t1: Seq<Token>, t2: Seq<Token>, lo: int, d: int, x: int)
    requires
        agree(t1, t2, lo, d),
        lo <= x <= t1.len(),
    ensures
        unary(t1, x) matches Some((v, q)) ==> x <= q <= t1.len() && unary(t2, x + d) == Some((v, q + d)),
    decreases t1.len() - x, 1nat,
{
    lemma_tok_agree(t1, t2, lo, d, x);
    if tok(t1, x) == Some(Token::Minus) {
        lemma_unary_shift(t1, t2, lo, d, x + 1);
    } else {
        lemma_factor_shift(t1, t2, lo, d, x);
    }
}

proof fn lemma_term_shift(t1: Seq<Token>, t2: Seq<Token>, lo: int, d: int, x: int)
    requires
        agree(t1, t2, lo, d),
        lo <= x <= t1.len(),
    ensures
        term(t1, x) matches Some((v, q)) ==> x <= q <= t1.len() && term(t2, x + d) == Some((v, q + d)),
    decreases t1.len() - x, 2nat,
{
    lemma_unary_shift(t1, t2, lo, d, x);
    if let Some((e, q)) = unary(t1, x) {
        if advanced(t1, x, q) {
            lemma_mul_rest_shift(t1, t2, lo, d, q, e);
        }
    }
}

proof fn lemma_mul_rest_shift(t1: Seq<Token>, t2: Seq<Token>, lo: int, d: int, x: int, acc: ExprModel)
    requires
        agree(t1, t2, lo, d),
        lo <= x <= t1.len(),
    ensures
        mul_rest(t1, x, acc) matches Some((v, q)) ==> x <= q <= t1.len() && mul_rest(t2, x + d, acc) == Some((v, q + d)),
    decreases t1.len() - x, 2nat,
{
    lemma_tok_agree(t1, t2, lo, d, x);
    if crate::parser::mul_op(tok(t1, x)) is Some {
        lemma_unary_shift(t1, t2, lo, d, x + 1);
        if let Some((r, q)) = unary(t1, x + 1) {
            if advanced(t1, x, q) {
                lemma_mul_rest_shift(t1, t2, lo, d, q, crate::parser::binary(crate::parser::mul_op(tok(t1, x)).unwrap(), acc, r));
            }
        }
    }
}

proof fn lemma_aexpr_shift(t1: Seq<Token>, t2: Seq<Token>, lo: int, d: int, x: int)
    requires
        agree(t1, t2, lo, d),
        lo <= x <= t1.len(),
    ensures
        aexpr(t1, x) matches Some((v, q)) ==> x <= q <= t1.len() && aexpr(t2, x + d) == Some((v, q + d)),
    decreases t1.len() - x, 3nat,
{
    lemma_term_shift(t1, t2, lo, d, x);
    if let Some((e, q)) = term(t1, x) {
        if advanced(t1, x, q) {
            lemma_add_rest_shift(t1, t2, lo, d, q, e);
        }
    }
}

proof fn lemma_add_rest_shift(t1: Seq<Token>, t2: Seq<Token>, lo: int, d: int, x: int, acc: ExprModel)
    requires
        agree(t1, t2, lo, d),
        lo <= x <= t1.len(),
    ensures
        add_rest(t1, x, acc) matches Some((v, q)) ==> x <= q <= t1.len() && add_rest(t2, x + d, acc) == Some((v, q + d)),
    decreases t1.len() - x, 3nat,
{
    lemma_tok_agree(t1, t2, lo, d, x);
    if crate::parser::add_op(tok(t1, x)) is Some {
        lemma_term_shift(t1, t2, lo, d, x + 1);
        if let Some((r, q)) = term(t1, x + 1) {
            if advanced(t1, x, q) {
                lemma_add_rest_shift(t1, t2, lo, d, q, crate::parser::binary(crate::parser::add_op(tok(t1, x)).unwrap(), acc, r));
            }
        }
    }
}

proof fn lemma_comparison_shift(t1: Seq<Token>, t2: Seq<Token>, lo: int, d: int, x: int)
    requires
        agree(t1, t2, lo, d),
        lo <= x <= t1.len(),
    ensures
        comparison(t1, x) matches Some((v, q)) ==> x <= q <= t1.len() && comparison(t2, x + d) == Some((v, q + d)),
    decreases t1.len() - x, 4nat,
{
    lemma_aexpr_shift(t1, t2, lo, d, x);
    if let Some((e, q)) = aexpr(t1, x) {
        if advanced(t1, x, q) {
            lemma_rel_rest_shift(t1, t2, lo, d, q, e);
        }
    }
}

proof fn lemma_rel_rest_shift(t1: Seq<Token>, t2: Seq<Token>, lo: int, d: int, x: int, acc: ExprModel)
    requires
        agree(t1, t2, lo, d),
        lo <= x <= t1.len(),
    ensures
        rel_rest(t1, x, acc) matches Some((v, q)) ==> x <= q <= t1.len() && rel_rest(t2, x + d, acc) == Some((v, q + d)),
    decreases t1.len() - x, 4nat,
{
    lemma_tok_agree(t1, t2, lo, d, x);
    if crate::parser::rel_op(tok(t1, x)) is Some {
        lemma_aexpr_shift(t1, t2, lo, d, x + 1);
        if let Some((r, q)) = aexpr(t1, x + 1) {
            if advanced(t1, x, q) {
                lemma_rel_rest_shift(t1, t2, lo, d, q, crate::parser::binary(crate::parser::rel_op(tok(t1, x)).unwrap(), acc, r));
            }
        }
    }
}

proof fn lemma_logical_and_shift(t1: Seq<Token>, t2: Seq<Token>, lo: int, d: int, x: int)
    requires
        agree(t1, t2, lo, d),
        lo <= x <= t1.len(),
    ensures
        logical_and(t1, x) matches Some((v, q)) ==> x <= q <= t1.len() && logical_and(t2, x + d) == Some((v, q + d)),
    decreases t1.len() - x, 5nat,
{
    lemma_comparison_shift(t1, t2, lo, d, x);
    if let Some((e, q)) = comparison(t1, x) {
        if advanced(t1, x, q) {
            lemma_and_rest_shift(t1, t2, lo, d, q, e);
        }
    }
}

proof fn lemma_and_rest_shift(t1: Seq<Token>, t2: Seq<Token>, lo: int, d: int, x: int, acc: ExprModel)
    requires
        agree(t1, t2, lo, d),
        lo <= x <= t1.len(),
    ensures
        and_rest(t1, x, acc) matches Some((v, q)) ==> x <= q <= t1.len() && and_rest(t2, x + d, acc) == Some((v, q + d)),
    decreases t1.len() - x, 5nat,
{
    lemma_tok_agree(t1, t2, lo, d, x);
    if tok(t1, x) == Some(Token::LogicAnd) {
        lemma_comparison_shift(t1, t2, lo, d, x + 1);
        if let Some((r, q)) = comparison(t1, x + 1) {
            if advanced(t1, x, q) {
                lemma_and_rest_shift(t1, t2, lo, d, q, crate::parser::binary(crate::ast::BinaryOp::And, acc, r));
            }
        }
    }
}

proof fn lemma_logical_or_shift(t1: Seq<Token>, t2: Seq<Token>, lo: int, d: int, x: int)
    requires
        agree(t1, t2, lo, d),
        lo <= x <= t1.len(),
    ensures
        logical_or(t1, x) matches Some((v, q)) ==> x <= q <= t1.len() && logical_or(t2, x + d) == Some((v, q + d)),
    decreases t1.len() - x, 6nat,
{
    lemma_logical_and_shift(t1, t2, lo, d, x);
    if let Some((e, q)) = logical_and(t1, x) {
        if advanced(t1, x, q) {
            lemma_or_rest_shift(t1, t2, lo, d, q, e);
        }
    }
}

proof fn lemma_or_rest_shift(t1: Seq<Token>, t2: Seq<Token>, lo: int, d: int, x: int, acc: ExprModel)
    requires
        agree(t1, t2, lo, d),
        lo <= x <= t1.len(),
    ensures
        or_rest(t1, x, acc) matches Some((v, q)) ==> x <= q <= t1.len() && or_rest(t2, x + d, acc) == Some((v, q + d)),
    decreases t1.len() - x, 6nat,
{
    lemma_tok_agree(t1, t2, lo, d, x);
    if tok(t1, x) == Some(Token::LogicOr) {
        lemma_logical_and_shift(t1, t2, lo, d, x + 1);
        if let Some((r, q)) = logical_and(t1, x + 1) {
            if advanced(t1, x, q) {
                lemma_or_rest_shift(t1, t2, lo, d, q, crate::parser::binary(crate::ast::BinaryOp::Or, acc, r));
            }
        }
    }
}

proof fn lemma_block_shift(t1: Seq<Token>, t2: Seq<Token>, lo: int, d: int, x: int)
    requires
        agree(t1, t2, lo, d),
        lo <= x <= t1.len(),
    ensures
        block(t1, x) matches Some((v, q)) ==> x <= q <= t1.len() && block(t2, x + d) == Some((v, q + d)),
    decreases t1.len() - x, 7nat,
{
    lemma_tok_agree(t1, t2, lo, d, x);
    if tok(t1, x) == Some(Token::LCBrace) {
        lemma_block_items_shift(t1, t2, lo, d, x + 1);
    }
}

proof fn lemma_block_items_shift(t1: Seq<Token>, t2: Seq<Token>, lo: int, d: int, x: int)
    requires
        agree(t1, t2, lo, d),
        lo <= x <= t1.len(),
    ensures
        block_items(t1, x) matches Some((v, q)) ==> x <= q <= t1.len() && block_items(t2, x + d) == Some(
            (v, q + d),
        ),
    decreases t1.len() - x, 10nat,
{
    lemma_tok_agree(t1, t2, lo, d, x);
    match tok(t1, x) {
        None => {},
        Some(Token::RCBrace) => {},
        Some(Token::Semicolon) => {
            lemma_block_items_shift(t1, t2, lo, d, x + 1);
        },
        Some(_) => {
            lemma_stmt_shift(t1, t2, lo, d, x);
            if let Some((s, q)) = stmt(t1, x) {
                if advanced(t1, x, q) {
                    lemma_block_items_shift(t1, t2, lo, d, q);
                }
            }
        },
    }
}

proof fn lemma_expr_shift(t1: Seq<Token>, t2: Seq<Token>, lo: int, d: int, x: int)
    requires
        agree(t1, t2, lo, d),
        lo <= x <= t1.len(),
    ensures
        expr(t1, x) matches Some((v, q)) ==> x <= q <= t1.len() && expr(t2, x + d) == Some((v, q + d)),
    decreases t1.len() - x, 8nat,
{
    lemma_tok_agree(t1, t2, lo, d, x);
    if tok(t1, x) == Some(Token::If) {
        lemma_expr_shift(t1, t2, lo, d, x + 1);
        if let Some((c, q1)) = expr(t1, x + 1) {
            if advanced(t1, x, q1) {
                lemma_block_shift(t1, t2, lo, d, q1);
                if let Some((t, q2)) = block(t1, q1) {
                    if advanced(t1, x, q2) {
                        lemma_tok_agree(t1, t2, lo, d, q2);
                        if tok(t1, q2) == Some(Token::Else) {
                            lemma_expr_shift(t1, t2, lo, d, q2 + 1);
                        }
                    }
                }
            }
        }
    } else if tok(t1, x) == Some(Token::LCBrace) {
        lemma_block_shift(t1, t2, lo, d, x);
    } else {
        lemma_logical_or_shift(t1, t2, lo, d, x);
    }
}

proof fn lemma_decl_shift(t1: Seq<Token>, t2: Seq<Token>, lo: int, d: int, x: int)
    requires
        agree(t1, t2, lo, d),
        lo <= x < t1.len(),
        t1[x] == Token::Let,
        stmt(t1, x) is Some,
    ensures
        x <= stmt(t1, x).unwrap().1 <= t1.len(),
        stmt(t2, x + d) == Some((stmt(t1, x).unwrap().0, stmt(t1, x).unwrap().1 + d)),
    decreases t1.len() - x, 8nat,
{
    lemma_tok_agree(t1, t2, lo, d, x);
    lemma_tok_agree(t1, t2, lo, d, x + 1);
    assert(crate::parser::at(t2, x + d, Token::Let));
    assert(tok(t2, x + d + 1) == tok(t1, x + 1));
    lemma_tok_agree(t1, t2, lo, d, x + 2);
    let has_type = crate::parser::at(t1, x + 2, Token::Colon);
    assert(crate::parser::at(t2, x + d + 2, Token::Colon) == has_type);
    let ty = crate::parser::type_of(tok(t1, x + 3));
    if has_type {
        lemma_tok_agree(t1, t2, lo, d, x + 3);
        assert(crate::parser::type_of(tok(t2, x + d + 3)) == ty);
    }
    let q = if has_type { x + 4 } else { x + 2 };
    lemma_tok_agree(t1, t2, lo, d, q);
    assert(crate::parser::at(t2, q + d, Token::EQ) == crate::parser::at(t1, q, Token::EQ));
    lemma_comparison_shift(t1, t2, lo, d, q + 1);
}

proof fn lemma_stmt_shift(t1: Seq<Token>, t2: Seq<Token>, lo: int, d: int, x: int)
    requires
        agree(t1, t2, lo, d),
        lo <= x <= t1.len(),
    ensures
        stmt(t1, x) matches Some((v, q)) ==> x <= q <= t1.len() && stmt(t2, x + d) == Some((v, q + d)),
    decreases t1.len() - x, 9nat,
{
    lemma_tok_agree(t1, t2, lo, d, x);
    if tok(t1, x) == Some(Token::Let) {
        if stmt(t1, x) is Some {
            lemma_decl_shift(t1, t2, lo, d, x);
        }
    } else {
        assert(!crate::parser::at(t2, x + d, Token::Let));
        if x < t1.len() {
            lemma_tok_agree(t1, t2, lo, d, x + 1);
        }
        assert(assign_target(t2, x + d) == assign_target(t1, x));
        match assign_target(t1, x) {
            Some(id) => {
                lemma_expr_shift(t1, t2, lo, d, x + 2);
            },
            None => {
                lemma_expr_shift(t1, t2, lo, d, x);
            },
        }
    }
}

/// The statements of a program followed by a `;` and more tokens: reading
/// on from inside it gives its statements, then those read after it.
#[verifier::spinoff_prover]
#[verifier::rlimit(50)]
proof fn lemma_program_prefix(ta: Seq<Token>, t: Seq<Token>, x: int)
    requires
        agree(ta, t, 0, 0),
        0 <= x <= ta.len(),
        program_from(ta, x) is Some,
    ensures
        program_from(t, x) == crate::parser::after_stmts(
            program_from(ta, x).unwrap(),
            program_from(t, ta.len() as int),
        ),
    decreases ta.len() - x,
{
    lemma_tok_agree(ta, t, 0, 0, x);
    match tok(ta, x) {
        None => {
            if let Some(ss) = program_from(t, x) {
                assert(Seq::<StmtModel>::empty() + ss =~= ss);
            }
        },
        Some(Token::Semicolon) => {
            lemma_program_prefix(ta, t, x + 1);
        },
        Some(_) => {
            lemma_stmt_shift(ta, t, 0, 0, x);
            let (s, q) = stmt(ta, x).unwrap();
            assert(x + 0 == x);
            assert(stmt(t, x) == Some((s, q)));
            assert(advanced(t, x, q));
            lemma_program_prefix(ta, t, q);
            let sa = program_from(ta, q).unwrap();
            assert(program_from(ta, x) == Some(seq![s] + sa));
            if let Some(ss) = program_from(t, ta.len() as int) {
                assert(program_from(t, q) == Some(sa + ss));
                assert(seq![s] + (sa + ss) =~= (seq![s] + sa) + ss);
            }
        },
    }
}

/// `;` tokens are skipped between statements.
proof fn lemma_program_skips(t: Seq<Token>, x: int, k: int)
    requires
        0 <= x,
        0 <= k,
        x + k <= t.len(),
        forall|i: int| x <= i < x + k ==> #[trigger] t[i] == Token::Semicolon,
    ensures
        program_from(t, x) == program_from(t, x + k),
    decreases k,
{
    if k > 0 {
        assert(t[x] == Token::Semicolon);
        lemma_program_skips(t, x + 1, k - 1);
    }
}

/// A program at the end of a longer token sequence reads as it does alone.
proof fn lemma_program_suffix(tb: Seq<Token>, t: Seq<Token>, d: int, x: int)
    requires
        agree(tb, t, 0, d),
        tb.len() + d == t.len(),
        0 <= x <= tb.len(),
        program_from(tb, x) is Some,
    ensures
        program_from(t, x + d) == program_from(tb, x),
    decreases tb.len() - x,
{
    lemma_tok_agree(tb, t, 0, d, x);
    match tok(tb, x) {
        None => {},
        Some(Token::Semicolon) => {
            lemma_program_suffix(tb, t, d, x + 1);
        },
        Some(_) => {
            lemma_stmt_shift(tb, t, 0, d, x);
            let (s, q) = stmt(tb, x).unwrap();
            lemma_program_suffix(tb, t, d, q);
        },
    }
}

/// `k` semicolons.
pub open spec fn semicolons(k: nat) -> Seq<Token> {
    Seq::new(k, |i: int| Token::Semicolon)
}

/// Programs joined by semicolons parse to the joined statements: where `ta`
/// and `tb` each parse as a program, `ta`, one or more `;` and `tb` parse as
/// the statements of `ta` followed by those of `tb`.
pub proof fn lemma_program_concat(ta: Seq<Token>, tb: Seq<Token>, k: nat)
    requires
        k >= 1,
        program_from(ta, 0) is Some,
        program_from(tb, 0) is Some,
    ensures
        program_from(ta + semicolons(k) + tb, 0) == Some(
            program_from(ta, 0).unwrap() + program_from(tb, 0).unwrap(),
        ),
{
    let sc = semicolons(k);
    let t = ta + sc + tb;
    let n = ta.len() as int;
    assert forall|x: int| 0 <= x < ta.len() implies #[trigger] ta[x] == t[x + 0] by {
        assert(t[x] == ta[x]);
    }
    assert(t[n] == sc[0]);
    assert(agree(ta, t, 0, 0));
    lemma_program_prefix(ta, t, 0);
    assert forall|i: int| n <= i < n + k implies #[trigger] t[i] == Token::Semicolon by {
        assert(t[i] == sc[i - n]);
    }
    lemma_program_skips(t, n, k as int);
    let d = n + k;
    assert forall|x: int| 0 <= x < tb.len() implies #[trigger] tb[x] == t[x + d] by {
        assert(t[x + d] == tb[x]);
    }
    assert(agree(tb, t, 0, d));
    lemma_program_suffix(tb, t, d, 0);
}

/// Once the input is used up, lexing gives no tokens and adds no names: a
/// lexer that has tokenized its input gives nothing more.
pub proof fn lemma_lex_at_end(cs: Seq<char>, p: int, next_id: nat)
    requires
        p >= cs.len(),
    ensures
        lex_from(cs, p, next_id) == Some((Seq::<Token>::empty(), Seq::<Seq<char>>::empty())),
{
}

} // verus!
