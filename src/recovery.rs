//! Error recovery: errors only accumulate, and a malformed statement is
//! reported and skipped without stopping the parse.
use vstd::prelude::*;
use crate::ast::InfixExpression;
use crate::parser::{
    infix_loop, infix_op, parse_expr, parse_expr_stmt, parse_let, parse_prog, parse_return,
    parse_stmt, prec_of, step, tk, tokens_wf, LOWEST,
};
use crate::token::{Token, TokenType};

verus! {

proof fn lemma_expr_errors_grow(ts: Seq<Token>, pos: int, prec: u8, errs: Seq<Seq<char>>)
    ensures
        errs.len() <= parse_expr(ts, pos, prec, errs).2.len(),
        0 <= pos < ts.len() ==> pos <= parse_expr(ts, pos, prec, errs).1 < ts.len(),
    decreases ts.len() - pos, 1int,
{
    if 0 <= pos < ts.len() {
        let t = ts[pos];
        if crate::parser::prefix_op(t.ttype) {
            if pos + 1 < ts.len() {
                lemma_expr_errors_grow(ts, pos + 1, crate::parser::PREFIX, errs);
                let r = parse_expr(ts, pos + 1, crate::parser::PREFIX, errs);
                let left = crate::ast::Expression::Prefix(
                    crate::ast::PrefixExpression { token: t, operator: t.literal, value: r.0 },
                );
                if pos <= r.1 < ts.len() {
                    lemma_loop_errors_grow(ts, r.1, prec, left, r.2);
                }
            }
        } else if t.ttype == TokenType::LIT_INT {
            if crate::parser::int_fits(t.literal@) {
                let left = crate::ast::Expression::Integer(
                    crate::ast::IntegerLiteral {
                        token: t,
                        value: #[verifier::truncate] (crate::parser::decimal_value(t.literal@) as i32),
                    },
                );
                lemma_loop_errors_grow(ts, pos, prec, left, errs);
            }
        } else if crate::parser::atom_type(t.ttype) {
            lemma_loop_errors_grow(ts, pos, prec, crate::parser::atom_expr(t), errs);
        }
    }
}

proof fn lemma_loop_errors_grow(
    ts: Seq<Token>,
    pos: int,
    prec: u8,
    left: crate::ast::Expression,
    errs: Seq<Seq<char>>,
)
    ensures
        errs.len() <= infix_loop(ts, pos, prec, left, errs).2.len(),
        0 <= pos < ts.len() ==> pos <= infix_loop(ts, pos, prec, left, errs).1 < ts.len(),
    decreases ts.len() - pos, 0int,
{
    let p = tk(ts, pos + 1);
    if 0 <= pos && pos + 2 < ts.len() && p.ttype != TokenType::DEL_END && prec < prec_of(p.ttype)
        && infix_op(p.ttype) {
        lemma_expr_errors_grow(ts, pos + 2, prec_of(p.ttype), errs);
        let r = parse_expr(ts, pos + 2, prec_of(p.ttype), errs);
        let e = crate::ast::Expression::Infix(
            InfixExpression { token: p, left: Some(Box::new(left)), operator: p.literal, right: r.0 },
        );
        if pos < r.1 < ts.len() {
            lemma_loop_errors_grow(ts, r.1, prec, e, r.2);
        }
    }
}

proof fn lemma_stmt_errors_grow(ts: Seq<Token>, pos: int, errs: Seq<Seq<char>>)
    requires
        0 <= pos < ts.len(),
    ensures
        errs.len() <= parse_stmt(ts, pos, errs).2.len(),
        pos <= parse_stmt(ts, pos, errs).1 < ts.len(),
{
    let t = tk(ts, pos).ttype;
    if t == TokenType::RW_LET {
        let has_mut = tk(ts, pos + 1).ttype == TokenType::RW_MUT;
        let p1 = if has_mut {
            step(ts, pos)
        } else {
            pos
        };
        let p2 = step(ts, p1);
        let p3 = step(ts, p2);
        let p4 = step(ts, p3);
        lemma_expr_errors_grow(ts, step(ts, step(ts, p2)), LOWEST, errs);
        lemma_expr_errors_grow(ts, step(ts, step(ts, p4)), LOWEST, errs);
        assert(parse_stmt(ts, pos, errs) == parse_let(ts, pos, errs));
    } else if t == TokenType::RW_RETURN {
        lemma_expr_errors_grow(ts, step(ts, pos), LOWEST, errs);
        assert(parse_stmt(ts, pos, errs) == parse_return(ts, pos, errs));
    } else {
        lemma_expr_errors_grow(ts, pos, LOWEST, errs);
        assert(parse_stmt(ts, pos, errs) == parse_expr_stmt(ts, pos, errs));
    }
}

/// Parsing never takes an error back: the error list after a parse is at
/// least as long as before it.
pub proof fn lemma_errors_accumulate(ts: Seq<Token>, pos: int, errs: Seq<Seq<char>>)
    ensures
        errs.len() <= parse_prog(ts, pos, errs).1.len(),
    decreases ts.len() - pos,
{
    if !(0 <= pos < ts.len()) || ts[pos].ttype == TokenType::META_EOF {
    } else if ts[pos].ttype == TokenType::DEL_END {
        if pos + 1 < ts.len() {
            lemma_errors_accumulate(ts, pos + 1, errs);
        }
    } else {
        lemma_stmt_errors_grow(ts, pos, errs);
        let r = parse_stmt(ts, pos, errs);
        let next = step(ts, r.1);
        if pos < next < ts.len() {
            lemma_errors_accumulate(ts, next, r.2);
        }
    }
}

/// A malformed statement does not stop the parse: when the statement at
/// `pos` is abandoned, an error is recorded for it, and the statements that
/// follow are exactly those that parsing from just after it gives, so the
/// final error list is not empty and the statements after the malformed one
/// are all kept.
pub proof fn lemma_malformed_statement_skipped(ts: Seq<Token>, pos: int, errs: Seq<Seq<char>>)
    requires
        tokens_wf(ts),
        0 <= pos < ts.len(),
        ts[pos].ttype != TokenType::META_EOF,
        ts[pos].ttype != TokenType::DEL_END,
        parse_stmt(ts, pos, errs).0 is None,
    ensures
        ({
            let r = parse_stmt(ts, pos, errs);
            let next = step(ts, r.1);
            &&& r.2.len() == errs.len() + 1
            &&& pos < next < ts.len()
            &&& parse_prog(ts, pos, errs) == parse_prog(ts, next, r.2)
            &&& parse_prog(ts, pos, errs).1.len() > errs.len()
        }),
{
    lemma_stmt_errors_grow(ts, pos, errs);
    let r = parse_stmt(ts, pos, errs);
    let next = step(ts, r.1);
    assert(ts[ts.len() - 1].ttype == TokenType::META_EOF);
    assert(pos < ts.len() - 1);
    lemma_errors_accumulate(ts, next, r.2);
}

} // verus!
