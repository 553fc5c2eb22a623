//! Printing and parsing again: the canonical text of a program whose
//! statements are simple expressions (a literal, or one operator applied to
//! literals) parses back to text that prints the same.
use vstd::prelude::*;
use crate::ast::{expr_text, expr_token, stmt_text, stmts_text, Expression, Statement};
use crate::lexer::{
    lemma_digit_run, lemma_digits_end_of, lemma_word_end_of, lemma_word_run,
    blank_char, ch_at, cursor, digit_char, digits_end, letter_char, mark_char, resume_at,
    single_type, skip_blanks, token_at, token_end, token_start, token_text, token_type, word_char,
    word_end,
};
use crate::parser::{
    atom_expr, atom_type, decimal_value, infix_loop, infix_op, int_fits, parse_expr,
    parse_expr_stmt, parse_prog, parse_stmt, prefix_op, tokens_wf,
};
use crate::token::{Token, TokenType};

verus! {

/// `w` starts with a character that opens a literal token.
pub open spec fn opens_literal(w: Seq<char>) -> bool {
    w.len() > 0 && (letter_char(w[0]) || digit_char(w[0]) || w[0] == ':')
}

/// A character that no word or number continues into: a space, `;` or `)`.
pub open spec fn stop_char(c: char) -> bool {
    c == ' ' || c == ';' || c == ')'
}

/// Wherever `w` stands followed by a space, `;` or `)`, the scanner reads
/// exactly `w` there, as a token of category `t`.
pub open spec fn rescans_before(w: Seq<char>, t: TokenType) -> bool {
    forall|s: Seq<char>, j: int|
        0 <= j && j + w.len() < s.len() && s.subrange(j, j + w.len()) == w && stop_char(
            s[j + w.len()],
        ) ==> #[trigger] token_type(s, j) == t && token_end(s, j) == j + w.len()
}

/// A character that may follow an operator in printed text: a space, or the
/// first character of a literal.
pub open spec fn op_follower(c: char) -> bool {
    c == ' ' || letter_char(c) || digit_char(c) || c == ':'
}

/// Wherever `w` stands followed by a space or the start of a literal, the
/// scanner reads exactly `w` there, as a token of category `t`.
pub open spec fn rescans_op(w: Seq<char>, t: TokenType) -> bool {
    forall|s: Seq<char>, j: int|
        0 <= j && j + w.len() < s.len() && s.subrange(j, j + w.len()) == w && op_follower(
            s[j + w.len()],
        ) ==> #[trigger] token_type(s, j) == t && token_end(s, j) == j + w.len()
}

/// Wherever `w` stands followed by a space, the scanner reads exactly `w`.
pub open spec fn rescans_before_space(w: Seq<char>, t: TokenType) -> bool {
    forall|s: Seq<char>, j: int|
        0 <= j && j + w.len() < s.len() && s.subrange(j, j + w.len()) == w && s[j + w.len()]
            == ' ' ==> #[trigger] token_type(s, j) == t && token_end(s, j) == j + w.len()
}

/// Operators written with symbols.
pub open spec fn symbol_op(t: TokenType) -> bool {
    match t {
        TokenType::OP_ADD | TokenType::OP_SUB | TokenType::OP_MUL | TokenType::OP_DIV
        | TokenType::OP_MOD | TokenType::OP_POW | TokenType::OP_EQ | TokenType::OP_NEQ
        | TokenType::OP_GT | TokenType::OP_GTE | TokenType::OP_LT | TokenType::OP_LTE
        | TokenType::OP_NOT => true,
        _ => false,
    }
}

/// A word, number or symbol read from any text is read back whole wherever
/// its text is followed by a space, `;` or `)`.
proof fn lemma_word_rescans(src: Seq<char>, i: int)
    requires
        0 <= i < src.len(),
        letter_char(src[i]) || digit_char(src[i]) || (src[i] == ':' && letter_char(
            ch_at(src, i + 1),
        )),
    ensures
        i < token_end(src, i) <= src.len(),
        token_text(src, i) == src.subrange(i, token_end(src, i)),
        opens_literal(src.subrange(i, token_end(src, i))),
        rescans_before(src.subrange(i, token_end(src, i)), token_type(src, i)),
{
    let c = src[i];
    let e0 = token_end(src, i);
    let w = src.subrange(i, e0);
    let t = token_type(src, i);
    if letter_char(c) {
        lemma_word_run(src, i + 1);
        let e = word_end(src, i + 1);
        assert(e <= src.len());
        assert forall|s: Seq<char>, j: int|
            0 <= j && j + w.len() < s.len() && s.subrange(j, j + w.len()) == w && stop_char(
                s[j + w.len()],
            ) implies #[trigger] token_type(s, j) == t && token_end(s, j) == j + w.len() by {
            assert forall|x: int| 0 <= x < w.len() implies s[j + x] == #[trigger] w[x] by {
                assert(s.subrange(j, j + w.len())[x] == w[x]);
            }
            assert(s[j + 0] == w[0]);
            assert forall|x: int| j + 1 <= x < j + (e - i) implies word_char(#[trigger] s[x]) by {
                assert(s[j + (x - j)] == w[x - j]);
            }
            if mark_char(ch_at(src, e)) {
                assert(s[j + (e - i)] == w[e - i]);
            }
            lemma_word_end_of(s, j + 1, j + (e - i));
            assert(s.subrange(j, token_end(s, j)) == w);
        }
    } else if digit_char(c) {
        lemma_digit_run(src, i + 1);
        let d = digits_end(src, i + 1);
        assert(d <= src.len());
        if ch_at(src, d) == '.' {
            lemma_digit_run(src, d + 1);
        }
        assert forall|s: Seq<char>, j: int|
            0 <= j && j + w.len() < s.len() && s.subrange(j, j + w.len()) == w && stop_char(
                s[j + w.len()],
            ) implies #[trigger] token_type(s, j) == t && token_end(s, j) == j + w.len() by {
            assert forall|x: int| 0 <= x < w.len() implies s[j + x] == #[trigger] w[x] by {
                assert(s.subrange(j, j + w.len())[x] == w[x]);
            }
            assert(s[j + 0] == w[0]);
            assert forall|x: int| j + 1 <= x < j + (d - i) implies digit_char(#[trigger] s[x]) by {
                assert(s[j + (x - j)] == w[x - j]);
            }
            if ch_at(src, d) == '.' {
                assert(s[j + (d - i)] == w[d - i]);
                let d2 = digits_end(src, d + 1);
                assert forall|x: int| j + (d - i) + 1 <= x < j + (d2 - i) implies digit_char(
                    #[trigger] s[x],
                ) by {
                    assert(s[j + (x - j)] == w[x - j]);
                }
                lemma_digits_end_of(s, j + (d - i) + 1, j + (d2 - i));
            }
            lemma_digits_end_of(s, j + 1, j + (d - i));
        }
    } else {
        lemma_word_run(src, i + 1);
        let e = word_end(src, i + 1);
        assert forall|s: Seq<char>, j: int|
            0 <= j && j + w.len() < s.len() && s.subrange(j, j + w.len()) == w && stop_char(
                s[j + w.len()],
            ) implies #[trigger] token_type(s, j) == t && token_end(s, j) == j + w.len() by {
            assert forall|x: int| 0 <= x < w.len() implies s[j + x] == #[trigger] w[x] by {
                assert(s.subrange(j, j + w.len())[x] == w[x]);
            }
            assert(s[j + 0] == w[0]);
            assert(s[j + 1] == w[1]);
            assert forall|x: int| j + 1 <= x < j + (e - i) implies word_char(#[trigger] s[x]) by {
                assert(s[j + (x - j)] == w[x - j]);
            }
            lemma_word_end_of(s, j + 1, j + (e - i));
        }
    }
}

/// An operator read from any text is read back whole wherever its text is
/// followed by a space or the start of a literal.
proof fn lemma_op_rescans(src: Seq<char>, i: int)
    requires
        0 <= i < src.len(),
        symbol_op(token_type(src, i)),
    ensures
        i < token_end(src, i) <= src.len(),
        token_text(src, i) == src.subrange(i, token_end(src, i)),
        !blank_char(src[i]) && src[i] != '\0',
        rescans_op(src.subrange(i, token_end(src, i)), token_type(src, i)),
{
    let c = src[i];
    let e0 = token_end(src, i);
    let w = src.subrange(i, e0);
    let t = token_type(src, i);
    lemma_word_run(src, i + 1);
    lemma_digit_run(src, i + 1);
    assert forall|s: Seq<char>, j: int|
        0 <= j && j + w.len() < s.len() && s.subrange(j, j + w.len()) == w && op_follower(
            s[j + w.len()],
        ) implies #[trigger] token_type(s, j) == t && token_end(s, j) == j + w.len() by {
        assert forall|x: int| 0 <= x < w.len() implies s[j + x] == #[trigger] w[x] by {
            assert(s.subrange(j, j + w.len())[x] == w[x]);
        }
        assert(s[j + 0] == w[0]);
        if w.len() == 2 {
            assert(s[j + 1] == w[1]);
        }
    }
}

/// An expression made of one literal token (no operator).
pub open spec fn literal_node(e: Expression) -> bool {
    match e {
        Expression::Prefix(_) | Expression::Infix(_) => false,
        _ => true,
    }
}

/// The unary operators written with a symbol.
pub open spec fn symbol_prefix(t: TokenType) -> bool {
    t == TokenType::OP_NOT || t == TokenType::OP_SUB || t == TokenType::OP_ADD
}

/// A literal, a symbol operator (`!`, `-`, `+`) applied to a literal, or a
/// binary operator between two literals.
pub open spec fn simple_expr(e: Expression) -> bool {
    match e {
        Expression::Prefix(p) => symbol_prefix(p.token.ttype) && match p.value {
            Some(v) => literal_node(*v),
            None => false,
        },
        Expression::Infix(x) => match x.left {
            Some(a) => literal_node(*a) && match x.right {
                Some(b) => literal_node(*b),
                None => false,
            },
            None => false,
        },
        _ => true,
    }
}

/// An expression statement whose value is a simple expression.
pub open spec fn simple_stmt(st: Statement) -> bool {
    match st {
        Statement::Expression(x) => match x.value {
            Some(v) => simple_expr(*v),
            None => false,
        },
        _ => false,
    }
}

/// A token whose text opens a literal and reads back before a stop.
pub open spec fn word_token(t: Token) -> bool {
    opens_literal(t.literal@) && rescans_before(t.literal@, t.ttype)
}

/// A literal node that prints as its token's text, which reads back.
pub open spec fn literal_ok(e: Expression) -> bool {
    let t = expr_token(e);
    &&& literal_node(e)
    &&& atom_type(t.ttype)
    &&& word_token(t)
    &&& expr_text(e) == t.literal@
    &&& (t.ttype == TokenType::LIT_INT ==> int_fits(t.literal@))
}

/// An operator token whose text does not start with a blank or the end
/// mark.
pub open spec fn solid(t: Token) -> bool {
    t.literal@.len() > 0 && !blank_char(t.literal@[0]) && t.literal@[0] != '\0'
}

/// A simple expression whose pieces all read back from its printed text.
pub open spec fn printable_expr(e: Expression) -> bool {
    match e {
        Expression::Prefix(p) => {
            &&& symbol_prefix(p.token.ttype)
            &&& solid(p.token)
            &&& rescans_op(p.token.literal@, p.token.ttype)
            &&& p.operator == p.token.literal
            &&& p.value is Some
            &&& literal_ok(*p.value->Some_0)
        },
        Expression::Infix(x) => {
            &&& infix_op(x.token.ttype)
            &&& solid(x.token)
            &&& rescans_before_space(x.token.literal@, x.token.ttype)
            &&& x.operator == x.token.literal
            &&& x.left is Some
            &&& literal_ok(*x.left->Some_0)
            &&& x.right is Some
            &&& literal_ok(*x.right->Some_0)
        },
        _ => literal_ok(e),
    }
}

pub open spec fn printable_stmt(st: Statement) -> bool {
    match st {
        Statement::Expression(x) => match x.value {
            Some(v) => printable_expr(*v),
            None => false,
        },
        _ => false,
    }
}

/// What every token of a sequence read from source text satisfies.
pub open spec fn readable_token(t: Token) -> bool {
    &&& (atom_type(t.ttype) || t.ttype == TokenType::RW_AND || t.ttype == TokenType::RW_OR)
        ==> word_token(t)
    &&& symbol_op(t.ttype) ==> solid(t) && rescans_op(t.literal@, t.ttype)
}

proof fn lemma_infix_loop_shape(
    ts: Seq<Token>,
    pos: int,
    prec: u8,
    left: Expression,
    errs: Seq<Seq<char>>,
)
    ensures
        ({
            let r = infix_loop(ts, pos, prec, left, errs).0;
            let p = crate::parser::tk(ts, pos + 1);
            let right = parse_expr(ts, pos + 2, crate::parser::prec_of(p.ttype), errs);
            ||| r == Some(Box::new(left))
            ||| (r == Some(
                Box::new(
                    Expression::Infix(
                        crate::ast::InfixExpression {
                            token: p,
                            left: Some(Box::new(left)),
                            operator: p.literal,
                            right: right.0,
                        },
                    ),
                ),
            ) && 0 <= pos && pos + 2 < ts.len() && infix_op(p.ttype))
            ||| (r is Some && (*r->Some_0) is Infix && match (*r->Some_0)->Infix_0.left {
                Some(l) => (*l) is Infix,
                None => false,
            })
        }),
    decreases ts.len() - pos,
{
    let p = crate::parser::tk(ts, pos + 1);
    if 0 <= pos && pos + 2 < ts.len() && p.ttype != TokenType::DEL_END && prec
        < crate::parser::prec_of(p.ttype) && infix_op(p.ttype) {
        let r = parse_expr(ts, pos + 2, crate::parser::prec_of(p.ttype), errs);
        let e = Expression::Infix(
            crate::ast::InfixExpression {
                token: p,
                left: Some(Box::new(left)),
                operator: p.literal,
                right: r.0,
            },
        );
        if pos < r.1 < ts.len() {
            lemma_infix_loop_shape(ts, r.1, prec, e, r.2);
        }
    }
}

/// When an expression parses to a single literal, that literal is the
/// token it started at.
proof fn lemma_literal_expr(ts: Seq<Token>, pos: int, prec: u8, errs: Seq<Seq<char>>)
    requires
        parse_expr(ts, pos, prec, errs).0 is Some,
        literal_node(*parse_expr(ts, pos, prec, errs).0->Some_0),
    ensures
        0 <= pos < ts.len(),
        atom_type(ts[pos].ttype),
        expr_token(*parse_expr(ts, pos, prec, errs).0->Some_0) == ts[pos],
        expr_text(*parse_expr(ts, pos, prec, errs).0->Some_0) == ts[pos].literal@,
        ts[pos].ttype == TokenType::LIT_INT ==> int_fits(ts[pos].literal@),
{
    let t = ts[pos];
    if prefix_op(t.ttype) {
        let r = parse_expr(ts, pos + 1, crate::parser::PREFIX, errs);
        let left = Expression::Prefix(
            crate::ast::PrefixExpression { token: t, operator: t.literal, value: r.0 },
        );
        if pos <= r.1 < ts.len() {
            lemma_infix_loop_shape(ts, r.1, prec, left, r.2);
        }
    } else if t.ttype == TokenType::LIT_INT {
        let left = Expression::Integer(
            crate::ast::IntegerLiteral {
                token: t,
                value: #[verifier::truncate] (decimal_value(t.literal@) as i32),
            },
        );
        lemma_infix_loop_shape(ts, pos, prec, left, errs);
    } else if atom_type(t.ttype) {
        lemma_infix_loop_shape(ts, pos, prec, atom_expr(t), errs);
    }
}

proof fn lemma_literal_ok(ts: Seq<Token>, pos: int, prec: u8, errs: Seq<Seq<char>>)
    requires
        forall|k: int| 0 <= k < ts.len() ==> readable_token(#[trigger] ts[k]),
        parse_expr(ts, pos, prec, errs).0 is Some,
        literal_node(*parse_expr(ts, pos, prec, errs).0->Some_0),
    ensures
        literal_ok(*parse_expr(ts, pos, prec, errs).0->Some_0),
        expr_token(*parse_expr(ts, pos, prec, errs).0->Some_0) == ts[pos],
{
    lemma_literal_expr(ts, pos, prec, errs);
    assert(readable_token(ts[pos]));
}

proof fn lemma_infix_token(t: Token)
    requires
        readable_token(t),
        infix_op(t.ttype),
    ensures
        solid(t),
        rescans_before_space(t.literal@, t.ttype),
{
    let w = t.literal@;
    if symbol_op(t.ttype) {
        assert forall|s: Seq<char>, j: int|
            0 <= j && j + w.len() < s.len() && s.subrange(j, j + w.len()) == w && s[j + w.len()]
                == ' ' implies #[trigger] token_type(s, j) == t.ttype && token_end(s, j) == j
                + w.len() by {
            assert(op_follower(s[j + w.len()]));
        }
    } else {
        assert(word_token(t));
        assert forall|s: Seq<char>, j: int|
            0 <= j && j + w.len() < s.len() && s.subrange(j, j + w.len()) == w && s[j + w.len()]
                == ' ' implies #[trigger] token_type(s, j) == t.ttype && token_end(s, j) == j
                + w.len() by {
            assert(stop_char(s[j + w.len()]));
        }
    }
}

/// A simple expression that a parse yields has pieces that all read back.
proof fn lemma_simple_expr(ts: Seq<Token>, pos: int, errs: Seq<Seq<char>>)
    requires
        forall|k: int| 0 <= k < ts.len() ==> readable_token(#[trigger] ts[k]),
        parse_expr(ts, pos, crate::parser::LOWEST, errs).0 is Some,
        simple_expr(*parse_expr(ts, pos, crate::parser::LOWEST, errs).0->Some_0),
    ensures
        printable_expr(*parse_expr(ts, pos, crate::parser::LOWEST, errs).0->Some_0),
{
    let low = crate::parser::LOWEST;
    let v = *parse_expr(ts, pos, low, errs).0->Some_0;
    if literal_node(v) {
        lemma_literal_ok(ts, pos, low, errs);
    } else {
        let t = ts[pos];
        if prefix_op(t.ttype) {
            let r = parse_expr(ts, pos + 1, crate::parser::PREFIX, errs);
            let left = Expression::Prefix(
                crate::ast::PrefixExpression { token: t, operator: t.literal, value: r.0 },
            );
            if pos <= r.1 < ts.len() {
                lemma_infix_loop_shape(ts, r.1, low, left, r.2);
            }
            assert(v == left);
            assert(readable_token(t));
            lemma_literal_ok(ts, pos + 1, crate::parser::PREFIX, errs);
        } else {
            let left = if t.ttype == TokenType::LIT_INT {
                Expression::Integer(
                    crate::ast::IntegerLiteral {
                        token: t,
                        value: #[verifier::truncate] (decimal_value(t.literal@) as i32),
                    },
                )
            } else {
                atom_expr(t)
            };
            lemma_infix_loop_shape(ts, pos, low, left, errs);
            let p = crate::parser::tk(ts, pos + 1);
            assert(p == ts[pos + 1]);
            assert(readable_token(p));
            lemma_infix_token(p);
            lemma_literal_ok(ts, pos + 2, crate::parser::prec_of(p.ttype), errs);
            assert(readable_token(t));
            assert(literal_ok(left));
        }
    }
}

/// Every simple statement that a parse yields has pieces that all read
/// back, provided every token of the sequence does.
proof fn lemma_simple_stmts(ts: Seq<Token>, pos: int, errs: Seq<Seq<char>>)
    requires
        forall|k: int| 0 <= k < ts.len() ==> readable_token(#[trigger] ts[k]),
    ensures
        forall|m: int|
            0 <= m < parse_prog(ts, pos, errs).0.len() && simple_stmt(
                #[trigger] parse_prog(ts, pos, errs).0[m],
            ) ==> printable_stmt(parse_prog(ts, pos, errs).0[m]),
    decreases ts.len() - pos,
{
    if !(0 <= pos < ts.len()) || ts[pos].ttype == TokenType::META_EOF {
        assert(parse_prog(ts, pos, errs).0.len() == 0);
    } else if ts[pos].ttype == TokenType::DEL_END {
        if pos + 1 < ts.len() {
            lemma_simple_stmts(ts, pos + 1, errs);
            assert(parse_prog(ts, pos, errs) == parse_prog(ts, pos + 1, errs));
        } else {
            assert(parse_prog(ts, pos, errs).0.len() == 0);
        }
    } else {
        let r = parse_stmt(ts, pos, errs);
        let next = crate::parser::step(ts, r.1);
        let here = match r.0 {
            Some(st) => seq![st],
            None => Seq::empty(),
        };
        if here.len() == 1 && simple_stmt(here[0]) {
            let t = ts[pos].ttype;
            assert(t != TokenType::RW_LET && t != TokenType::RW_RETURN);
            assert(r == parse_expr_stmt(ts, pos, errs));
            lemma_simple_expr(ts, pos, errs);
            assert(printable_stmt(here[0]));
        }
        assert(forall|m: int|
            0 <= m < here.len() && simple_stmt(#[trigger] here[m]) ==> printable_stmt(here[m]));
        if pos < next < ts.len() {
            lemma_simple_stmts(ts, next, r.2);
            let rest = parse_prog(ts, next, r.2);
            assert(parse_prog(ts, pos, errs).0 == here + rest.0);
            assert forall|m: int|
                0 <= m < (here + rest.0).len() && simple_stmt(#[trigger] (here + rest.0)[m])
                    implies printable_stmt((here + rest.0)[m]) by {
                if m >= here.len() {
                    assert((here + rest.0)[m] == rest.0[m - here.len()]);
                } else {
                    assert((here + rest.0)[m] == here[m]);
                }
            }
        } else {
            assert(parse_prog(ts, pos, errs).0 == here);
        }
    }
}

proof fn lemma_no_skip(t: Seq<char>, c: int)
    requires
        0 <= c,
        !blank_char(ch_at(t, c)),
    ensures
        skip_blanks(t, c) == c,
{
}

proof fn lemma_skip_space(t: Seq<char>, c: int)
    requires
        0 <= c < t.len(),
        t[c] == ' ',
        !blank_char(ch_at(t, c + 1)),
    ensures
        skip_blanks(t, c) == c + 1,
{
    assert(skip_blanks(t, c) == skip_blanks(t, c + 1));
}

/// The `k`-th call of the scanner, when it starts at `c` and skips to `i`,
/// reads the token at `i` and stops where that token ends.
proof fn lemma_scan_step(t: Seq<char>, k: nat, c: int, i: int)
    requires
        cursor(t, k) == c,
        skip_blanks(t, c) == i,
        0 <= i < t.len(),
        t[i] != '\0',
    ensures
        token_start(t, k) == i,
        cursor(t, k + 1) == token_end(t, i),
{
    assert(cursor(t, k + 1) == resume_at(t, token_start(t, k)));
}

/// A word or literal at `i`, followed by a stop, is read whole.
proof fn lemma_scan_word(t: Seq<char>, k: nat, c: int, i: int, w: Seq<char>, ty: TokenType)
    requires
        cursor(t, k) == c,
        skip_blanks(t, c) == i,
        0 <= i,
        i + w.len() < t.len(),
        t.subrange(i, i + w.len()) == w,
        stop_char(t[i + w.len()]),
        opens_literal(w),
        rescans_before(w, ty),
    ensures
        token_start(t, k) == i,
        token_type(t, i) == ty,
        token_text(t, i) == w,
        cursor(t, k + 1) == i + w.len(),
{
    assert(t[i + 0] == t.subrange(i, i + w.len())[0]);
    assert(token_type(t, i) == ty && token_end(t, i) == i + w.len());
    lemma_scan_step(t, k, c, i);
}

/// An operator at `i`, followed by a space or a literal, is read whole.
proof fn lemma_scan_op(t: Seq<char>, k: nat, c: int, i: int, w: Seq<char>, ty: TokenType)
    requires
        cursor(t, k) == c,
        skip_blanks(t, c) == i,
        0 <= i,
        i + w.len() < t.len(),
        t.subrange(i, i + w.len()) == w,
        w.len() > 0,
        w[0] != '\0',
        rescans_op(w, ty) && op_follower(t[i + w.len()]) || rescans_before_space(w, ty) && t[i
            + w.len()] == ' ',
    ensures
        token_start(t, k) == i,
        token_type(t, i) == ty,
        token_text(t, i) == w,
        cursor(t, k + 1) == i + w.len(),
{
    assert(t[i + 0] == t.subrange(i, i + w.len())[0]);
    assert(token_type(t, i) == ty && token_end(t, i) == i + w.len());
    lemma_scan_step(t, k, c, i);
}

/// A `(`, `)` or `;` at `i` is a token of its own.
proof fn lemma_scan_mark(t: Seq<char>, k: nat, c: int, i: int)
    requires
        cursor(t, k) == c,
        skip_blanks(t, c) == i,
        0 <= i < t.len(),
        t[i] == '(' || t[i] == ')' || t[i] == ';',
    ensures
        token_start(t, k) == i,
        token_type(t, i) == single_type(t[i]),
        token_text(t, i) == seq![t[i]],
        cursor(t, k + 1) == i + 1,
{
    assert(t.subrange(i, i + 1) =~= seq![t[i]]);
    lemma_scan_step(t, k, c, i);
}


proof fn lemma_stmts_text_concat(a: Seq<Statement>, b: Seq<Statement>)
    ensures
        stmts_text(a + b) == stmts_text(a) + stmts_text(b),
    decreases b.len(),
{
    if b.len() == 0 {
        assert(a + b =~= a);
        assert(stmts_text(b) =~= Seq::<char>::empty());
        assert(stmts_text(a) + stmts_text(b) =~= stmts_text(a));
    } else {
        lemma_stmts_text_concat(a, b.drop_last());
        assert((a + b).drop_last() =~= a + b.drop_last());
        assert((a + b).last() == b.last());
        assert(stmts_text(a + b) =~= stmts_text(a) + stmts_text(b));
    }
}

/// Statements that are simple and whose pieces read back.
pub open spec fn all_printable(s: Seq<Statement>) -> bool {
    forall|i: int| 0 <= i < s.len() ==> simple_stmt(#[trigger] s[i]) && printable_stmt(s[i])
}

/// The printed text of the first `m` statements.
pub open spec fn printed_prefix(s: Seq<Statement>, m: int) -> Seq<char> {
    stmts_text(s.subrange(0, m))
}

proof fn lemma_printed_layout(s: Seq<Statement>, m: int)
    requires
        0 <= m < s.len(),
    ensures
        ({
            let t = stmts_text(s);
            let q = printed_prefix(s, m).len() as int;
            let st = stmt_text(s[m]);
            &&& printed_prefix(s, m + 1) == printed_prefix(s, m) + st
            &&& q + st.len() <= t.len()
            &&& t.subrange(q, q + st.len()) == st
        }),
{
    let t = stmts_text(s);
    let st = stmt_text(s[m]);
    assert(s.subrange(0, m + 1).drop_last() =~= s.subrange(0, m));
    assert(s.subrange(0, m + 1).last() == s[m]);
    let p1 = printed_prefix(s, m + 1);
    assert(p1 == printed_prefix(s, m) + st);
    lemma_stmts_text_concat(s.subrange(0, m + 1), s.subrange(m + 1, s.len() as int));
    assert(s.subrange(0, m + 1) + s.subrange(m + 1, s.len() as int) =~= s);
    let q = printed_prefix(s, m).len() as int;
    assert(t.subrange(q, q + st.len()) =~= st);
}

/// A piece of a statement's text, found at its offset in the whole text.
proof fn lemma_piece(t: Seq<char>, q: int, st: Seq<char>, off: int, piece: Seq<char>)
    requires
        0 <= q,
        q + st.len() <= t.len(),
        t.subrange(q, q + st.len()) == st,
        0 <= off,
        off + piece.len() <= st.len(),
        st.subrange(off, off + piece.len()) == piece,
    ensures
        t.subrange(q + off, q + off + piece.len()) == piece,
{
    assert forall|x: int| 0 <= x < piece.len() implies t.subrange(
        q + off,
        q + off + piece.len(),
    )[x] == piece[x] by {
        assert(t.subrange(q, q + st.len())[off + x] == st[off + x]);
        assert(st.subrange(off, off + piece.len())[x] == st[off + x]);
    }
    assert(t.subrange(q + off, q + off + piece.len()) =~= piece);
}

proof fn lemma_char_at(t: Seq<char>, q: int, st: Seq<char>, off: int)
    requires
        0 <= q,
        q + st.len() <= t.len(),
        t.subrange(q, q + st.len()) == st,
        0 <= off < st.len(),
    ensures
        t[q + off] == st[off],
{
    assert(t.subrange(q, q + st.len())[off] == st[off]);
}


/// The value of an expression statement.
pub open spec fn value_of(st: Statement) -> Expression {
    match st {
        Statement::Expression(x) => match x.value {
            Some(v) => *v,
            None => Expression::Blank(crate::ast::Blank { token: x.token }),
        },
        _ => Expression::Blank(crate::ast::Blank { token: crate::ast::stmt_token(st) }),
    }
}

/// How many tokens the printed text of a simple statement has.
pub open spec fn tok_count(st: Statement) -> int {
    match value_of(st) {
        Expression::Prefix(_) => 5,
        Expression::Infix(_) => 6,
        _ => 2,
    }
}

/// How many tokens the printed text of the first `m` statements has.
pub open spec fn count_before(s: Seq<Statement>, m: int) -> int
    decreases m,
{
    if m <= 0 {
        0
    } else {
        count_before(s, m - 1) + tok_count(s[m - 1])
    }
}

/// The categories and texts of the tokens of a printed simple statement.
pub open spec fn expected(st: Statement) -> Seq<(TokenType, Seq<char>)> {
    match value_of(st) {
        Expression::Prefix(p) => {
            let l = expr_token(*p.value->Some_0);
            seq![
                (TokenType::DEL_LPAREN, seq!['(']),
                (p.token.ttype, p.token.literal@),
                (l.ttype, l.literal@),
                (TokenType::DEL_RPAREN, seq![')']),
                (TokenType::DEL_END, seq![';']),
            ]
        },
        Expression::Infix(x) => {
            let a = expr_token(*x.left->Some_0);
            let b = expr_token(*x.right->Some_0);
            seq![
                (TokenType::DEL_LPAREN, seq!['(']),
                (a.ttype, a.literal@),
                (x.token.ttype, x.token.literal@),
                (b.ttype, b.literal@),
                (TokenType::DEL_RPAREN, seq![')']),
                (TokenType::DEL_END, seq![';']),
            ]
        },
        v => seq![(expr_token(v).ttype, expr_token(v).literal@), (TokenType::DEL_END, seq![';'])],
    }
}

proof fn lemma_scan_lit_stmt(t: Seq<char>, k: nat, q: int, w: Seq<char>, ty: TokenType)
    requires
        cursor(t, k) == q,
        0 <= q,
        q + w.len() + 1 <= t.len(),
        t.subrange(q, q + w.len() + 1) == w + seq![';'],
        opens_literal(w),
        rescans_before(w, ty),
    ensures
        token_start(t, k) == q,
        token_type(t, q) == ty,
        token_text(t, q) == w,
        token_start(t, k + 1) == q + w.len(),
        token_type(t, q + w.len()) == TokenType::DEL_END,
        token_text(t, q + w.len()) == seq![';'],
        cursor(t, k + 2) == q + w.len() + 1,
{
    let st = w + seq![';'];
    assert(st.subrange(0, w.len() as int) =~= w);
    lemma_piece(t, q, st, 0, w);
    lemma_char_at(t, q, st, w.len() as int);
    lemma_char_at(t, q, st, 0);
    lemma_no_skip(t, q);
    lemma_scan_word(t, k, q, q, w, ty);
    lemma_no_skip(t, q + w.len());
    lemma_scan_mark(t, k + 1, q + w.len(), q + w.len());
}

proof fn lemma_scan_prefix_stmt(
    t: Seq<char>,
    k: nat,
    q: int,
    op: Seq<char>,
    opty: TokenType,
    w: Seq<char>,
    ty: TokenType,
)
    requires
        cursor(t, k) == q,
        0 <= q,
        q + op.len() + w.len() + 3 <= t.len(),
        t.subrange(q, q + op.len() + w.len() + 3) == seq!['('] + op + w + seq![')'] + seq![';'],
        op.len() > 0 && !blank_char(op[0]) && op[0] != '\0',
        rescans_op(op, opty),
        opens_literal(w),
        rescans_before(w, ty),
    ensures
        token_start(t, k) == q,
        token_type(t, q) == TokenType::DEL_LPAREN,
        token_text(t, q) == seq!['('],
        token_type(t, token_start(t, k + 1)) == opty,
        token_text(t, token_start(t, k + 1)) == op,
        token_type(t, token_start(t, k + 2)) == ty,
        token_text(t, token_start(t, k + 2)) == w,
        token_type(t, token_start(t, k + 3)) == TokenType::DEL_RPAREN,
        token_text(t, token_start(t, k + 3)) == seq![')'],
        token_type(t, token_start(t, k + 4)) == TokenType::DEL_END,
        token_text(t, token_start(t, k + 4)) == seq![';'],
        cursor(t, k + 5) == q + op.len() + w.len() + 3,
{
    let st = seq!['('] + op + w + seq![')'] + seq![';'];
    let n1 = 1 + op.len() as int;
    let n2 = n1 + w.len() as int;
    assert(st.subrange(1, n1) =~= op);
    assert(st.subrange(n1, n2) =~= w);
    lemma_char_at(t, q, st, 0);
    lemma_piece(t, q, st, 1, op);
    lemma_piece(t, q, st, n1, w);
    lemma_char_at(t, q, st, n1);
    lemma_char_at(t, q, st, n2);
    lemma_char_at(t, q, st, n2 + 1);
    lemma_char_at(t, q, st, 1);
    lemma_no_skip(t, q);
    lemma_scan_mark(t, k, q, q);
    lemma_no_skip(t, q + 1);
    lemma_scan_op(t, k + 1, q + 1, q + 1, op, opty);
    lemma_no_skip(t, q + n1);
    lemma_scan_word(t, k + 2, q + n1, q + n1, w, ty);
    lemma_no_skip(t, q + n2);
    lemma_scan_mark(t, k + 3, q + n2, q + n2);
    lemma_no_skip(t, q + n2 + 1);
    lemma_scan_mark(t, k + 4, q + n2 + 1, q + n2 + 1);
}

proof fn lemma_scan_infix_stmt(
    t: Seq<char>,
    k: nat,
    q: int,
    a: Seq<char>,
    aty: TokenType,
    op: Seq<char>,
    opty: TokenType,
    b: Seq<char>,
    bty: TokenType,
)
    requires
        cursor(t, k) == q,
        0 <= q,
        q + a.len() + op.len() + b.len() + 5 <= t.len(),
        t.subrange(q, q + a.len() + op.len() + b.len() + 5) == seq!['('] + a + seq![' '] + op
            + seq![' '] + b + seq![')'] + seq![';'],
        opens_literal(a),
        rescans_before(a, aty),
        op.len() > 0 && !blank_char(op[0]) && op[0] != '\0',
        rescans_before_space(op, opty),
        opens_literal(b),
        rescans_before(b, bty),
    ensures
        token_start(t, k) == q,
        token_type(t, q) == TokenType::DEL_LPAREN,
        token_text(t, q) == seq!['('],
        token_type(t, token_start(t, k + 1)) == aty,
        token_text(t, token_start(t, k + 1)) == a,
        token_type(t, token_start(t, k + 2)) == opty,
        token_text(t, token_start(t, k + 2)) == op,
        token_type(t, token_start(t, k + 3)) == bty,
        token_text(t, token_start(t, k + 3)) == b,
        token_type(t, token_start(t, k + 4)) == TokenType::DEL_RPAREN,
        token_text(t, token_start(t, k + 4)) == seq![')'],
        token_type(t, token_start(t, k + 5)) == TokenType::DEL_END,
        token_text(t, token_start(t, k + 5)) == seq![';'],
        cursor(t, k + 6) == q + a.len() + op.len() + b.len() + 5,
{
    let st = seq!['('] + a + seq![' '] + op + seq![' '] + b + seq![')'] + seq![';'];
    let n1 = 1 + a.len() as int;
    let o = n1 + 1;
    let n2 = o + op.len() as int;
    let b0 = n2 + 1;
    let n3 = b0 + b.len() as int;
    assert(st.subrange(1, n1) =~= a);
    assert(st.subrange(o, n2) =~= op);
    assert(st.subrange(b0, n3) =~= b);
    lemma_char_at(t, q, st, 0);
    lemma_piece(t, q, st, 1, a);
    lemma_char_at(t, q, st, 1);
    lemma_char_at(t, q, st, n1);
    lemma_piece(t, q, st, o, op);
    lemma_char_at(t, q, st, o);
    lemma_char_at(t, q, st, n2);
    lemma_piece(t, q, st, b0, b);
    lemma_char_at(t, q, st, b0);
    lemma_char_at(t, q, st, n3);
    lemma_char_at(t, q, st, n3 + 1);
    lemma_no_skip(t, q);
    lemma_scan_mark(t, k, q, q);
    lemma_no_skip(t, q + 1);
    lemma_scan_word(t, k + 1, q + 1, q + 1, a, aty);
    lemma_skip_space(t, q + n1);
    lemma_scan_op(t, k + 2, q + n1, q + o, op, opty);
    lemma_skip_space(t, q + n2);
    lemma_scan_word(t, k + 3, q + n2, q + b0, b, bty);
    lemma_no_skip(t, q + n3);
    lemma_scan_mark(t, k + 4, q + n3, q + n3);
    lemma_no_skip(t, q + n3 + 1);
    lemma_scan_mark(t, k + 5, q + n3 + 1, q + n3 + 1);
}

proof fn lemma_count_before_nonneg(s: Seq<Statement>, m: int)
    ensures
        0 <= count_before(s, m),
        0 <= m <= s.len() ==> count_before(s, m) >= 2 * m,
    decreases m,
{
    if m > 0 {
        lemma_count_before_nonneg(s, m - 1);
    }
}

/// What the scanner reads from the printed text of one simple statement.
pub open spec fn scans_as_expected(t: Seq<char>, k: int, st: Statement) -> bool {
    forall|r: int|
        0 <= r < expected(st).len() ==> token_type(t, #[trigger] token_start(t, (k + r) as nat))
            == expected(st)[r].0 && token_text(t, token_start(t, (k + r) as nat))
            == expected(st)[r].1
}

proof fn lemma_scan_prefix_kind(t: Seq<char>, k: int, q: int, st: Statement)
    requires
        simple_stmt(st),
        printable_stmt(st),
        value_of(st) is Prefix,
        0 <= k,
        0 <= q,
        cursor(t, k as nat) == q,
        q + stmt_text(st).len() <= t.len(),
        t.subrange(q, q + stmt_text(st).len()) == stmt_text(st),
    ensures
        expected(st).len() == tok_count(st),
        scans_as_expected(t, k, st),
        cursor(t, (k + tok_count(st)) as nat) == q + stmt_text(st).len(),
{
    reveal_strlit("(");
    reveal_strlit(")");
    reveal_strlit(";");
    let p = value_of(st)->Prefix_0;
    let op = p.token.literal@;
    let l = *p.value->Some_0;
    let w = expr_token(l).literal@;
    assert(stmt_text(st) =~= seq!['('] + op + w + seq![')'] + seq![';']);
    lemma_scan_prefix_stmt(t, k as nat, q, op, p.token.ttype, w, expr_token(l).ttype);
    let e = expected(st);
    assert forall|r: int| 0 <= r < e.len() implies token_type(
        t,
        #[trigger] token_start(t, (k + r) as nat),
    ) == e[r].0 && token_text(t, token_start(t, (k + r) as nat)) == e[r].1 by {
        if r == 0 {
        } else if r == 1 {
        } else if r == 2 {
        } else if r == 3 {
        } else {
        }
    }
}

proof fn lemma_scan_infix_kind(t: Seq<char>, k: int, q: int, st: Statement)
    requires
        simple_stmt(st),
        printable_stmt(st),
        value_of(st) is Infix,
        0 <= k,
        0 <= q,
        cursor(t, k as nat) == q,
        q + stmt_text(st).len() <= t.len(),
        t.subrange(q, q + stmt_text(st).len()) == stmt_text(st),
    ensures
        expected(st).len() == tok_count(st),
        scans_as_expected(t, k, st),
        cursor(t, (k + tok_count(st)) as nat) == q + stmt_text(st).len(),
{
    reveal_strlit("(");
    reveal_strlit(")");
    reveal_strlit(" ");
    reveal_strlit(";");
    let x = value_of(st)->Infix_0;
    let op = x.token.literal@;
    let la = *x.left->Some_0;
    let lb = *x.right->Some_0;
    let a = expr_token(la).literal@;
    let b = expr_token(lb).literal@;
    assert(stmt_text(st) =~= seq!['('] + a + seq![' '] + op + seq![' '] + b + seq![')'] + seq![
        ';',
    ]);
    lemma_scan_infix_stmt(
        t,
        k as nat,
        q,
        a,
        expr_token(la).ttype,
        op,
        x.token.ttype,
        b,
        expr_token(lb).ttype,
    );
    let e = expected(st);
    assert forall|r: int| 0 <= r < e.len() implies token_type(
        t,
        #[trigger] token_start(t, (k + r) as nat),
    ) == e[r].0 && token_text(t, token_start(t, (k + r) as nat)) == e[r].1 by {
        if r == 0 {
        } else if r == 1 {
        } else if r == 2 {
        } else if r == 3 {
        } else if r == 4 {
        } else {
        }
    }
}

proof fn lemma_scan_literal_kind(t: Seq<char>, k: int, q: int, st: Statement)
    requires
        simple_stmt(st),
        printable_stmt(st),
        !(value_of(st) is Prefix),
        !(value_of(st) is Infix),
        0 <= k,
        0 <= q,
        cursor(t, k as nat) == q,
        q + stmt_text(st).len() <= t.len(),
        t.subrange(q, q + stmt_text(st).len()) == stmt_text(st),
    ensures
        expected(st).len() == tok_count(st),
        scans_as_expected(t, k, st),
        cursor(t, (k + tok_count(st)) as nat) == q + stmt_text(st).len(),
{
    reveal_strlit(";");
    let v = value_of(st);
    let w = expr_token(v).literal@;
    assert(stmt_text(st) =~= w + seq![';']);
    lemma_scan_lit_stmt(t, k as nat, q, w, expr_token(v).ttype);
    let e = expected(st);
    assert forall|r: int| 0 <= r < e.len() implies token_type(
        t,
        #[trigger] token_start(t, (k + r) as nat),
    ) == e[r].0 && token_text(t, token_start(t, (k + r) as nat)) == e[r].1 by {
        if r == 0 {
        } else {
        }
    }
}

proof fn lemma_statement_scan(s: Seq<Statement>, m: int)
    requires
        all_printable(s),
        0 <= m < s.len(),
        cursor(stmts_text(s), count_before(s, m) as nat) == printed_prefix(s, m).len(),
    ensures
        expected(s[m]).len() == tok_count(s[m]),
        scans_as_expected(stmts_text(s), count_before(s, m), s[m]),
        cursor(stmts_text(s), (count_before(s, m) + tok_count(s[m])) as nat) == printed_prefix(
            s,
            m + 1,
        ).len(),
{
    let t = stmts_text(s);
    let k = count_before(s, m);
    let q = printed_prefix(s, m).len() as int;
    let st = s[m];
    assert(simple_stmt(st) && printable_stmt(st));
    lemma_printed_layout(s, m);
    lemma_count_before_nonneg(s, m);
    if value_of(st) is Prefix {
        lemma_scan_prefix_kind(t, k, q, st);
    } else if value_of(st) is Infix {
        lemma_scan_infix_kind(t, k, q, st);
    } else {
        lemma_scan_literal_kind(t, k, q, st);
    }
}

proof fn lemma_printed_cursor(s: Seq<Statement>, m: int)
    requires
        all_printable(s),
        0 <= m <= s.len(),
    ensures
        cursor(stmts_text(s), count_before(s, m) as nat) == printed_prefix(s, m).len(),
    decreases m,
{
    if m == 0 {
        assert(s.subrange(0, 0) =~= Seq::<Statement>::empty());
    } else {
        lemma_printed_cursor(s, m - 1);
        lemma_statement_scan(s, m - 1);
    }
}

proof fn lemma_locate(s: Seq<Statement>, n: int, l: int)
    requires
        0 <= n <= s.len(),
        0 <= l < count_before(s, n),
    ensures
        exists|m: int|
            0 <= m < n && #[trigger] count_before(s, m) <= l < count_before(s, m + 1),
    decreases n,
{
    if n > 0 && l >= count_before(s, n - 1) {
        assert(count_before(s, n - 1) <= l < count_before(s, n));
    } else if n > 0 {
        lemma_locate(s, n - 1, l);
    }
}

/// The tokens of the printed text: those of each statement in turn, then
/// the end of input.
proof fn lemma_printed_token_count(s: Seq<Statement>, ts: Seq<Token>)
    requires
        all_printable(s),
        tokens_wf(ts),
        forall|k: int|
            0 <= k < ts.len() ==> token_at(
                #[trigger] ts[k],
                stmts_text(s),
                token_start(stmts_text(s), k as nat),
            ),
    ensures
        ts.len() == count_before(s, s.len() as int) + 1,
        forall|m: int, r: int|
            0 <= m < s.len() && 0 <= r < tok_count(s[m]) ==> (#[trigger] ts[count_before(s, m)
                + r]).ttype == #[trigger] expected(s[m])[r].0 && ts[count_before(s, m) + r].literal@
                == expected(s[m])[r].1,
{
    let t = stmts_text(s);
    let n = s.len() as int;
    let total = count_before(s, n);
    lemma_printed_cursor(s, n);
    assert(s.subrange(0, n) =~= s);
    assert(skip_blanks(t, t.len() as int) == t.len());
    assert(token_type(t, t.len() as int) == TokenType::META_EOF);
    lemma_count_before_nonneg(s, n);
    if ts.len() < total + 1 {
        let l = ts.len() - 1;
        assert(token_at(ts[l], t, token_start(t, l as nat)));
        lemma_locate(s, n, l);
        let m = choose|m: int| 0 <= m < n && #[trigger] count_before(s, m) <= l < count_before(s, m + 1);
        lemma_printed_cursor(s, m);
        lemma_statement_scan(s, m);
        assert(simple_stmt(s[m]) && printable_stmt(s[m]));
        let r = l - count_before(s, m);
        assert(token_start(t, (count_before(s, m) + r) as nat) == token_start(t, l as nat));
        lemma_expected_not_eof(s[m], r);
    } else if ts.len() > total + 1 {
        assert(token_at(ts[total], t, token_start(t, total as nat)));
    }
    assert forall|m: int, r: int|
        0 <= m < s.len() && 0 <= r < tok_count(s[m]) implies (#[trigger] ts[count_before(s, m)
        + r]).ttype == #[trigger] expected(s[m])[r].0 && ts[count_before(s, m) + r].literal@
        == expected(s[m])[r].1 by {
        lemma_printed_cursor(s, m);
        lemma_statement_scan(s, m);
        lemma_count_before_nonneg(s, m);
        lemma_count_before_grows(s, m + 1, n);
        let k = count_before(s, m) + r;
        assert(token_at(ts[k], t, token_start(t, k as nat)));
        assert(token_start(t, (count_before(s, m) + r) as nat) == token_start(t, k as nat));
    }
}

proof fn lemma_count_before_grows(s: Seq<Statement>, a: int, b: int)
    requires
        0 <= a <= b <= s.len(),
    ensures
        count_before(s, a) <= count_before(s, b),
    decreases b - a,
{
    if a < b {
        lemma_count_before_grows(s, a, b - 1);
        assert(tok_count(s[b - 1]) >= 2);
    }
}

proof fn lemma_expected_not_eof(st: Statement, r: int)
    requires
        simple_stmt(st),
        printable_stmt(st),
        0 <= r < expected(st).len(),
    ensures
        expected(st)[r].0 != TokenType::META_EOF,
{
}

proof fn lemma_one_text(x: Statement)
    ensures
        stmts_text(seq![x]) == stmt_text(x),
{
    assert(seq![x].drop_last() =~= Seq::<Statement>::empty());
    assert(seq![x].last() == x);
    assert(stmts_text(Seq::<Statement>::empty()) =~= Seq::<char>::empty());
    assert(stmts_text(seq![x]) =~= stmt_text(x));
}

/// A literal followed by `;` or `)` parses to itself, with no error.
proof fn lemma_reparse_literal(ts: Seq<Token>, j: int, prec: u8, errs: Seq<Seq<char>>)
    requires
        0 <= j,
        j + 1 < ts.len(),
        atom_type(ts[j].ttype),
        ts[j].ttype == TokenType::LIT_INT ==> int_fits(ts[j].literal@),
        ts[j + 1].ttype == TokenType::DEL_END || ts[j + 1].ttype == TokenType::DEL_RPAREN,
    ensures
        parse_expr(ts, j, prec, errs).0 is Some,
        expr_text(*parse_expr(ts, j, prec, errs).0->Some_0) == ts[j].literal@,
        parse_expr(ts, j, prec, errs).1 == j,
        parse_expr(ts, j, prec, errs).2 == errs,
{
    let t = ts[j];
    assert(crate::parser::tk(ts, j + 1) == ts[j + 1]);
    if t.ttype == TokenType::LIT_INT {
        let left = Expression::Integer(
            crate::ast::IntegerLiteral {
                token: t,
                value: #[verifier::truncate] (decimal_value(t.literal@) as i32),
            },
        );
        assert(infix_loop(ts, j, prec, left, errs) == (Some(Box::new(left)), j, errs));
    } else {
        assert(!prefix_op(t.ttype));
        let left = atom_expr(t);
        assert(infix_loop(ts, j, prec, left, errs) == (Some(Box::new(left)), j, errs));
    }
}

/// A parenthesis where an expression should start is an error, and the
/// statement it starts has no value.
proof fn lemma_reparse_paren(ts: Seq<Token>, j: int, errs: Seq<Seq<char>>)
    requires
        0 <= j,
        j + 1 < ts.len(),
        ts[j].ttype == TokenType::DEL_LPAREN || ts[j].ttype == TokenType::DEL_RPAREN,
    ensures
        parse_stmt(ts, j, errs).0 is Some,
        stmt_text(parse_stmt(ts, j, errs).0->Some_0) == Seq::<char>::empty(),
        parse_stmt(ts, j, errs).1 == (if ts[j + 1].ttype == TokenType::DEL_END {
            j + 1
        } else {
            j
        }),
        parse_stmt(ts, j, errs).2 == errs.push(crate::parser::no_prefix_msg(ts[j].ttype)),
{
    assert(crate::parser::tk(ts, j + 1) == ts[j + 1]);
    assert(parse_stmt(ts, j, errs) == parse_expr_stmt(ts, j, errs));
}

proof fn lemma_reparse_lit_stmt(ts: Seq<Token>, k: int, errs: Seq<Seq<char>>)
    requires
        0 <= k,
        k + 2 < ts.len(),
        atom_type(ts[k].ttype),
        ts[k].ttype == TokenType::LIT_INT ==> int_fits(ts[k].literal@),
        ts[k + 1].ttype == TokenType::DEL_END,
    ensures
        stmts_text(parse_prog(ts, k, errs).0) == ts[k].literal@ + ";"@ + stmts_text(
            parse_prog(ts, k + 2, errs).0,
        ),
{
    lemma_reparse_literal(ts, k, crate::parser::LOWEST, errs);
    assert(crate::parser::tk(ts, k + 1) == ts[k + 1]);
    let r = parse_stmt(ts, k, errs);
    assert(r == parse_expr_stmt(ts, k, errs));
    let st = r.0->Some_0;
    let rest = parse_prog(ts, k + 2, errs);
    assert(parse_prog(ts, k, errs) == (seq![st] + rest.0, rest.1));
    lemma_stmts_text_concat(seq![st], rest.0);
    lemma_one_text(st);
}

proof fn lemma_reparse_prefix_stmt(ts: Seq<Token>, k: int, errs: Seq<Seq<char>>)
    requires
        0 <= k,
        k + 5 < ts.len(),
        ts[k].ttype == TokenType::DEL_LPAREN,
        symbol_prefix(ts[k + 1].ttype),
        atom_type(ts[k + 2].ttype),
        ts[k + 2].ttype == TokenType::LIT_INT ==> int_fits(ts[k + 2].literal@),
        ts[k + 3].ttype == TokenType::DEL_RPAREN,
        ts[k + 4].ttype == TokenType::DEL_END,
    ensures
        stmts_text(parse_prog(ts, k, errs).0) == "("@ + ts[k + 1].literal@ + ts[k + 2].literal@
            + ")"@ + ";"@ + stmts_text(
            parse_prog(
                ts,
                k + 5,
                errs.push(crate::parser::no_prefix_msg(TokenType::DEL_LPAREN)).push(
                    crate::parser::no_prefix_msg(TokenType::DEL_RPAREN),
                ),
            ).0,
        ),
{
    let e1 = errs.push(crate::parser::no_prefix_msg(TokenType::DEL_LPAREN));
    let e2 = e1.push(crate::parser::no_prefix_msg(TokenType::DEL_RPAREN));
    // the opening parenthesis: an empty statement
    lemma_reparse_paren(ts, k, errs);
    let ra = parse_stmt(ts, k, errs);
    let sa = ra.0->Some_0;
    let pb = parse_prog(ts, k + 1, e1);
    assert(parse_prog(ts, k, errs) == (seq![sa] + pb.0, pb.1));
    // the operator applied to the literal
    lemma_reparse_literal(ts, k + 2, crate::parser::PREFIX, e1);
    let t = ts[k + 1];
    let r = parse_expr(ts, k + 2, crate::parser::PREFIX, e1);
    let left = Expression::Prefix(
        crate::ast::PrefixExpression { token: t, operator: t.literal, value: r.0 },
    );
    assert(crate::parser::tk(ts, k + 3) == ts[k + 3]);
    assert(infix_loop(ts, k + 2, crate::parser::LOWEST, left, e1) == (
        Some(Box::new(left)),
        k + 2,
        e1,
    ));
    let rb = parse_stmt(ts, k + 1, e1);
    assert(rb == parse_expr_stmt(ts, k + 1, e1));
    let sb = rb.0->Some_0;
    let pc = parse_prog(ts, k + 3, e1);
    assert(parse_prog(ts, k + 1, e1) == (seq![sb] + pc.0, pc.1));
    // the closing parenthesis: an empty statement that takes the `;`
    lemma_reparse_paren(ts, k + 3, e1);
    let rc = parse_stmt(ts, k + 3, e1);
    let sc = rc.0->Some_0;
    let rest = parse_prog(ts, k + 5, e2);
    assert(parse_prog(ts, k + 3, e1) == (seq![sc] + rest.0, rest.1));
    lemma_stmts_text_concat(seq![sc], rest.0);
    lemma_one_text(sc);
    lemma_stmts_text_concat(seq![sb], pc.0);
    lemma_one_text(sb);
    lemma_stmts_text_concat(seq![sa], pb.0);
    lemma_one_text(sa);
    assert(stmt_text(sb) == "("@ + t.literal@ + ts[k + 2].literal@ + ")"@ + ";"@);
}

proof fn lemma_reparse_infix_stmt(ts: Seq<Token>, k: int, errs: Seq<Seq<char>>)
    requires
        0 <= k,
        k + 6 < ts.len(),
        ts[k].ttype == TokenType::DEL_LPAREN,
        atom_type(ts[k + 1].ttype),
        ts[k + 1].ttype == TokenType::LIT_INT ==> int_fits(ts[k + 1].literal@),
        infix_op(ts[k + 2].ttype),
        atom_type(ts[k + 3].ttype),
        ts[k + 3].ttype == TokenType::LIT_INT ==> int_fits(ts[k + 3].literal@),
        ts[k + 4].ttype == TokenType::DEL_RPAREN,
        ts[k + 5].ttype == TokenType::DEL_END,
    ensures
        stmts_text(parse_prog(ts, k, errs).0) == "("@ + ts[k + 1].literal@ + " "@
            + ts[k + 2].literal@ + " "@ + ts[k + 3].literal@ + ")"@ + ";"@ + stmts_text(
            parse_prog(
                ts,
                k + 6,
                errs.push(crate::parser::no_prefix_msg(TokenType::DEL_LPAREN)).push(
                    crate::parser::no_prefix_msg(TokenType::DEL_RPAREN),
                ),
            ).0,
        ),
{
    let low = crate::parser::LOWEST;
    let e1 = errs.push(crate::parser::no_prefix_msg(TokenType::DEL_LPAREN));
    let e2 = e1.push(crate::parser::no_prefix_msg(TokenType::DEL_RPAREN));
    lemma_reparse_paren(ts, k, errs);
    let ra = parse_stmt(ts, k, errs);
    let sa = ra.0->Some_0;
    let pb = parse_prog(ts, k + 1, e1);
    assert(parse_prog(ts, k, errs) == (seq![sa] + pb.0, pb.1));
    // the left literal, the operator and the right literal
    let op = ts[k + 2];
    let pr = crate::parser::prec_of(op.ttype);
    assert(pr > low);
    lemma_reparse_literal(ts, k + 3, pr, e1);
    let rr = parse_expr(ts, k + 3, pr, e1);
    let a = ts[k + 1];
    let left = if a.ttype == TokenType::LIT_INT {
        Expression::Integer(
            crate::ast::IntegerLiteral {
                token: a,
                value: #[verifier::truncate] (decimal_value(a.literal@) as i32),
            },
        )
    } else {
        atom_expr(a)
    };
    let e = Expression::Infix(
        crate::ast::InfixExpression {
            token: op,
            left: Some(Box::new(left)),
            operator: op.literal,
            right: rr.0,
        },
    );
    assert(crate::parser::tk(ts, k + 2) == op);
    assert(crate::parser::tk(ts, k + 4) == ts[k + 4]);
    assert(infix_loop(ts, k + 3, low, e, e1) == (Some(Box::new(e)), k + 3, e1));
    assert(infix_loop(ts, k + 1, low, left, e1) == (Some(Box::new(e)), k + 3, e1));
    assert(!prefix_op(a.ttype));
    assert(parse_expr(ts, k + 1, low, e1) == (Some(Box::new(e)), k + 3, e1));
    let rb = parse_stmt(ts, k + 1, e1);
    assert(rb == parse_expr_stmt(ts, k + 1, e1));
    let sb = rb.0->Some_0;
    let pc = parse_prog(ts, k + 4, e1);
    assert(parse_prog(ts, k + 1, e1) == (seq![sb] + pc.0, pc.1));
    lemma_reparse_paren(ts, k + 4, e1);
    let rc = parse_stmt(ts, k + 4, e1);
    let sc = rc.0->Some_0;
    let rest = parse_prog(ts, k + 6, e2);
    assert(parse_prog(ts, k + 4, e1) == (seq![sc] + rest.0, rest.1));
    lemma_stmts_text_concat(seq![sc], rest.0);
    lemma_one_text(sc);
    lemma_stmts_text_concat(seq![sb], pc.0);
    lemma_one_text(sb);
    lemma_stmts_text_concat(seq![sa], pb.0);
    lemma_one_text(sa);
    assert(expr_text(left) == a.literal@);
    assert(stmt_text(sb) == "("@ + a.literal@ + " "@ + op.literal@ + " "@ + ts[k + 3].literal@
        + ")"@ + ";"@);
}

/// Parsing the printed text from the `m`-th statement on gives statements
/// that print as the rest of the text, whatever errors came before.
#[verifier::rlimit(80)]
proof fn lemma_reparse(s: Seq<Statement>, ts: Seq<Token>, m: int, errs: Seq<Seq<char>>)
    requires
        all_printable(s),
        tokens_wf(ts),
        ts.len() == count_before(s, s.len() as int) + 1,
        forall|m: int, r: int|
            0 <= m < s.len() && 0 <= r < tok_count(s[m]) ==> (#[trigger] ts[count_before(s, m)
                + r]).ttype == #[trigger] expected(s[m])[r].0 && ts[count_before(s, m) + r].literal@
                == expected(s[m])[r].1,
        0 <= m <= s.len(),
    ensures
        stmts_text(parse_prog(ts, count_before(s, m), errs).0) == stmts_text(
            s.subrange(m, s.len() as int),
        ),
    decreases s.len() - m,
{
    let n = s.len() as int;
    let k = count_before(s, m);
    lemma_count_before_nonneg(s, m);
    if m == n {
        assert(s.subrange(m, n) =~= Seq::<Statement>::empty());
        assert(parse_prog(ts, k, errs).0 =~= Seq::<Statement>::empty());
    } else {
        let st = s[m];
        assert(simple_stmt(st) && printable_stmt(st));
        lemma_count_before_grows(s, m + 1, n);
        let e = expected(st);
        let cnt = tok_count(st);
        assert(count_before(s, m + 1) == k + cnt);
        assert forall|r: int| 0 <= r < cnt implies ts[k + r].ttype == e[r].0 && ts[k
            + r].literal@ == e[r].1 by {
            assert(ts[count_before(s, m) + r].ttype == expected(s[m])[r].0);
        }
        lemma_one_text(st);
        lemma_stmts_text_concat(seq![st], s.subrange(m + 1, n));
        assert(seq![st] + s.subrange(m + 1, n) =~= s.subrange(m, n));
        let v = value_of(st);
        if v is Prefix {
            let e2 = errs.push(crate::parser::no_prefix_msg(TokenType::DEL_LPAREN)).push(
                crate::parser::no_prefix_msg(TokenType::DEL_RPAREN),
            );
            lemma_reparse(s, ts, m + 1, e2);
            lemma_reparse_prefix_stmt(ts, k, errs);
            let p = v->Prefix_0;
            assert(stmt_text(st) == "("@ + p.operator@ + expr_text(*p.value->Some_0) + ")"@ + ";"@);
        } else if v is Infix {
            let e2 = errs.push(crate::parser::no_prefix_msg(TokenType::DEL_LPAREN)).push(
                crate::parser::no_prefix_msg(TokenType::DEL_RPAREN),
            );
            lemma_reparse(s, ts, m + 1, e2);
            lemma_reparse_infix_stmt(ts, k, errs);
            let x = v->Infix_0;
            assert(stmt_text(st) == "("@ + expr_text(*x.left->Some_0) + " "@ + x.operator@ + " "@
                + expr_text(*x.right->Some_0) + ")"@ + ";"@);
        } else {
            lemma_reparse(s, ts, m + 1, errs);
            lemma_reparse_lit_stmt(ts, k, errs);
        }
    }
}

/// Printing the statements of a parse and parsing the printed text again
/// prints the same text, for every source that parses without error into
/// expression statements whose values are simple: a literal, one of
/// `!`, `-`, `+` applied to a literal, or a binary operator between two
/// literals. (The printed parentheses start no expression, so parsing the
/// printed text records errors, and a printed nested operator does not
/// parse back.)
pub proof fn lemma_round_trip_simple_statements(src: Seq<char>, ts1: Seq<Token>, ts2: Seq<Token>)
    requires
        tokens_wf(ts1),
        forall|k: int|
            0 <= k < ts1.len() ==> token_at(#[trigger] ts1[k], src, token_start(src, k as nat)),
        parse_prog(ts1, 0, Seq::empty()).1.len() == 0,
        forall|m: int|
            0 <= m < parse_prog(ts1, 0, Seq::empty()).0.len() ==> simple_stmt(
                #[trigger] parse_prog(ts1, 0, Seq::empty()).0[m],
            ),
        tokens_wf(ts2),
        forall|k: int|
            0 <= k < ts2.len() ==> token_at(
                #[trigger] ts2[k],
                stmts_text(parse_prog(ts1, 0, Seq::empty()).0),
                token_start(stmts_text(parse_prog(ts1, 0, Seq::empty()).0), k as nat),
            ),
    ensures
        stmts_text(parse_prog(ts2, 0, Seq::empty()).0) == stmts_text(
            parse_prog(ts1, 0, Seq::empty()).0,
        ),
{
    let s = parse_prog(ts1, 0, Seq::empty()).0;
    assert forall|k: int| 0 <= k < ts1.len() implies readable_token(#[trigger] ts1[k]) by {
        let i = token_start(src, k as nat);
        assert(token_at(ts1[k], src, i));
        lemma_token_start_nonneg(src, k as nat);
        let ty = ts1[k].ttype;
        if atom_type(ty) || ty == TokenType::RW_AND || ty == TokenType::RW_OR || symbol_op(ty) {
            if !(i < src.len()) {
                assert(ch_at(src, i) == '\0');
                assert(token_type(src, i) == TokenType::META_EOF);
            }
            if symbol_op(ty) {
                lemma_op_rescans(src, i);
            } else {
                lemma_word_rescans(src, i);
            }
        }
    }
    lemma_simple_stmts(ts1, 0, Seq::empty());
    assert(all_printable(s));
    lemma_printed_token_count(s, ts2);
    lemma_reparse(s, ts2, 0, Seq::empty());
    assert(s.subrange(0, s.len() as int) =~= s);
}

proof fn lemma_token_start_nonneg(s: Seq<char>, k: nat)
    ensures
        0 <= cursor(s, k) <= token_start(s, k),
    decreases k,
{
    lemma_skip_blanks_grows(s, cursor(s, k));
    if k > 0 {
        lemma_token_start_nonneg(s, (k - 1) as nat);
        let i = token_start(s, (k - 1) as nat);
        if 0 <= i < s.len() && ch_at(s, i) != '\0' {
            crate::lexer::lemma_token_end(s, i);
        }
    }
}

proof fn lemma_skip_blanks_grows(s: Seq<char>, i: int)
    ensures
        i <= skip_blanks(s, i),
    decreases s.len() - i,
{
    if 0 <= i < s.len() && blank_char(s[i]) {
        lemma_skip_blanks_grows(s, i + 1);
    }
}

} // verus!
