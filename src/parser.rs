//! The parser: precedence climbing over the token sequence, a small
//! statement grammar, and an error list that parsing appends to.
use vstd::prelude::*;
use crate::ast::{
    Blank, BooleanLiteral, Expression, ExpressionStatement, FloatLiteral, Identifier, Inf,
    InfixExpression, IntegerLiteral, LetStatement, NaN, Nil, PrefixExpression, Program,
    ReturnStatement, Statement, Symbol,
};
use crate::lexer::{chars_of, token_at, token_start, tokenize};
use crate::token::{category_name, str_eq, Token, TokenType};

verus! {

pub const LOWEST: u8 = 0;
pub const OR: u8 = 1;
pub const AND: u8 = 2;
pub const EQUALS: u8 = 3;
pub const LESSGREATER: u8 = 4;
pub const SUM: u8 = 5;
pub const PRODUCT: u8 = 6;
pub const POW: u8 = 7;
pub const PREFIX: u8 = 8;
pub const CALL: u8 = 9;

/// Binding power of a token in infix position.
pub open spec fn prec_of(t: TokenType) -> u8 {
    match t {
        TokenType::RW_OR => OR,
        TokenType::RW_AND => AND,
        TokenType::OP_EQ | TokenType::OP_NEQ => EQUALS,
        TokenType::OP_GT | TokenType::OP_GTE | TokenType::OP_LT | TokenType::OP_LTE => LESSGREATER,
        TokenType::OP_ADD | TokenType::OP_SUB => SUM,
        TokenType::OP_MUL | TokenType::OP_DIV | TokenType::OP_MOD => PRODUCT,
        TokenType::OP_POW => POW,
        TokenType::DEL_LPAREN => CALL,
        _ => LOWEST,
    }
}

/// Tokens that may stand between two operands.
pub open spec fn infix_op(t: TokenType) -> bool {
    match t {
        TokenType::RW_OR | TokenType::RW_AND | TokenType::OP_ADD | TokenType::OP_SUB
        | TokenType::OP_MUL | TokenType::OP_DIV | TokenType::OP_MOD | TokenType::OP_POW
        | TokenType::OP_EQ | TokenType::OP_NEQ | TokenType::OP_GT | TokenType::OP_GTE
        | TokenType::OP_LT | TokenType::OP_LTE => true,
        _ => false,
    }
}

/// Tokens that start a unary expression.
pub open spec fn prefix_op(t: TokenType) -> bool {
    t == TokenType::RW_NOT || t == TokenType::OP_NOT || t == TokenType::OP_ADD || t
        == TokenType::OP_SUB
}

/// Tokens that form an expression on their own.
pub open spec fn atom_type(t: TokenType) -> bool {
    match t {
        TokenType::LIT_IDENT | TokenType::LIT_BLANK | TokenType::LIT_INT | TokenType::LIT_FLOAT
        | TokenType::LIT_BOOL | TokenType::LIT_INF | TokenType::LIT_NAN | TokenType::LIT_NIL
        | TokenType::LIT_SYMBOL => true,
        _ => false,
    }
}

pub open spec fn peek_msg(expected: TokenType, got: TokenType) -> Seq<char> {
    "expected next token to be "@ + category_name(expected) + ", got "@ + category_name(got)
        + " instead"@
}

pub open spec fn no_prefix_msg(t: TokenType) -> Seq<char> {
    "no prefix parse function for "@ + category_name(t) + " found"@
}

pub open spec fn digit_val(c: char) -> int {
    c as int - '0' as int
}

pub open spec fn all_digits(s: Seq<char>) -> bool {
    forall|i: int| 0 <= i < s.len() ==> '0' <= #[trigger] s[i] && s[i] <= '9'
}

/// The number that a string of decimal digits denotes.
pub open spec fn decimal_value(s: Seq<char>) -> int
    decreases s.len(),
{
    if s.len() == 0 {
        0
    } else {
        decimal_value(s.drop_last()) * 10 + digit_val(s.last())
    }
}

/// Whether an integer literal denotes a 32-bit signed integer.
pub open spec fn int_fits(s: Seq<char>) -> bool {
    s.len() > 0 && all_digits(s) && decimal_value(s) <= i32::MAX
}

/// Why an integer literal does not denote a 32-bit signed integer.
pub open spec fn int_error(s: Seq<char>) -> Seq<char> {
    if s.len() == 0 {
        "cannot parse integer from empty string"@
    } else if !all_digits(s) {
        "invalid digit found in string"@
    } else {
        "number too large to fit in target type"@
    }
}

/// A well-formed token sequence ends with its only end-of-input token.
pub open spec fn tokens_wf(ts: Seq<Token>) -> bool {
    &&& ts.len() > 0
    &&& ts.last().ttype == TokenType::META_EOF
    &&& forall|k: int| 0 <= k < ts.len() - 1 ==> (#[trigger] ts[k]).ttype != TokenType::META_EOF
}

/// The token at `i`; past the end, the last one.
pub open spec fn tk(ts: Seq<Token>, i: int) -> Token {
    if 0 <= i < ts.len() {
        ts[i]
    } else {
        ts.last()
    }
}

/// One token forward, never past the last.
pub open spec fn step(ts: Seq<Token>, i: int) -> int {
    if i + 1 < ts.len() {
        i + 1
    } else {
        i
    }
}

/// The expression that a literal token forms on its own.
pub open spec fn atom_expr(t: Token) -> Expression {
    match t.ttype {
        TokenType::LIT_IDENT => Expression::Identifier(Identifier { token: t, value: t.literal }),
        TokenType::LIT_BLANK => Expression::Blank(Blank { token: t }),
        TokenType::LIT_FLOAT => Expression::Float(FloatLiteral { token: t }),
        TokenType::LIT_BOOL => Expression::Boolean(
            BooleanLiteral { token: t, value: t.literal@ == "true"@ },
        ),
        TokenType::LIT_INF => Expression::Inf(Inf { token: t }),
        TokenType::LIT_NAN => Expression::NaN(NaN { token: t }),
        TokenType::LIT_NIL => Expression::Nil(Nil { token: t }),
        _ => Expression::Symbol(Symbol { token: t, value: t.literal }),
    }
}

/// Parsing state after a step: the parsed node (absent on failure), the
/// position of the current token, and the whole error list.
pub type Parsed<T> = (Option<T>, int, Seq<Seq<char>>);

/// Parses an expression whose first token is at `pos`, folding in infix
/// operators that bind tighter than `prec`.
pub open spec fn parse_expr(ts: Seq<Token>, pos: int, prec: u8, errs: Seq<Seq<char>>) -> Parsed<
    Box<Expression>,
>
    decreases ts.len() - pos, 1int,
{
    if !(0 <= pos < ts.len()) {
        (None, pos, errs)
    } else {
        let t = ts[pos];
        if prefix_op(t.ttype) {
            if pos + 1 < ts.len() {
                let r = parse_expr(ts, pos + 1, PREFIX, errs);
                let left = Expression::Prefix(
                    PrefixExpression { token: t, operator: t.literal, value: r.0 },
                );
                if pos <= r.1 < ts.len() {
                    infix_loop(ts, r.1, prec, left, r.2)
                } else {
                    (Some(Box::new(left)), r.1, r.2)
                }
            } else {
                (None, pos, errs)
            }
        } else if t.ttype == TokenType::LIT_INT {
            if int_fits(t.literal@) {
                let left = Expression::Integer(
                    IntegerLiteral { token: t, value: #[verifier::truncate] (decimal_value(t.literal@) as i32) },
                );
                infix_loop(ts, pos, prec, left, errs)
            } else {
                (None, pos, errs.push(int_error(t.literal@)))
            }
        } else if atom_type(t.ttype) {
            infix_loop(ts, pos, prec, atom_expr(t), errs)
        } else {
            (None, pos, errs.push(no_prefix_msg(t.ttype)))
        }
    }
}

/// Folds `left` with the operators that follow it while they bind tighter
/// than `prec` and no statement end intervenes.
pub open spec fn infix_loop(
    ts: Seq<Token>,
    pos: int,
    prec: u8,
    left: Expression,
    errs: Seq<Seq<char>>,
) -> Parsed<Box<Expression>>
    decreases ts.len() - pos, 0int,
{
    let p = tk(ts, pos + 1);
    if 0 <= pos && pos + 2 < ts.len() && p.ttype != TokenType::DEL_END && prec < prec_of(p.ttype)
        && infix_op(p.ttype) {
        let r = parse_expr(ts, pos + 2, prec_of(p.ttype), errs);
        let e = Expression::Infix(
            InfixExpression {
                token: p,
                left: Some(Box::new(left)),
                operator: p.literal,
                right: r.0,
            },
        );
        if pos < r.1 < ts.len() {
            infix_loop(ts, r.1, prec, e, r.2)
        } else {
            (Some(Box::new(e)), r.1, r.2)
        }
    } else {
        (Some(Box::new(left)), pos, errs)
    }
}

/// Consumes a statement end that follows the current token, if there is one.
pub open spec fn skip_end(ts: Seq<Token>, pos: int) -> int {
    if tk(ts, pos + 1).ttype == TokenType::DEL_END {
        step(ts, pos)
    } else {
        pos
    }
}

pub open spec fn ident_of(t: Token) -> Identifier {
    Identifier { token: t, value: t.literal }
}

/// The rest of a `let` statement once its name (and type, if any) is read:
/// an optional `= value`, then an optional statement end.
pub open spec fn let_rest(
    ts: Seq<Token>,
    pos: int,
    head: Token,
    battr: Option<Token>,
    name: Identifier,
    btype: Option<Identifier>,
    errs: Seq<Seq<char>>,
) -> Parsed<Statement> {
    if tk(ts, pos + 1).ttype == TokenType::OP_ASSIGN {
        let r = parse_expr(ts, step(ts, step(ts, pos)), LOWEST, errs);
        (
            Some(
                Statement::Let(
                    LetStatement { token: head, battr: battr, name: name, btype: btype, value: r.0 },
                ),
            ),
            skip_end(ts, r.1),
            r.2,
        )
    } else {
        (
            Some(
                Statement::Let(
                    LetStatement { token: head, battr: battr, name: name, btype: btype, value: None },
                ),
            ),
            skip_end(ts, pos),
            errs,
        )
    }
}

/// `let [mut] IDENT [: IDENT] [= expression] [END]`, with `let` at `pos`.
/// A missing identifier abandons the statement with an error.
pub open spec fn parse_let(ts: Seq<Token>, pos: int, errs: Seq<Seq<char>>) -> Parsed<Statement> {
    let head = tk(ts, pos);
    let has_mut = tk(ts, pos + 1).ttype == TokenType::RW_MUT;
    let battr = if has_mut {
        Some(tk(ts, pos + 1))
    } else {
        None
    };
    let p1 = if has_mut {
        step(ts, pos)
    } else {
        pos
    };
    if tk(ts, p1 + 1).ttype != TokenType::LIT_IDENT {
        (None, p1, errs.push(peek_msg(TokenType::LIT_IDENT, tk(ts, p1 + 1).ttype)))
    } else {
        let p2 = step(ts, p1);
        let name = ident_of(tk(ts, p2));
        if tk(ts, p2 + 1).ttype == TokenType::DEL_COLON {
            let p3 = step(ts, p2);
            if tk(ts, p3 + 1).ttype != TokenType::LIT_IDENT {
                (None, p3, errs.push(peek_msg(TokenType::LIT_IDENT, tk(ts, p3 + 1).ttype)))
            } else {
                let p4 = step(ts, p3);
                let_rest(ts, p4, head, battr, name, Some(ident_of(tk(ts, p4))), errs)
            }
        } else {
            let_rest(ts, p2, head, battr, name, None, errs)
        }
    }
}

/// `return [expression] [END]`, with `return` at `pos`; the value is
/// absent when a statement end or the end of input follows.
pub open spec fn parse_return(ts: Seq<Token>, pos: int, errs: Seq<Seq<char>>) -> Parsed<
    Statement,
> {
    let head = tk(ts, pos);
    let next = tk(ts, pos + 1).ttype;
    if next == TokenType::DEL_END || next == TokenType::META_EOF {
        (
            Some(Statement::Return(ReturnStatement { token: head, value: None })),
            skip_end(ts, pos),
            errs,
        )
    } else {
        let r = parse_expr(ts, step(ts, pos), LOWEST, errs);
        (
            Some(Statement::Return(ReturnStatement { token: head, value: r.0 })),
            skip_end(ts, r.1),
            r.2,
        )
    }
}

/// `expression [END]`, starting at `pos`.
pub open spec fn parse_expr_stmt(ts: Seq<Token>, pos: int, errs: Seq<Seq<char>>) -> Parsed<
    Statement,
> {
    let r = parse_expr(ts, pos, LOWEST, errs);
    (
        Some(Statement::Expression(ExpressionStatement { token: tk(ts, pos), value: r.0 })),
        skip_end(ts, r.1),
        r.2,
    )
}

/// One statement starting at `pos`, chosen by its first token.
pub open spec fn parse_stmt(ts: Seq<Token>, pos: int, errs: Seq<Seq<char>>) -> Parsed<Statement> {
    let t = tk(ts, pos).ttype;
    if t == TokenType::RW_LET {
        parse_let(ts, pos, errs)
    } else if t == TokenType::RW_RETURN {
        parse_return(ts, pos, errs)
    } else {
        parse_expr_stmt(ts, pos, errs)
    }
}

/// The statements parsed from `pos` to the end of input and the error list
/// after them: stray statement ends are skipped, a statement that was
/// abandoned adds only its errors, and parsing always goes on.
pub open spec fn parse_prog(ts: Seq<Token>, pos: int, errs: Seq<Seq<char>>) -> (
    Seq<Statement>,
    Seq<Seq<char>>,
)
    decreases ts.len() - pos,
{
    if !(0 <= pos < ts.len()) || ts[pos].ttype == TokenType::META_EOF {
        (Seq::empty(), errs)
    } else if ts[pos].ttype == TokenType::DEL_END {
        if pos + 1 < ts.len() {
            parse_prog(ts, pos + 1, errs)
        } else {
            (Seq::empty(), errs)
        }
    } else {
        let r = parse_stmt(ts, pos, errs);
        let next = step(ts, r.1);
        let here = match r.0 {
            Some(st) => seq![st],
            None => Seq::empty(),
        };
        if pos < next < ts.len() {
            let rest = parse_prog(ts, next, r.2);
            (here + rest.0, rest.1)
        } else {
            (here, r.2)
        }
    }
}

/// The texts of an error list.
pub open spec fn err_texts(errors: Seq<String>) -> Seq<Seq<char>> {
    errors.map_values(|e: String| e@)
}

proof fn lemma_decimal_grows(s: Seq<char>, j: int, k: int)
    requires
        0 <= j <= k <= s.len(),
        all_digits(s),
    ensures
        0 <= decimal_value(s.subrange(0, j)) <= decimal_value(s.subrange(0, k)),
    decreases k,
{
    if k > 0 {
        assert(s.subrange(0, k).drop_last() =~= s.subrange(0, k - 1));
        assert(s.subrange(0, k).last() == s[k - 1]);
        if j < k {
            lemma_decimal_grows(s, j, k - 1);
        } else {
            lemma_decimal_grows(s, k - 1, k - 1);
        }
    }
}

/// Reads a decimal literal as a 32-bit signed integer.
fn parse_i32(lit: &String) -> (r: Result<i32, String>)
    ensures
        match r {
            Ok(v) => int_fits(lit@) && v as int == decimal_value(lit@),
            Err(m) => !int_fits(lit@) && m@ == int_error(lit@),
        },
{
    let cs = chars_of(lit.as_str());
    let n = cs.len();
    if n == 0 {
        return Err(String::from_str("cannot parse integer from empty string"));
    }
    let mut i: usize = 0;
    while i < n
        invariant
            n == cs@.len(),
            cs@ == lit@,
            i <= n,
            all_digits(cs@.subrange(0, i as int)),
        decreases n - i,
    {
        if !('0' <= cs[i] && cs[i] <= '9') {
            assert(cs@.subrange(0, n as int)[i as int] == cs@[i as int]);
            assert(cs@ =~= cs@.subrange(0, n as int));
            return Err(String::from_str("invalid digit found in string"));
        }
        assert(forall|j: int| 0 <= j < i + 1 ==> cs@.subrange(0, i + 1)[j] == cs@[j]);
        i = i + 1;
    }
    assert(cs@ =~= cs@.subrange(0, n as int));
    let mut acc: i64 = 0;
    let mut k: usize = 0;
    while k < n
        invariant
            n == cs@.len(),
            cs@ == lit@,
            all_digits(cs@),
            k <= n,
            0 <= acc <= i32::MAX,
            acc as int == decimal_value(cs@.subrange(0, k as int)),
        decreases n - k,
    {
        let d = (cs[k] as u32 - '0' as u32) as i64;
        assert(cs@.subrange(0, k + 1).drop_last() =~= cs@.subrange(0, k as int));
        acc = acc * 10 + d;
        if acc > i32::MAX as i64 {
            proof {
                lemma_decimal_grows(cs@, k + 1, n as int);
                assert(cs@ =~= cs@.subrange(0, n as int));
            }
            return Err(String::from_str("number too large to fit in target type"));
        }
        k = k + 1;
    }
    assert(cs@ =~= cs@.subrange(0, n as int));
    Ok(acc as i32)
}

fn precedence_of(ttype: TokenType) -> (r: u8)
    ensures
        r == prec_of(ttype),
{
    match ttype {
        TokenType::RW_OR => OR,
        TokenType::RW_AND => AND,
        TokenType::OP_EQ | TokenType::OP_NEQ => EQUALS,
        TokenType::OP_GT | TokenType::OP_GTE | TokenType::OP_LT | TokenType::OP_LTE => LESSGREATER,
        TokenType::OP_ADD | TokenType::OP_SUB => SUM,
        TokenType::OP_MUL | TokenType::OP_DIV | TokenType::OP_MOD => PRODUCT,
        TokenType::OP_POW => POW,
        TokenType::DEL_LPAREN => CALL,
        _ => LOWEST,
    }
}

fn has_infix_parse_fn(ttype: TokenType) -> (r: bool)
    ensures
        r == infix_op(ttype),
{
    match ttype {
        TokenType::RW_OR | TokenType::RW_AND | TokenType::OP_ADD | TokenType::OP_SUB
        | TokenType::OP_MUL | TokenType::OP_DIV | TokenType::OP_MOD | TokenType::OP_POW
        | TokenType::OP_EQ | TokenType::OP_NEQ | TokenType::OP_GT | TokenType::OP_GTE
        | TokenType::OP_LT | TokenType::OP_LTE => true,
        _ => false,
    }
}

fn is_prefix_op(ttype: TokenType) -> (r: bool)
    ensures
        r == prefix_op(ttype),
{
    ttype == TokenType::RW_NOT || ttype == TokenType::OP_NOT || ttype == TokenType::OP_ADD
        || ttype == TokenType::OP_SUB
}

fn is_atom(ttype: TokenType) -> (r: bool)
    ensures
        r == atom_type(ttype),
{
    match ttype {
        TokenType::LIT_IDENT | TokenType::LIT_BLANK | TokenType::LIT_INT | TokenType::LIT_FLOAT
        | TokenType::LIT_BOOL | TokenType::LIT_INF | TokenType::LIT_NAN | TokenType::LIT_NIL
        | TokenType::LIT_SYMBOL => true,
        _ => false,
    }
}

fn message3(a: &str, b: &str, c: &str) -> (r: String)
    ensures
        r@ == a@ + b@ + c@,
{
    let mut out = String::from_str(a);
    out.append(b);
    out.append(c);
    out
}

/// Builds the syntax tree of a source text, token by token, and collects
/// syntax errors on the way.
pub struct RoseParser {
    file_name: String,
    tokens: Vec<Token>,
    pos: usize,
    pub errors: Vec<String>,
}

impl RoseParser {
    /// The token sequence being parsed.
    pub closed spec fn tokens(&self) -> Seq<Token> {
        self.tokens@
    }

    /// The index of the current token.
    pub closed spec fn position(&self) -> int {
        self.pos as int
    }

    /// The texts of the errors recorded so far.
    pub closed spec fn error_list(&self) -> Seq<Seq<char>> {
        err_texts(self.errors@)
    }

    pub closed spec fn wf(&self) -> bool {
        &&& tokens_wf(self.tokens@)
        &&& self.pos < self.tokens@.len()
    }

    /// A parser over the tokens of `input`, at the first token, with no
    /// errors; `file_name` names the source.
    pub fn new(input: &str, file_name: String) -> (r: RoseParser)
        ensures
            r.wf(),
            tokens_wf(r.tokens()),
            r.position() == 0,
            r.error_list().len() == 0,
            r.source_name() == file_name@,
            forall|k: int|
                0 <= k < r.tokens().len() ==> token_at(
                    #[trigger] r.tokens()[k],
                    input@,
                    token_start(input@, k as nat),
                ),
    {
        let tokens = tokenize(input);
        RoseParser { file_name, tokens, pos: 0, errors: Vec::new() }
    }

    /// The errors recorded so far, oldest first.
    pub fn error_messages(&self) -> (r: &Vec<String>)
        ensures
            err_texts(r@) == self.error_list(),
    {
        &self.errors
    }

    /// The name of the source being parsed.
    pub closed spec fn source_name(&self) -> Seq<char> {
        self.file_name@
    }

    /// The name of the source being parsed.
    pub fn file_name(&self) -> (r: &String)
        ensures
            r@ == self.source_name(),
    {
        &self.file_name
    }

    fn next_token(&mut self)
        requires
            old(self).wf(),
        ensures
            final(self).wf(),
            final(self).tokens == old(self).tokens,
            final(self).errors == old(self).errors,
            final(self).pos == step(old(self).tokens@, old(self).pos as int),
    {
        if self.pos < self.tokens.len() - 1 {
            self.pos = self.pos + 1;
        }
    }

    fn peek_type(&self) -> (r: TokenType)
        requires
            self.wf(),
        ensures
            r == tk(self.tokens@, self.pos + 1).ttype,
    {
        if self.pos < self.tokens.len() - 1 {
            self.tokens[self.pos + 1].ttype
        } else {
            self.tokens[self.tokens.len() - 1].ttype
        }
    }

    fn peek_token_is(&self, ttype: TokenType) -> (r: bool)
        requires
            self.wf(),
        ensures
            r == (tk(self.tokens@, self.pos + 1).ttype == ttype),
    {
        self.peek_type() == ttype
    }

    fn push_error(&mut self, msg: String)
        ensures
            final(self).tokens == old(self).tokens,
            final(self).pos == old(self).pos,
            final(self).file_name == old(self).file_name,
            final(self).error_list() == old(self).error_list().push(msg@),
    {
        self.errors.push(msg);
        assert(err_texts(self.errors@) =~= err_texts(old(self).errors@).push(msg@));
    }

    fn peek_error(&mut self, ttype: TokenType)
        requires
            old(self).wf(),
        ensures
            final(self).wf(),
            final(self).tokens == old(self).tokens,
            final(self).pos == old(self).pos,
            final(self).error_list() == old(self).error_list().push(
                peek_msg(ttype, tk(old(self).tokens@, old(self).pos + 1).ttype),
            ),
    {
        let got = self.peek_type();
        let mut msg = message3("expected next token to be ", ttype.name(), ", got ");
        msg.append(got.name());
        msg.append(" instead");
        self.push_error(msg);
    }

    fn no_prefix_parse_fn_error(&mut self)
        requires
            old(self).wf(),
        ensures
            final(self).wf(),
            final(self).tokens == old(self).tokens,
            final(self).pos == old(self).pos,
            final(self).error_list() == old(self).error_list().push(
                no_prefix_msg(old(self).tokens@[old(self).pos as int].ttype),
            ),
    {
        let t = self.tokens[self.pos].ttype;
        let msg = message3("no prefix parse function for ", t.name(), " found");
        self.push_error(msg);
    }

    /// Moves to the next token if it has category `ttype` and says so;
    /// otherwise records an error and stays.
    pub fn expect_peek(&mut self, ttype: TokenType) -> (r: bool)
        requires
            old(self).wf(),
        ensures
            final(self).wf(),
            final(self).tokens() == old(self).tokens(),
            r == (tk(old(self).tokens(), old(self).position() + 1).ttype == ttype),
            r ==> final(self).position() == step(old(self).tokens(), old(self).position())
                && final(self).error_list() == old(self).error_list(),
            !r ==> final(self).position() == old(self).position() && final(self).error_list()
                == old(self).error_list().push(
                peek_msg(ttype, tk(old(self).tokens(), old(self).position() + 1).ttype),
            ),
    {
        if self.peek_token_is(ttype) {
            self.next_token();
            true
        } else {
            self.peek_error(ttype);
            false
        }
    }

    /// The expression that the current literal token forms on its own.
    fn parse_atom(&self) -> (r: Expression)
        requires
            self.wf(),
            atom_type(self.tokens@[self.pos as int].ttype),
            self.tokens@[self.pos as int].ttype != TokenType::LIT_INT,
        ensures
            r == atom_expr(self.tokens@[self.pos as int]),
    {
        let t = self.tokens[self.pos].duplicate();
        match t.ttype {
            TokenType::LIT_IDENT => {
                let value = t.literal.clone();
                Expression::Identifier(Identifier::new(t, value))
            },
            TokenType::LIT_BLANK => Expression::Blank(Blank::new(t)),
            TokenType::LIT_FLOAT => Expression::Float(FloatLiteral::new(t)),
            TokenType::LIT_BOOL => {
                let value = str_eq(t.literal.as_str(), "true");
                Expression::Boolean(BooleanLiteral::new(t, value))
            },
            TokenType::LIT_INF => Expression::Inf(Inf::new(t)),
            TokenType::LIT_NAN => Expression::NaN(NaN::new(t)),
            TokenType::LIT_NIL => Expression::Nil(Nil::new(t)),
            _ => Expression::Symbol(Symbol::new(t)),
        }
    }

    /// Parses an expression at the current token; operators that bind no
    /// tighter than `precedence` are left to the caller.
    fn parse_expression_with_precedence(&mut self, precedence: u8) -> (r: Option<Box<Expression>>)
        requires
            old(self).wf(),
        ensures
            final(self).wf(),
            final(self).tokens@ == old(self).tokens@,
            old(self).pos <= final(self).pos,
            (r, final(self).pos as int, final(self).error_list()) == parse_expr(
                old(self).tokens@,
                old(self).pos as int,
                precedence,
                old(self).error_list(),
            ),
        decreases old(self).tokens@.len() - old(self).pos,
    {
        let ghost ts = self.tokens@;
        let ghost pos0 = self.pos as int;
        let ghost goal = parse_expr(ts, pos0, precedence, self.error_list());
        let ttype = self.tokens[self.pos].ttype;
        let mut left: Expression;
        if is_prefix_op(ttype) {
            let token = self.tokens[self.pos].duplicate();
            self.next_token();
            let value = self.parse_expression_with_precedence(PREFIX);
            left = Expression::Prefix(PrefixExpression::new(token, value));
        } else if ttype == TokenType::LIT_INT {
            let token = self.tokens[self.pos].duplicate();
            match parse_i32(&token.literal) {
                Ok(v) => {
                    left = Expression::Integer(IntegerLiteral::new(token, v));
                },
                Err(msg) => {
                    self.push_error(msg);
                    return None;
                },
            }
        } else if is_atom(ttype) {
            left = self.parse_atom();
        } else {
            self.no_prefix_parse_fn_error();
            return None;
        }
        assert(infix_loop(ts, self.pos as int, precedence, left, self.error_list()) == goal);
        while self.tokens.len() - self.pos > 2 && self.peek_type() != TokenType::DEL_END
            && precedence < precedence_of(self.peek_type()) && has_infix_parse_fn(self.peek_type())
            invariant
                self.wf(),
                self.tokens@ == ts,
                ts == old(self).tokens@,
                pos0 == old(self).pos,
                pos0 <= self.pos,
                infix_loop(ts, self.pos as int, precedence, left, self.error_list()) == goal,
            decreases ts.len() - self.pos,
        {
            let op = self.tokens[self.pos + 1].duplicate();
            let p = precedence_of(op.ttype);
            self.next_token();
            self.next_token();
            let right = self.parse_expression_with_precedence(p);
            left = Expression::Infix(InfixExpression::new(op, Some(Box::new(left)), right));
        }
        Some(Box::new(left))
    }

    /// Consumes a statement end that follows the current token.
    fn skip_end(&mut self)
        requires
            old(self).wf(),
        ensures
            final(self).wf(),
            final(self).tokens == old(self).tokens,
            final(self).errors == old(self).errors,
            final(self).pos == skip_end(old(self).tokens@, old(self).pos as int),
    {
        if self.peek_token_is(TokenType::DEL_END) {
            self.next_token();
        }
    }

    fn current_identifier(&self) -> (r: Identifier)
        requires
            self.wf(),
        ensures
            r == ident_of(self.tokens@[self.pos as int]),
    {
        let t = self.tokens[self.pos].duplicate();
        let value = t.literal.clone();
        Identifier::new(t, value)
    }

    fn parse_let_statement(&mut self) -> (r: Option<Statement>)
        requires
            old(self).wf(),
        ensures
            final(self).wf(),
            final(self).tokens@ == old(self).tokens@,
            old(self).pos <= final(self).pos,
            (r, final(self).pos as int, final(self).error_list()) == parse_let(
                old(self).tokens@,
                old(self).pos as int,
                old(self).error_list(),
            ),
    {
        let token = self.tokens[self.pos].duplicate();
        let battr: Option<Token>;
        if self.peek_token_is(TokenType::RW_MUT) {
            self.next_token();
            battr = Some(self.tokens[self.pos].duplicate());
        } else {
            battr = None;
        }
        if !self.expect_peek(TokenType::LIT_IDENT) {
            return None;
        }
        let name = self.current_identifier();
        let btype: Option<Identifier>;
        if self.peek_token_is(TokenType::DEL_COLON) {
            self.next_token();
            if !self.expect_peek(TokenType::LIT_IDENT) {
                return None;
            }
            btype = Some(self.current_identifier());
        } else {
            btype = None;
        }
        let value: Option<Box<Expression>>;
        if self.peek_token_is(TokenType::OP_ASSIGN) {
            self.next_token();
            self.next_token();
            value = self.parse_expression_with_precedence(LOWEST);
        } else {
            value = None;
        }
        self.skip_end();
        Some(Statement::Let(LetStatement::new(token, battr, name, btype, value)))
    }

    fn parse_return_statement(&mut self) -> (r: Option<Statement>)
        requires
            old(self).wf(),
        ensures
            final(self).wf(),
            final(self).tokens@ == old(self).tokens@,
            old(self).pos <= final(self).pos,
            (r, final(self).pos as int, final(self).error_list()) == parse_return(
                old(self).tokens@,
                old(self).pos as int,
                old(self).error_list(),
            ),
    {
        let token = self.tokens[self.pos].duplicate();
        let next = self.peek_type();
        let value: Option<Box<Expression>>;
        if next == TokenType::DEL_END || next == TokenType::META_EOF {
            value = None;
        } else {
            self.next_token();
            value = self.parse_expression_with_precedence(LOWEST);
        }
        self.skip_end();
        Some(Statement::Return(ReturnStatement::new(token, value)))
    }

    fn parse_expression_statement(&mut self) -> (r: Option<Statement>)
        requires
            old(self).wf(),
        ensures
            final(self).wf(),
            final(self).tokens@ == old(self).tokens@,
            old(self).pos <= final(self).pos,
            (r, final(self).pos as int, final(self).error_list()) == parse_expr_stmt(
                old(self).tokens@,
                old(self).pos as int,
                old(self).error_list(),
            ),
    {
        let token = self.tokens[self.pos].duplicate();
        let value = self.parse_expression_with_precedence(LOWEST);
        self.skip_end();
        Some(Statement::Expression(ExpressionStatement::new(token, value)))
    }

    /// Parses one statement at the current token: `let`, `return`, or an
    /// expression statement. `None` when the statement was abandoned.
    pub fn parse_statement(&mut self) -> (r: Option<Statement>)
        requires
            old(self).wf(),
        ensures
            final(self).wf(),
            final(self).tokens() == old(self).tokens(),
            old(self).position() <= final(self).position(),
            (r, final(self).position(), final(self).error_list()) == parse_stmt(
                old(self).tokens(),
                old(self).position(),
                old(self).error_list(),
            ),
    {
        let t = self.tokens[self.pos].ttype;
        if t == TokenType::RW_LET {
            self.parse_let_statement()
        } else if t == TokenType::RW_RETURN {
            self.parse_return_statement()
        } else {
            self.parse_expression_statement()
        }
    }

    /// Parses an expression at the current token, folding in every infix
    /// operator that follows it.
    pub fn parse_expression(&mut self) -> (r: Option<Box<Expression>>)
        requires
            old(self).wf(),
        ensures
            final(self).wf(),
            final(self).tokens() == old(self).tokens(),
            (r, final(self).position(), final(self).error_list()) == parse_expr(
                old(self).tokens(),
                old(self).position(),
                LOWEST,
                old(self).error_list(),
            ),
    {
        self.parse_expression_with_precedence(LOWEST)
    }

    /// Parses statements up to the end of input. Stray statement ends are
    /// skipped, an abandoned statement leaves only its errors, and parsing
    /// never stops early.
    pub fn parse_program(&mut self) -> (r: Program)
        requires
            old(self).wf(),
        ensures
            final(self).wf(),
            final(self).tokens() == old(self).tokens(),
            (r.statements@, final(self).error_list()) == parse_prog(
                old(self).tokens(),
                old(self).position(),
                old(self).error_list(),
            ),
    {
        let ghost ts = self.tokens@;
        let ghost goal = parse_prog(ts, self.pos as int, self.error_list());
        let mut program = Program::new();
        while self.tokens[self.pos].ttype != TokenType::META_EOF
            invariant
                self.wf(),
                self.tokens@ == ts,
                ts == old(self).tokens@,
                goal == (program.statements@ + parse_prog(ts, self.pos as int, self.error_list()).0,
                    parse_prog(ts, self.pos as int, self.error_list()).1),
            decreases ts.len() - self.pos,
        {
            let ghost before = program.statements@;
            let ghost p0 = self.pos as int;
            let ghost e0 = self.error_list();
            if self.tokens[self.pos].ttype == TokenType::DEL_END {
                self.next_token();
                continue;
            }
            let st = self.parse_statement();
            match st {
                Some(s) => {
                    program.statements.push(s);
                },
                None => {},
            }
            self.next_token();
            proof {
                let r = parse_stmt(ts, p0, e0);
                let here = match r.0 {
                    Some(x) => seq![x],
                    None => Seq::<Statement>::empty(),
                };
                assert(program.statements@ =~= before + here);
                let rest = parse_prog(ts, self.pos as int, self.error_list());
                assert(before + here + rest.0 =~= before + (here + rest.0));
            }
        }
        assert(program.statements@ + Seq::<Statement>::empty() =~= program.statements@);
        program
    }
}

} // verus!
