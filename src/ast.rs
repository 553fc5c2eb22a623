//! The syntax tree: a closed set of expression and statement variants, each
//! owning its children, each with a canonical, fully parenthesised text.
use vstd::prelude::*;
use crate::token::Token;

verus! {

/// The kind of a node.
#[allow(non_camel_case_types)]
#[derive(Debug, Clone, Copy, PartialEq, Eq, Structural)]
pub enum NodeType {
    PROGRAM,
    LET,
    EXPRESSION,
    RETURN,
    BLANK,
    BOOLEAN,
    FLOAT,
    IDENT,
    INF,
    INTEGER,
    NAN,
    NIL,
    SYMBOL,
    PREFIX,
    INFIX,
}

/// A name; it prints as its value.
#[derive(Debug)]
pub struct Identifier {
    pub token: Token,
    pub value: String,
}

impl Identifier {
    pub fn new(token: Token, value: String) -> (r: Identifier)
        ensures
            r.token == token,
            r.value == value,
    {
        Identifier { token, value }
    }

    pub fn to_string(&self) -> (r: String)
        ensures
            r@ == self.value@,
    {
        self.value.clone()
    }

    pub fn token_literal(&self) -> (r: Option<String>)
        ensures
            r is Some && r->Some_0@ == self.token.literal@,
    {
        Some(self.token.literal.clone())
    }
}

/// The discard placeholder `_`.
#[derive(Debug)]
pub struct Blank {
    pub token: Token,
}

impl Blank {
    pub fn new(token: Token) -> (r: Blank)
        ensures
            r.token == token,
    {
        Blank { token }
    }

    pub fn to_string(&self) -> (r: String)
        ensures
            r@ == self.token.literal@,
    {
        self.token.literal.clone()
    }

    pub fn token_literal(&self) -> (r: Option<String>)
        ensures
            r is Some && r->Some_0@ == self.token.literal@,
    {
        Some(self.token.literal.clone())
    }
}

/// A 32-bit signed integer literal.
#[derive(Debug)]
pub struct IntegerLiteral {
    pub token: Token,
    pub value: i32,
}

impl IntegerLiteral {
    pub fn new(token: Token, value: i32) -> (r: IntegerLiteral)
        ensures
            r.token == token,
            r.value == value,
    {
        IntegerLiteral { token, value }
    }

    pub fn to_string(&self) -> (r: String)
        ensures
            r@ == self.token.literal@,
    {
        self.token.literal.clone()
    }

    pub fn token_literal(&self) -> (r: Option<String>)
        ensures
            r is Some && r->Some_0@ == self.token.literal@,
    {
        Some(self.token.literal.clone())
    }
}

/// A floating-point literal, kept as its source text.
#[derive(Debug)]
pub struct FloatLiteral {
    pub token: Token,
}

impl FloatLiteral {
    pub fn new(token: Token) -> (r: FloatLiteral)
        ensures
            r.token == token,
    {
        FloatLiteral { token }
    }

    pub fn to_string(&self) -> (r: String)
        ensures
            r@ == self.token.literal@,
    {
        self.token.literal.clone()
    }

    pub fn token_literal(&self) -> (r: Option<String>)
        ensures
            r is Some && r->Some_0@ == self.token.literal@,
    {
        Some(self.token.literal.clone())
    }
}

/// `true` or `false`.
#[derive(Debug)]
pub struct BooleanLiteral {
    pub token: Token,
    pub value: bool,
}

impl BooleanLiteral {
    pub fn new(token: Token, value: bool) -> (r: BooleanLiteral)
        ensures
            r.token == token,
            r.value == value,
    {
        BooleanLiteral { token, value }
    }

    pub fn to_string(&self) -> (r: String)
        ensures
            r@ == self.token.literal@,
    {
        self.token.literal.clone()
    }

    pub fn token_literal(&self) -> (r: Option<String>)
        ensures
            r is Some && r->Some_0@ == self.token.literal@,
    {
        Some(self.token.literal.clone())
    }
}

/// The literal `Inf`.
#[derive(Debug)]
pub struct Inf {
    pub token: Token,
}

impl Inf {
    pub fn new(token: Token) -> (r: Inf)
        ensures
            r.token == token,
    {
        Inf { token }
    }

    pub fn to_string(&self) -> (r: String)
        ensures
            r@ == self.token.literal@,
    {
        self.token.literal.clone()
    }

    pub fn token_literal(&self) -> (r: Option<String>)
        ensures
            r is Some && r->Some_0@ == self.token.literal@,
    {
        Some(self.token.literal.clone())
    }
}

/// The literal `NaN`.
#[derive(Debug)]
pub struct NaN {
    pub token: Token,
}

impl NaN {
    pub fn new(token: Token) -> (r: NaN)
        ensures
            r.token == token,
    {
        NaN { token }
    }

    pub fn to_string(&self) -> (r: String)
        ensures
            r@ == self.token.literal@,
    {
        self.token.literal.clone()
    }

    pub fn token_literal(&self) -> (r: Option<String>)
        ensures
            r is Some && r->Some_0@ == self.token.literal@,
    {
        Some(self.token.literal.clone())
    }
}

/// The literal `nil`.
#[derive(Debug)]
pub struct Nil {
    pub token: Token,
}

impl Nil {
    pub fn new(token: Token) -> (r: Nil)
        ensures
            r.token == token,
    {
        Nil { token }
    }

    pub fn to_string(&self) -> (r: String)
        ensures
            r@ == self.token.literal@,
    {
        self.token.literal.clone()
    }

    pub fn token_literal(&self) -> (r: Option<String>)
        ensures
            r is Some && r->Some_0@ == self.token.literal@,
    {
        Some(self.token.literal.clone())
    }
}

/// A symbol `:name`; its value is the whole literal.
#[derive(Debug)]
pub struct Symbol {
    pub token: Token,
    pub value: String,
}

impl Symbol {
    pub fn new(token: Token) -> (r: Symbol)
        ensures
            r.token == token,
            r.value == token.literal,
    {
        let value = token.literal.clone();
        Symbol { token, value }
    }

    pub fn to_string(&self) -> (r: String)
        ensures
            r@ == self.value@,
    {
        self.value.clone()
    }

    pub fn token_literal(&self) -> (r: Option<String>)
        ensures
            r is Some && r->Some_0@ == self.token.literal@,
    {
        Some(self.token.literal.clone())
    }
}

/// A unary operator applied to an operand; the operand is absent only when
/// it failed to parse.
#[derive(Debug)]
pub struct PrefixExpression {
    pub token: Token,
    pub operator: String,
    pub value: Option<Box<Expression>>,
}

impl PrefixExpression {
    pub fn new(token: Token, value: Option<Box<Expression>>) -> (r: PrefixExpression)
        ensures
            r.token == token,
            r.operator == token.literal,
            r.value == value,
    {
        let operator = token.literal.clone();
        PrefixExpression { token, operator, value }
    }
}

/// A binary operator between two operands; an operand is absent only when
/// it failed to parse.
#[derive(Debug)]
pub struct InfixExpression {
    pub token: Token,
    pub left: Option<Box<Expression>>,
    pub operator: String,
    pub right: Option<Box<Expression>>,
}

impl InfixExpression {
    pub fn new(token: Token, left: Option<Box<Expression>>, right: Option<Box<Expression>>) -> (r:
        InfixExpression)
        ensures
            r.token == token,
            r.left == left,
            r.operator == token.literal,
            r.right == right,
    {
        let operator = token.literal.clone();
        InfixExpression { token, left, operator, right }
    }
}

/// The closed set of expressions.
#[derive(Debug)]
pub enum Expression {
    Identifier(Identifier),
    Blank(Blank),
    Integer(IntegerLiteral),
    Float(FloatLiteral),
    Boolean(BooleanLiteral),
    Inf(Inf),
    NaN(NaN),
    Nil(Nil),
    Symbol(Symbol),
    Prefix(PrefixExpression),
    Infix(InfixExpression),
}

/// The canonical text of an expression: literals print their source text,
/// a prefix expression prints as `(op value)`, an infix one as
/// `(left op right)`.
pub open spec fn expr_text(e: Expression) -> Seq<char>
    decreases e,
{
    match e {
        Expression::Identifier(x) => x.value@,
        Expression::Blank(x) => x.token.literal@,
        Expression::Integer(x) => x.token.literal@,
        Expression::Float(x) => x.token.literal@,
        Expression::Boolean(x) => x.token.literal@,
        Expression::Inf(x) => x.token.literal@,
        Expression::NaN(x) => x.token.literal@,
        Expression::Nil(x) => x.token.literal@,
        Expression::Symbol(x) => x.value@,
        Expression::Prefix(x) => "("@ + x.operator@ + match x.value {
            Some(v) => expr_text(*v),
            None => Seq::empty(),
        } + ")"@,
        Expression::Infix(x) => "("@ + match x.left {
            Some(l) => expr_text(*l) + " "@,
            None => Seq::empty(),
        } + x.operator@ + " "@ + match x.right {
            Some(r) => expr_text(*r),
            None => Seq::empty(),
        } + ")"@,
    }
}

/// The text of an optional expression; nothing when it is absent.
pub open spec fn opt_text(e: Option<Box<Expression>>) -> Seq<char> {
    match e {
        Some(v) => expr_text(*v),
        None => Seq::empty(),
    }
}

pub open spec fn expr_token(e: Expression) -> Token {
    match e {
        Expression::Identifier(x) => x.token,
        Expression::Blank(x) => x.token,
        Expression::Integer(x) => x.token,
        Expression::Float(x) => x.token,
        Expression::Boolean(x) => x.token,
        Expression::Inf(x) => x.token,
        Expression::NaN(x) => x.token,
        Expression::Nil(x) => x.token,
        Expression::Symbol(x) => x.token,
        Expression::Prefix(x) => x.token,
        Expression::Infix(x) => x.token,
    }
}

fn append_text(out: &mut String, e: &Option<Box<Expression>>)
    ensures
        final(out)@ == old(out)@ + opt_text(*e),
    decreases e,
{
    match e {
        Some(v) => {
            let t = v.to_string();
            out.append(t.as_str());
        },
        None => {},
    }
}

impl Expression {
    /// The canonical text of this expression.
    pub fn to_string(&self) -> (r: String)
        ensures
            r@ == expr_text(*self),
        decreases self,
    {
        match self {
            Expression::Identifier(x) => x.to_string(),
            Expression::Blank(x) => x.to_string(),
            Expression::Integer(x) => x.to_string(),
            Expression::Float(x) => x.to_string(),
            Expression::Boolean(x) => x.to_string(),
            Expression::Inf(x) => x.to_string(),
            Expression::NaN(x) => x.to_string(),
            Expression::Nil(x) => x.to_string(),
            Expression::Symbol(x) => x.to_string(),
            Expression::Prefix(x) => {
                let mut out = String::from_str("(");
                out.append(x.operator.as_str());
                append_text(&mut out, &x.value);
                out.append(")");
                out
            },
            Expression::Infix(x) => {
                let mut out = String::from_str("(");
                match &x.left {
                    Some(l) => {
                        let t = l.to_string();
                        out.append(t.as_str());
                        out.append(" ");
                    },
                    None => {},
                }
                out.append(x.operator.as_str());
                out.append(" ");
                append_text(&mut out, &x.right);
                out.append(")");
                out
            },
        }
    }

    /// The literal of the token the expression was built from.
    pub fn token_literal(&self) -> (r: Option<String>)
        ensures
            r is Some && r->Some_0@ == expr_token(*self).literal@,
    {
        let t = match self {
            Expression::Identifier(x) => &x.token,
            Expression::Blank(x) => &x.token,
            Expression::Integer(x) => &x.token,
            Expression::Float(x) => &x.token,
            Expression::Boolean(x) => &x.token,
            Expression::Inf(x) => &x.token,
            Expression::NaN(x) => &x.token,
            Expression::Nil(x) => &x.token,
            Expression::Symbol(x) => &x.token,
            Expression::Prefix(x) => &x.token,
            Expression::Infix(x) => &x.token,
        };
        Some(t.literal.clone())
    }

    pub fn node_type(&self) -> (r: NodeType)
        ensures
            r == (match *self {
                Expression::Identifier(_) => NodeType::IDENT,
                Expression::Blank(_) => NodeType::BLANK,
                Expression::Integer(_) => NodeType::INTEGER,
                Expression::Float(_) => NodeType::FLOAT,
                Expression::Boolean(_) => NodeType::BOOLEAN,
                Expression::Inf(_) => NodeType::INF,
                Expression::NaN(_) => NodeType::NAN,
                Expression::Nil(_) => NodeType::NIL,
                Expression::Symbol(_) => NodeType::SYMBOL,
                Expression::Prefix(_) => NodeType::PREFIX,
                Expression::Infix(_) => NodeType::INFIX,
            }),
    {
        match self {
            Expression::Identifier(_) => NodeType::IDENT,
            Expression::Blank(_) => NodeType::BLANK,
            Expression::Integer(_) => NodeType::INTEGER,
            Expression::Float(_) => NodeType::FLOAT,
            Expression::Boolean(_) => NodeType::BOOLEAN,
            Expression::Inf(_) => NodeType::INF,
            Expression::NaN(_) => NodeType::NAN,
            Expression::Nil(_) => NodeType::NIL,
            Expression::Symbol(_) => NodeType::SYMBOL,
            Expression::Prefix(_) => NodeType::PREFIX,
            Expression::Infix(_) => NodeType::INFIX,
        }
    }
}

/// `let [mut] name [: Type] [= value];`
#[derive(Debug)]
pub struct LetStatement {
    pub token: Token,
    pub battr: Option<Token>,
    pub name: Identifier,
    pub btype: Option<Identifier>,
    pub value: Option<Box<Expression>>,
}

impl LetStatement {
    pub fn new(
        token: Token,
        battr: Option<Token>,
        name: Identifier,
        btype: Option<Identifier>,
        value: Option<Box<Expression>>,
    ) -> (r: LetStatement)
        ensures
            r.token == token,
            r.battr == battr,
            r.name == name,
            r.btype == btype,
            r.value == value,
    {
        LetStatement { token, battr, name, btype, value }
    }
}

/// `return [value];`
#[derive(Debug)]
pub struct ReturnStatement {
    pub token: Token,
    pub value: Option<Box<Expression>>,
}

impl ReturnStatement {
    pub fn new(token: Token, value: Option<Box<Expression>>) -> (r: ReturnStatement)
        ensures
            r.token == token,
            r.value == value,
    {
        ReturnStatement { token, value }
    }
}

/// An expression used as a statement; the value is absent only when it
/// failed to parse.
#[derive(Debug)]
pub struct ExpressionStatement {
    pub token: Token,
    pub value: Option<Box<Expression>>,
}

impl ExpressionStatement {
    pub fn new(token: Token, value: Option<Box<Expression>>) -> (r: ExpressionStatement)
        ensures
            r.token == token,
            r.value == value,
    {
        ExpressionStatement { token, value }
    }
}

/// The closed set of statements.
#[derive(Debug)]
pub enum Statement {
    Let(LetStatement),
    Return(ReturnStatement),
    Expression(ExpressionStatement),
}

/// The canonical text of a statement: `let [mut ]name[: Type][ = value];`,
/// `return[ value];`, or the value followed by `;` (nothing when the value
/// is absent).
pub open spec fn stmt_text(s: Statement) -> Seq<char> {
    match s {
        Statement::Let(x) => x.token.literal@ + " "@ + match x.battr {
            Some(t) => t.literal@ + " "@,
            None => Seq::empty(),
        } + x.name.value@ + match x.btype {
            Some(t) => ": "@ + t.value@,
            None => Seq::empty(),
        } + match x.value {
            Some(v) => " = "@ + expr_text(*v),
            None => Seq::empty(),
        } + ";"@,
        Statement::Return(x) => x.token.literal@ + match x.value {
            Some(v) => " "@ + expr_text(*v),
            None => Seq::empty(),
        } + ";"@,
        Statement::Expression(x) => match x.value {
            Some(v) => expr_text(*v) + ";"@,
            None => Seq::empty(),
        },
    }
}

pub open spec fn stmt_token(s: Statement) -> Token {
    match s {
        Statement::Let(x) => x.token,
        Statement::Return(x) => x.token,
        Statement::Expression(x) => x.token,
    }
}

impl LetStatement {
    pub fn to_string(&self) -> (r: String)
        ensures
            r@ == stmt_text(Statement::Let(*self)),
    {
        let mut out = self.token.literal.clone();
        out.append(" ");
        match &self.battr {
            Some(t) => {
                out.append(t.literal.as_str());
                out.append(" ");
            },
            None => {},
        }
        out.append(self.name.value.as_str());
        match &self.btype {
            Some(t) => {
                out.append(": ");
                out.append(t.value.as_str());
            },
            None => {},
        }
        match &self.value {
            Some(v) => {
                out.append(" = ");
                let t = v.to_string();
                out.append(t.as_str());
            },
            None => {},
        }
        out.append(";");
        out
    }
}

impl ReturnStatement {
    pub fn to_string(&self) -> (r: String)
        ensures
            r@ == stmt_text(Statement::Return(*self)),
    {
        let mut out = self.token.literal.clone();
        match &self.value {
            Some(v) => {
                out.append(" ");
                let t = v.to_string();
                out.append(t.as_str());
            },
            None => {},
        }
        out.append(";");
        out
    }
}

impl ExpressionStatement {
    pub fn to_string(&self) -> (r: String)
        ensures
            r@ == stmt_text(Statement::Expression(*self)),
    {
        match &self.value {
            Some(v) => {
                let mut out = v.to_string();
                out.append(";");
                out
            },
            None => String::new(),
        }
    }
}

impl Statement {
    /// The canonical text of this statement.
    pub fn to_string(&self) -> (r: String)
        ensures
            r@ == stmt_text(*self),
    {
        match self {
            Statement::Let(x) => x.to_string(),
            Statement::Return(x) => x.to_string(),
            Statement::Expression(x) => x.to_string(),
        }
    }

    /// The literal of the statement's first token.
    pub fn token_literal(&self) -> (r: Option<String>)
        ensures
            r is Some && r->Some_0@ == stmt_token(*self).literal@,
    {
        let t = match self {
            Statement::Let(x) => &x.token,
            Statement::Return(x) => &x.token,
            Statement::Expression(x) => &x.token,
        };
        Some(t.literal.clone())
    }

    pub fn node_type(&self) -> (r: NodeType)
        ensures
            r == (match *self {
                Statement::Let(_) => NodeType::LET,
                Statement::Return(_) => NodeType::RETURN,
                Statement::Expression(_) => NodeType::EXPRESSION,
            }),
    {
        match self {
            Statement::Let(_) => NodeType::LET,
            Statement::Return(_) => NodeType::RETURN,
            Statement::Expression(_) => NodeType::EXPRESSION,
        }
    }
}

/// The text of a statement sequence: each statement's text, in order, with
/// no separator.
pub open spec fn stmts_text(s: Seq<Statement>) -> Seq<char>
    decreases s.len(),
{
    if s.len() == 0 {
        Seq::empty()
    } else {
        stmts_text(s.drop_last()) + stmt_text(s.last())
    }
}

/// The root: statements in source order.
#[derive(Debug)]
pub struct Program {
    pub statements: Vec<Statement>,
}

impl Program {
    pub fn new() -> (r: Program)
        ensures
            r.statements@.len() == 0,
    {
        Program { statements: Vec::new() }
    }

    /// The concatenated text of all statements.
    pub fn to_string(&self) -> (r: String)
        ensures
            r@ == stmts_text(self.statements@),
    {
        let mut out = String::new();
        let mut i: usize = 0;
        while i < self.statements.len()
            invariant
                i <= self.statements@.len(),
                out@ == stmts_text(self.statements@.subrange(0, i as int)),
            decreases self.statements@.len() - i,
        {
            let t = self.statements[i].to_string();
            out.append(t.as_str());
            assert(self.statements@.subrange(0, i + 1).drop_last() =~= self.statements@.subrange(
                0,
                i as int,
            ));
            i = i + 1;
        }
        assert(self.statements@.subrange(0, i as int) =~= self.statements@);
        out
    }

    /// The first statement's token literal, if there is a statement.
    pub fn token_literal(&self) -> (r: Option<String>)
        ensures
            self.statements@.len() == 0 ==> r is None,
            self.statements@.len() > 0 ==> r is Some && r->Some_0@ == stmt_token(
                self.statements@[0],
            ).literal@,
    {
        if self.statements.len() > 0 {
            self.statements[0].token_literal()
        } else {
            None
        }
    }

    pub fn node_type(&self) -> (r: NodeType)
        ensures
            r == NodeType::PROGRAM,
    {
        NodeType::PROGRAM
    }
}

} // verus!
