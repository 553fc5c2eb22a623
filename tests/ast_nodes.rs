use rose::ast::{
    Blank, BooleanLiteral, Expression, ExpressionStatement, FloatLiteral, Identifier, Inf,
    InfixExpression, IntegerLiteral, LetStatement, NaN, Nil, PrefixExpression, Program,
    ReturnStatement, Statement, Symbol,
};
use rose::token::{Token, TokenType};

fn ident(name: &str, line: usize, col: usize) -> Identifier {
    Identifier::new(Token::new(TokenType::LIT_IDENT, name.to_string(), line, col), name.to_string())
}

#[test]
fn infix_test_to_string() {
    let ie: InfixExpression = InfixExpression::new(
        Token::new(TokenType::LIT_IDENT, "+".to_string(), 1, 5),
        Some(Box::new(Expression::Identifier(ident("foo", 1, 1)))),
        Some(Box::new(Expression::Identifier(ident("bar", 1, 7)))),
    );
    assert_eq!("(foo + bar)", Expression::Infix(ie).to_string());
}

#[test]
fn prefix_test_to_string() {
    let pe: PrefixExpression = PrefixExpression::new(
        Token::new(TokenType::OP_ADD, "!".to_string(), 1, 1),
        Some(Box::new(Expression::Identifier(ident("foo", 1, 2)))),
    );
    assert_eq!("(!foo)", Expression::Prefix(pe).to_string());
}

#[test]
fn blank_test_to_string() {
    let blank: Blank = Blank::new(Token::new(TokenType::LIT_BLANK, "_".to_string(), 1, 1));
    assert_eq!("_", blank.to_string());
}

#[test]
fn boolean_test_to_string() {
    let bl: BooleanLiteral =
        BooleanLiteral::new(Token::new(TokenType::LIT_BOOL, "true".to_string(), 1, 1), true);
    assert_eq!("true".to_string(), bl.to_string());
    let bl: BooleanLiteral =
        BooleanLiteral::new(Token::new(TokenType::LIT_BOOL, "false".to_string(), 1, 1), false);
    assert_eq!("false".to_string(), bl.to_string());
}

#[test]
fn float_test_to_string() {
    let fl: FloatLiteral = FloatLiteral::new(Token::new(TokenType::LIT_FLOAT, "5.5".to_string(), 1, 1));
    assert_eq!("5.5", fl.to_string());
}

#[test]
fn ident_test_to_string() {
    let ident: Identifier = Identifier::new(
        Token::new(TokenType::LIT_IDENT, "foo".to_string(), 1, 1),
        "foo".to_string(),
    );
    assert_eq!("foo".to_string(), ident.to_string());
}

#[test]
fn inf_test_to_string() {
    let inf: Inf = Inf::new(Token::new(TokenType::LIT_INF, "Inf".to_string(), 1, 1));
    assert_eq!("Inf", inf.to_string());
}

#[test]
fn integer_test_to_string() {
    let il: IntegerLiteral =
        IntegerLiteral::new(Token::new(TokenType::LIT_INT, "5".to_string(), 1, 1), 5);
    assert_eq!("5", il.to_string());
}

#[test]
fn nan_test_to_string() {
    let nan: NaN = NaN::new(Token::new(TokenType::LIT_NAN, "NaN".to_string(), 1, 1));
    assert_eq!("NaN".to_string(), nan.to_string());
}

#[test]
fn nil_test_to_string() {
    let nl: Nil = Nil::new(Token::new(TokenType::LIT_NIL, "nil".to_string(), 1, 1));
    assert_eq!("nil", nl.to_string());
}

#[test]
fn symbol_test_to_string() {
    let sym: Symbol = Symbol::new(Token::new(TokenType::LIT_SYMBOL, ":foo".to_string(), 1, 1));
    assert_eq!(":foo", sym.to_string());
}

fn five(col: usize) -> Option<Box<Expression>> {
    Some(Box::new(Expression::Integer(IntegerLiteral::new(
        Token::new(TokenType::LIT_INT, "5".to_string(), 1, col),
        5,
    ))))
}

#[test]
fn binding_test_to_string() {
    let ls: LetStatement = LetStatement::new(
        Token::new(TokenType::RW_LET, "let".to_string(), 1, 1),
        Some(Token::new(TokenType::RW_MUT, "mut".to_string(), 1, 5)),
        ident("foo", 1, 9),
        Some(ident("Int", 1, 14)),
        five(20),
    );
    assert_eq!("let mut foo: Int = 5;", ls.to_string());
    let ls: LetStatement = LetStatement::new(
        Token::new(TokenType::RW_LET, "let".to_string(), 1, 1),
        None,
        ident("foo", 1, 5),
        Some(ident("Int", 1, 10)),
        five(16),
    );
    assert_eq!("let foo: Int = 5;", ls.to_string());
    let ls: LetStatement = LetStatement::new(
        Token::new(TokenType::RW_LET, "let".to_string(), 1, 1),
        None,
        ident("foo", 1, 5),
        None,
        five(11),
    );
    assert_eq!("let foo = 5;", ls.to_string());
    let ls: LetStatement = LetStatement::new(
        Token::new(TokenType::RW_LET, "let".to_string(), 1, 1),
        None,
        ident("foo", 1, 5),
        None,
        None,
    );
    assert_eq!("let foo;", ls.to_string());
}

#[test]
fn expression_test_to_string() {
    let es: ExpressionStatement = ExpressionStatement::new(
        Token::new(TokenType::LIT_IDENT, "foo".to_string(), 1, 1),
        Some(Box::new(Expression::Identifier(ident("foo", 1, 1)))),
    );
    assert_eq!("foo;", es.to_string());
}

#[test]
fn ret_test_to_string() {
    let rs = ReturnStatement::new(
        Token::new(TokenType::RW_RETURN, "return".to_string(), 1, 1),
        Some(Box::new(Expression::Identifier(ident("foo", 1, 8)))),
    );
    assert_eq!("return foo;", rs.to_string());
}

#[test]
fn test_integer_literal_to_string() {
    let il = IntegerLiteral::new(Token::new(TokenType::LIT_INT, "5".to_string(), 1, 1), 5);
    assert_eq!("5", Expression::Integer(il).to_string());
}

#[test]
fn test_identifier_literal_to_string() {
    assert_eq!("foo", Expression::Identifier(ident("foo", 1, 1)).to_string());
}

#[test]
fn test_infix_expression_to_string() {
    let ie = InfixExpression::new(
        Token::new(TokenType::OP_ADD, "+".to_string(), 1, 3),
        five(1),
        Some(Box::new(Expression::Integer(IntegerLiteral::new(
            Token::new(TokenType::LIT_INT, "10".to_string(), 1, 5),
            10,
        )))),
    );
    assert_eq!("(5 + 10)", Expression::Infix(ie).to_string());
}

#[test]
fn return_without_value_to_string() {
    let rs = ReturnStatement::new(Token::new(TokenType::RW_RETURN, "return".to_string(), 1, 1), None);
    assert_eq!("return;", rs.to_string());
}

#[test]
fn absent_values_print_nothing() {
    let es = ExpressionStatement::new(Token::new(TokenType::DEL_RPAREN, ")".to_string(), 1, 1), None);
    assert_eq!("", es.to_string());
    let pe = PrefixExpression::new(Token::new(TokenType::OP_SUB, "-".to_string(), 1, 1), None);
    assert_eq!("(-)", Expression::Prefix(pe).to_string());
    let ie = InfixExpression::new(Token::new(TokenType::OP_MUL, "*".to_string(), 1, 1), None, None);
    assert_eq!("(* )", Expression::Infix(ie).to_string());
}

#[test]
fn program_concatenates_statements() {
    let mut program = Program::new();
    assert_eq!("", program.to_string());
    assert_eq!(None, program.token_literal());
    program.statements.push(Statement::Return(ReturnStatement::new(
        Token::new(TokenType::RW_RETURN, "return".to_string(), 1, 1),
        five(8),
    )));
    program.statements.push(Statement::Expression(ExpressionStatement::new(
        Token::new(TokenType::LIT_IDENT, "foo".to_string(), 2, 1),
        Some(Box::new(Expression::Identifier(ident("foo", 2, 1)))),
    )));
    assert_eq!("return 5;foo;", program.to_string());
    assert_eq!(Some("return".to_string()), program.token_literal());
}
