use rose::ast::{Expression, Program, Statement};
use rose::parser::RoseParser;
use rose::token::TokenType;

fn check_parser_errors(parser: &RoseParser) {
    if parser.errors.len() == 0 {
        return;
    }
    let mut output: String = String::new();
    output.push_str(&format!("\n\nparser has {} errors", parser.errors.len()));
    for err in parser.errors.iter() {
        output.push_str(&format!("\nparser error: {}", err));
    }
    output.push_str("\n\n");
    panic!("{}", output);
}

fn parse_checked(input: &str, name: &str, count: usize) -> Program {
    let mut parser: RoseParser = RoseParser::new(input, name.to_string());
    let prog: Program = parser.parse_program();
    check_parser_errors(&parser);
    if prog.statements.len() != count {
        panic!(
            "program.statements does not contain {} statements, got={}",
            count,
            prog.statements.len()
        );
    }
    prog
}

fn parse_all(input: &str) -> (Program, Vec<String>) {
    let mut parser = RoseParser::new(input, "test".to_string());
    let prog = parser.parse_program();
    (prog, parser.errors.clone())
}

fn canonical(input: &str) -> String {
    parse_all(input).0.to_string()
}

#[test]
fn test_let_statement() {
    let input: &str = "
let x = 5;
let y = 10;
let foobar = 838383;
";
    let prog = parse_checked(input, "test_let_statement", 3);
    let mut i = 1;
    for stmt in prog.statements.iter() {
        assert_eq!(Some("let".to_string()), stmt.token_literal(), "tests[{}]", i);
        i += 1;
    }
}

#[test]
fn test_return_statement() {
    let input: &str = "
return 5;
return 10;
return 838383;
";
    let prog = parse_checked(input, "test_return_statement", 3);
    let mut i = 1;
    for stmt in prog.statements.iter() {
        assert_eq!(Some("return".to_string()), stmt.token_literal(), "tests[{}]", i);
        i += 1;
    }
}

#[test]
fn test_identifier_expression() {
    let prog = parse_checked("foo;", "test_identifier_expression", 1);
    assert_eq!(Some("foo".to_string()), prog.statements[0].token_literal(), "tests[{}]", 1);
}

#[test]
fn test_blank_expression() {
    let prog = parse_checked("_;", "test_blank_expression", 1);
    assert_eq!(Some("_".to_string()), prog.statements[0].token_literal(), "tests[{}]", 1);
}

#[test]
fn test_integer_literal_expression() {
    let prog = parse_checked("5;", "test_integer_literal_expression", 1);
    assert_eq!(Some("5".to_string()), prog.statements[0].token_literal(), "tests[{}]", 1);
}

#[test]
fn test_float_literal_expression() {
    let prog = parse_checked("5.5;", "test_float_literal_expression", 1);
    assert_eq!(Some("5.5".to_string()), prog.statements[0].token_literal(), "tests[{}]", 1);
}

#[test]
fn test_boolean_literal_expression() {
    let input = "
true;
false;";
    let prog = parse_checked(input, "test_boolean_literal_expression", 2);
    assert_eq!(Some("true".to_string()), prog.statements[0].token_literal(), "tests[{}]", 1);
    assert_eq!(Some("false".to_string()), prog.statements[1].token_literal(), "tests[{}]", 2);
}

#[test]
fn test_inf_expression() {
    let prog = parse_checked("Inf;", "test_inf_expression", 1);
    assert_eq!(Some("Inf".to_string()), prog.statements[0].token_literal(), "tests[{}]", 1);
}

#[test]
fn test_nan_expression() {
    let prog = parse_checked("NaN;", "test_nan_expression", 1);
    assert_eq!(Some("NaN".to_string()), prog.statements[0].token_literal(), "tests[{}]", 1);
}

#[test]
fn test_nil_expression() {
    let prog = parse_checked("nil;", "test_nil_expression", 1);
    assert_eq!(Some("nil".to_string()), prog.statements[0].token_literal(), "tests[{}]", 1);
}

#[test]
fn test_symbol_expression() {
    let prog = parse_checked(":foo;", "test_symbol_expression", 1);
    assert_eq!(Some(":foo".to_string()), prog.statements[0].token_literal(), "tests[{}]", 1);
}

#[test]
fn test_parsing_prefix_expressions() {
    let input: &str = "
!5;
-5";
    let prog = parse_checked(input, "test_parsing_prefix_expression", 2);
    assert_eq!("(!5);".to_string(), prog.statements[0].to_string(), "tests[{}]", 1);
    assert_eq!("(-5);".to_string(), prog.statements[1].to_string(), "tests[{}]", 2);
}

#[test]
fn test_parsing_infix_expressions() {
    let input: &str = "
5 + 5;
5 - 5;
5 * 5;
5 / 5;
5 > 5;
5 < 5;
5 == 5;
5 != 5;";
    let prog = parse_checked(input, "test_parsing_infix_expression", 8);
    let expected = [
        "(5 + 5);", "(5 - 5);", "(5 * 5);", "(5 / 5);", "(5 > 5);", "(5 < 5);", "(5 == 5);",
        "(5 != 5);",
    ];
    for (i, e) in expected.iter().enumerate() {
        assert_eq!(e.to_string(), prog.statements[i].to_string(), "tests[{}]", i + 1);
    }
}

#[test]
fn test_parse_expression() {
    let cases = [("5", TokenType::LIT_INT), ("+5", TokenType::OP_ADD), ("5 + 5", TokenType::OP_ADD)];
    for (input, ttype) in cases.iter() {
        let mut p = RoseParser::new(input, "test_parse_expression".to_string());
        match p.parse_expression() {
            Some(exp) => {
                let expected = match ttype {
                    TokenType::LIT_INT => "5",
                    _ => "+",
                };
                assert_eq!(exp.token_literal(), Some(expected.to_string()));
            },
            None => panic!("no expression parsed from {:?}", input),
        }
    }
}

#[test]
fn precedence_binds_products_tighter() {
    assert_eq!(canonical("5 + 5 * 5;"), "(5 + (5 * 5));");
    assert_eq!(canonical("5 * 5 + 5;"), "((5 * 5) + 5);");
}

#[test]
fn precedence_of_every_level() {
    assert_eq!(canonical("a or b and c"), "(a or (b and c));");
    assert_eq!(canonical("a == b < c"), "(a == (b < c));");
    assert_eq!(canonical("a < b + c"), "(a < (b + c));");
    assert_eq!(canonical("a + b % c"), "(a + (b % c));");
    assert_eq!(canonical("a * b ** c"), "(a * (b ** c));");
    assert_eq!(canonical("-a ** b"), "((-a) ** b);");
    assert_eq!(canonical("a - b - c"), "((a - b) - c);");
    assert_eq!(canonical("a ** b ** c"), "((a ** b) ** c);");
    assert_eq!(canonical("not a and !b"), "((nota) and (!b));");
    assert_eq!(canonical("a >= b != c <= d"), "((a >= b) != (c <= d));");
}

#[test]
fn prefix_and_infix_exact_forms() {
    assert_eq!(canonical("!5;"), "(!5);");
    assert_eq!(canonical("-5"), "(-5);");
    assert_eq!(canonical("5 + 5;"), "(5 + 5);");
}

#[test]
fn let_statement_forms() {
    assert_eq!(canonical("let mut foo: Int = 5;"), "let mut foo: Int = 5;");
    assert_eq!(canonical("let foo;"), "let foo;");
    assert_eq!(canonical("let foo: Int"), "let foo: Int;");
    assert_eq!(canonical("let foo = 1 + 2\nfoo"), "let foo = (1 + 2);foo;");
    let (prog, errors) = parse_all("let mut x = y;");
    assert!(errors.is_empty());
    match &prog.statements[0] {
        Statement::Let(l) => {
            assert_eq!(l.battr.as_ref().map(|t| t.literal.clone()), Some("mut".to_string()));
            assert_eq!(l.name.value, "x");
            assert!(l.btype.is_none());
        },
        other => panic!("expected a let statement, got {:?}", other),
    }
}

#[test]
fn return_forms() {
    let (prog, errors) = parse_all("return;\nreturn\nreturn 1 + 2");
    assert!(errors.is_empty(), "{:?}", errors);
    assert_eq!(prog.to_string(), "return;return;return (1 + 2);");
    assert_eq!(prog.statements.len(), 3);
}

#[test]
fn errors_accumulate_and_parsing_goes_on() {
    let (prog, errors) = parse_all("let = 5;\nlet y = 10;");
    assert!(!errors.is_empty());
    assert_eq!(errors[0], "expected next token to be LIT_IDENT, got OP_ASSIGN instead");
    let last = prog.statements.last().expect("a statement");
    assert_eq!(last.to_string(), "let y = 10;");

    let (prog, errors) = parse_all(")\n5 * 2");
    assert_eq!(errors, vec!["no prefix parse function for DEL_RPAREN found".to_string()]);
    assert_eq!(prog.statements.len(), 2);
    assert_eq!(prog.statements[1].to_string(), "(5 * 2);");
}

#[test]
fn missing_type_after_colon() {
    let (_, errors) = parse_all("let x: 5");
    assert_eq!(errors, vec!["expected next token to be LIT_IDENT, got LIT_INT instead".to_string()]);
}

#[test]
fn integer_literal_out_of_range() {
    let (prog, errors) = parse_all("2147483647;\n2147483648;");
    assert_eq!(errors, vec!["number too large to fit in target type".to_string()]);
    assert_eq!(prog.to_string(), "2147483647;");
    match &prog.statements[0] {
        Statement::Expression(es) => match es.value.as_deref() {
            Some(Expression::Integer(i)) => assert_eq!(i.value, 2147483647),
            other => panic!("expected an integer, got {:?}", other),
        },
        other => panic!("expected an expression statement, got {:?}", other),
    }
}

#[test]
fn dangling_operator_keeps_a_partial_tree() {
    let (prog, errors) = parse_all("5 +;");
    assert_eq!(errors, vec!["no prefix parse function for DEL_END found".to_string()]);
    assert_eq!(prog.to_string(), "(5 + );");
}

#[test]
fn terminators_are_equivalent() {
    for input in ["5;", "5\n", "5\r"].iter() {
        let (prog, errors) = parse_all(input);
        assert!(errors.is_empty());
        assert_eq!(prog.statements.len(), 1);
        match &prog.statements[0] {
            Statement::Expression(es) => match es.value.as_deref() {
                Some(Expression::Integer(i)) => {
                    assert_eq!(i.value, 5);
                    assert_eq!(i.token.literal, "5");
                },
                other => panic!("expected an integer, got {:?}", other),
            },
            other => panic!("expected an expression statement, got {:?}", other),
        }
    }
}

#[test]
fn canonical_text_is_stable_for_flat_statements() {
    for src in ["let mut foo: Int = 5;", "let foo", "x\ny; z", "return :sym", "_;Inf;NaN;nil;5.5;true"].iter() {
        let (first, errors) = parse_all(src);
        assert!(errors.is_empty());
        let once = first.to_string();
        let (second, errors) = parse_all(&once);
        assert!(errors.is_empty());
        assert_eq!(second.to_string(), once);
    }
}

#[test]
fn empty_source_gives_empty_program() {
    let (prog, errors) = parse_all("");
    assert!(errors.is_empty());
    assert_eq!(prog.statements.len(), 0);
    let (prog, errors) = parse_all(";;\n\n");
    assert!(errors.is_empty());
    assert_eq!(prog.statements.len(), 0);
}

#[test]
fn expect_peek_moves_only_on_a_match() {
    let mut p = RoseParser::new("let x", "t".to_string());
    assert!(!p.expect_peek(TokenType::RW_MUT));
    assert_eq!(p.errors, vec!["expected next token to be RW_MUT, got LIT_IDENT instead".to_string()]);
    assert!(p.expect_peek(TokenType::LIT_IDENT));
    assert_eq!(p.errors.len(), 1);
    assert_eq!(p.error_messages(), &p.errors);
    assert_eq!(p.file_name(), "t");
}

#[test]
fn single_operator_text_reparses() {
    for src in ["5 + 5", "-x", "!true", "+:sym", "a ** b", "x and y", "1 >= 2.5", "a % _"].iter() {
        let (first, errors) = parse_all(src);
        assert!(errors.is_empty());
        let once = first.to_string();
        let (second, _) = parse_all(&once);
        assert_eq!(second.to_string(), once, "{}", src);
    }
}

#[test]
fn nested_operators_do_not_reparse() {
    let once = canonical("5 + 5 * 5");
    assert_eq!(once, "(5 + (5 * 5));");
    assert_eq!(canonical(&once), "(5 + );(5 * 5);");
    let once = canonical("not x");
    assert_eq!(once, "(notx);");
    assert_eq!(canonical(&once), "notx;");
}
