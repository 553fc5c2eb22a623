use rose::lexer::{is_digit, is_letter, is_whitespace, tokenize, Lexer, TokenBuilder};
use rose::token::{lookup_ident, Token, TokenType};

#[test]
fn test_lookup_ident() {
    assert_eq!(lookup_ident(&String::from("Int")), TokenType::LIT_IDENT);
    assert_eq!(lookup_ident(&String::from("let")), TokenType::RW_LET);
    assert_eq!(lookup_ident(&String::from("do")), TokenType::LIT_IDENT);
    assert_eq!(lookup_ident(&String::from("end")), TokenType::LIT_IDENT);
    assert_eq!(lookup_ident(&String::from("return")), TokenType::RW_RETURN);
}

#[test]
fn lookup_of_every_reserved_word() {
    let cases = [
        ("let", TokenType::RW_LET),
        ("mut", TokenType::RW_MUT),
        ("return", TokenType::RW_RETURN),
        ("and", TokenType::RW_AND),
        ("or", TokenType::RW_OR),
        ("not", TokenType::RW_NOT),
        ("is", TokenType::RW_IS),
        ("true", TokenType::LIT_BOOL),
        ("false", TokenType::LIT_BOOL),
        ("Inf", TokenType::LIT_INF),
        ("NaN", TokenType::LIT_NAN),
        ("nil", TokenType::LIT_NIL),
        ("_", TokenType::LIT_BLANK),
        ("_x", TokenType::LIT_IDENT),
        ("foo", TokenType::LIT_IDENT),
        ("lets", TokenType::LIT_IDENT),
        ("", TokenType::LIT_IDENT),
    ];
    for (word, ttype) in cases.iter() {
        assert_eq!(lookup_ident(&word.to_string()), *ttype, "{}", word);
    }
}

fn first_token(input: &str) -> Token {
    let mut lexer = Lexer::new(input);
    lexer.next_token()
}

fn single(input: &str, ttype: TokenType) {
    let token = Token::new(ttype, input.to_string(), 1, 1);
    assert_eq!(first_token(input), token, "{:?}", input);
}

#[test]
fn mod_text_next_token() {
    single("\0", TokenType::META_EOF);
    single("\\", TokenType::META_ILLEGAL);
    single("+", TokenType::OP_ADD);
    single("5", TokenType::LIT_INT);
    single("55", TokenType::LIT_INT);
    single("\n", TokenType::DEL_END);
    single("\r", TokenType::DEL_END);
    single(";", TokenType::DEL_END);
}

#[test]
fn categories_of_single_literals() {
    single("let", TokenType::RW_LET);
    single("foo", TokenType::LIT_IDENT);
    single("_", TokenType::LIT_BLANK);
    single("_x", TokenType::LIT_IDENT);
    single("5", TokenType::LIT_INT);
    single("5.5", TokenType::LIT_FLOAT);
    single("**", TokenType::OP_POW);
    single("==", TokenType::OP_EQ);
    single("!=", TokenType::OP_NEQ);
    single(";", TokenType::DEL_END);
    single("\n", TokenType::DEL_END);
    single("\r", TokenType::DEL_END);
}

#[test]
fn operators_and_delimiters() {
    let cases = [
        ("-", TokenType::OP_SUB),
        ("*", TokenType::OP_MUL),
        ("/", TokenType::OP_DIV),
        ("%", TokenType::OP_MOD),
        ("=", TokenType::OP_ASSIGN),
        ("!", TokenType::OP_NOT),
        ("<", TokenType::OP_LT),
        ("<=", TokenType::OP_LTE),
        (">", TokenType::OP_GT),
        (">=", TokenType::OP_GTE),
        (":", TokenType::DEL_COLON),
        (",", TokenType::DEL_COMMA),
        ("(", TokenType::DEL_LPAREN),
        (")", TokenType::DEL_RPAREN),
        ("Foo123", TokenType::LIT_IDENT),
        ("_F_o_1_a_2", TokenType::LIT_IDENT),
        ("foo!", TokenType::LIT_IDENT),
        ("foo?", TokenType::LIT_IDENT),
        ("_!", TokenType::LIT_IDENT),
        (":foo", TokenType::LIT_SYMBOL),
        ("5.", TokenType::LIT_FLOAT),
        ("true", TokenType::LIT_BOOL),
        ("Inf", TokenType::LIT_INF),
        ("NaN", TokenType::LIT_NAN),
        ("nil", TokenType::LIT_NIL),
        ("not", TokenType::RW_NOT),
        ("@", TokenType::META_ILLEGAL),
    ];
    for (input, ttype) in cases.iter() {
        single(input, *ttype);
    }
}

#[test]
fn end_of_input_repeats() {
    let mut lexer = Lexer::new("x");
    assert_eq!(lexer.next_token(), Token::new(TokenType::LIT_IDENT, "x".to_string(), 1, 1));
    assert_eq!(lexer.next_token(), Token::new(TokenType::META_EOF, "\0".to_string(), 1, 2));
    assert_eq!(lexer.next_token(), Token::new(TokenType::META_EOF, "\0".to_string(), 1, 2));
    let mut empty = Lexer::new("");
    assert_eq!(empty.next_token().ttype, TokenType::META_EOF);
    assert_eq!(empty.next_token().ttype, TokenType::META_EOF);
}

#[test]
fn maximal_munch_splits() {
    let kinds = |input: &str| -> Vec<(TokenType, String)> {
        tokenize(input).into_iter().map(|t| (t.ttype, t.literal)).collect()
    };
    assert_eq!(
        kinds("foo!bar ***=1..2"),
        vec![
            (TokenType::LIT_IDENT, "foo!".to_string()),
            (TokenType::LIT_IDENT, "bar".to_string()),
            (TokenType::OP_POW, "**".to_string()),
            (TokenType::OP_MUL, "*".to_string()),
            (TokenType::OP_ASSIGN, "=".to_string()),
            (TokenType::LIT_FLOAT, "1.".to_string()),
            (TokenType::META_ILLEGAL, ".".to_string()),
            (TokenType::LIT_INT, "2".to_string()),
            (TokenType::META_EOF, "\0".to_string()),
        ]
    );
    assert_eq!(
        kinds("letx: Int"),
        vec![
            (TokenType::LIT_IDENT, "letx".to_string()),
            (TokenType::DEL_COLON, ":".to_string()),
            (TokenType::LIT_IDENT, "Int".to_string()),
            (TokenType::META_EOF, "\0".to_string()),
        ]
    );
}

#[test]
fn positions_follow_lines_and_columns() {
    let tokens = tokenize("a  b\n\tc\r\nd");
    let pos: Vec<(String, usize, usize)> =
        tokens.iter().map(|t| (t.literal.clone(), t.line_num, t.char_pos)).collect();
    assert_eq!(
        pos,
        vec![
            ("a".to_string(), 1, 1),
            ("b".to_string(), 1, 4),
            ("\n".to_string(), 1, 5),
            ("c".to_string(), 2, 2),
            ("\r".to_string(), 2, 3),
            ("\n".to_string(), 3, 1),
            ("d".to_string(), 4, 1),
            ("\0".to_string(), 4, 2),
        ]
    );
}

#[test]
fn character_classes() {
    assert!(is_letter(Some('a')) && is_letter(Some('Z')) && is_letter(Some('_')));
    assert!(!is_letter(Some('1')) && !is_letter(None));
    assert!(is_digit(Some('0')) && is_digit(Some('9')) && !is_digit(Some('a')) && !is_digit(None));
    assert!(is_whitespace(Some(' ')) && is_whitespace(Some('\t')));
    assert!(!is_whitespace(Some('\n')) && !is_whitespace(Some('\r')));
    assert!(!is_whitespace(Some('x')) && !is_whitespace(None));
}

#[test]
fn test_next_token() {
    let input = "let five: Int = 5;
let ten: Int = 10;

let add: (Int, Int) -> Int = (x: Int, y: Int) -> Int do
    return x + y;
end;

let result: Int = add(five, ten);
";
    let tests = [
        (TokenType::RW_LET, "let"), (TokenType::LIT_IDENT, "five"), (TokenType::DEL_COLON, ":"), (TokenType::LIT_IDENT, "Int"),
        (TokenType::OP_ASSIGN, "="), (TokenType::LIT_INT, "5"), (TokenType::DEL_END, ";"), (TokenType::DEL_END, "\n"),
        (TokenType::RW_LET, "let"), (TokenType::LIT_IDENT, "ten"), (TokenType::DEL_COLON, ":"), (TokenType::LIT_IDENT, "Int"),
        (TokenType::OP_ASSIGN, "="), (TokenType::LIT_INT, "10"), (TokenType::DEL_END, ";"), (TokenType::DEL_END, "\n"),
        (TokenType::DEL_END, "\n"),
        (TokenType::RW_LET, "let"), (TokenType::LIT_IDENT, "add"), (TokenType::DEL_COLON, ":"), (TokenType::DEL_LPAREN, "("),
        (TokenType::LIT_IDENT, "Int"), (TokenType::DEL_COMMA, ","), (TokenType::LIT_IDENT, "Int"), (TokenType::DEL_RPAREN, ")"),
        (TokenType::OP_SUB, "-"), (TokenType::OP_GT, ">"), (TokenType::LIT_IDENT, "Int"), (TokenType::OP_ASSIGN, "="),
        (TokenType::DEL_LPAREN, "("), (TokenType::LIT_IDENT, "x"), (TokenType::DEL_COLON, ":"), (TokenType::LIT_IDENT, "Int"),
        (TokenType::DEL_COMMA, ","), (TokenType::LIT_IDENT, "y"), (TokenType::DEL_COLON, ":"), (TokenType::LIT_IDENT, "Int"),
        (TokenType::DEL_RPAREN, ")"), (TokenType::OP_SUB, "-"), (TokenType::OP_GT, ">"), (TokenType::LIT_IDENT, "Int"),
        (TokenType::LIT_IDENT, "do"), (TokenType::DEL_END, "\n"),
        (TokenType::RW_RETURN, "return"), (TokenType::LIT_IDENT, "x"), (TokenType::OP_ADD, "+"), (TokenType::LIT_IDENT, "y"),
        (TokenType::DEL_END, ";"), (TokenType::DEL_END, "\n"),
        (TokenType::LIT_IDENT, "end"), (TokenType::DEL_END, ";"), (TokenType::DEL_END, "\n"),
        (TokenType::DEL_END, "\n"),
        (TokenType::RW_LET, "let"), (TokenType::LIT_IDENT, "result"), (TokenType::DEL_COLON, ":"), (TokenType::LIT_IDENT, "Int"),
        (TokenType::OP_ASSIGN, "="), (TokenType::LIT_IDENT, "add"), (TokenType::DEL_LPAREN, "("), (TokenType::LIT_IDENT, "five"),
        (TokenType::DEL_COMMA, ","), (TokenType::LIT_IDENT, "ten"), (TokenType::DEL_RPAREN, ")"), (TokenType::DEL_END, ";"),
        (TokenType::DEL_END, "\n"),
        (TokenType::META_EOF, "\0"),
    ];
    let mut l = Lexer::new(input);
    for (i, (ttype, literal)) in tests.iter().enumerate() {
        let tok = l.next_token();
        assert_eq!(tok.ttype, *ttype, "tests[{}]", i);
        assert_eq!(tok.literal, literal.to_string(), "tests[{}]", i);
    }
}

#[test]
fn builder_moves_along_its_transitions() {
    let mut b = TokenBuilder::start(TokenType::OP_MUL, '*', 2, 3);
    b.push('*');
    assert_eq!(b.finish(), Token::new(TokenType::OP_POW, "**".to_string(), 2, 3));
    let mut b = TokenBuilder::start(TokenType::LIT_INT, '1', 1, 1);
    b.push('2');
    b.push('.');
    b.push('5');
    assert_eq!(b.finish(), Token::new(TokenType::LIT_FLOAT, "12.5".to_string(), 1, 1));
    let mut b = TokenBuilder::start(TokenType::LIT_IDENT, 'l', 1, 1);
    b.push('e');
    b.push('t');
    assert_eq!(b.finish().ttype, TokenType::RW_LET);
    let mut b = TokenBuilder::start(TokenType::OP_NOT, '!', 1, 1);
    b.push('=');
    assert_eq!(b.finish().ttype, TokenType::OP_NEQ);
}

#[test]
fn category_names_print_as_written() {
    assert_eq!(TokenType::LIT_IDENT.name(), "LIT_IDENT");
    assert_eq!(TokenType::DEL_END.name(), "DEL_END");
    assert_eq!(TokenType::META_EOF.name(), "META_EOF");
}

#[test]
fn category_does_not_depend_on_context() {
    for l in ["let", "foo", "_", "_x", "5", "5.5", "**", "==", "!=", ";", "\n", "\r"].iter() {
        let alone = Lexer::new(l).next_token();
        let src = format!("ab = 1 {} y", l);
        let tokens = tokenize(&src);
        assert_eq!(tokens[3].literal, l.to_string(), "{:?}", l);
        assert_eq!(tokens[3].ttype, alone.ttype, "{:?}", l);
        let again = tokenize(&src);
        assert_eq!(tokens, again);
    }
}
