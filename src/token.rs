//! Token categories, the token value and keyword lookup.
use vstd::prelude::*;

verus! {

/// The closed set of lexical categories.
#[allow(non_camel_case_types)]
#[derive(Debug, Clone, Copy, PartialEq, Eq, Structural)]
pub enum TokenType {
    META_ILLEGAL,
    META_EOF,
    RW_LET,
    RW_MUT,
    RW_RETURN,
    RW_AND,
    RW_OR,
    RW_NOT,
    RW_IS,
    OP_ADD,
    OP_SUB,
    OP_MUL,
    OP_DIV,
    OP_MOD,
    OP_POW,
    OP_ASSIGN,
    OP_EQ,
    OP_NEQ,
    OP_GT,
    OP_GTE,
    OP_LT,
    OP_LTE,
    OP_NOT,
    DEL_END,
    DEL_COLON,
    DEL_COMMA,
    DEL_LPAREN,
    DEL_RPAREN,
    LIT_IDENT,
    LIT_BLANK,
    LIT_INT,
    LIT_FLOAT,
    LIT_BOOL,
    LIT_SYMBOL,
    LIT_INF,
    LIT_NAN,
    LIT_NIL,
}

/// The printed name of a category, as it appears in syntax errors.
pub open spec fn category_name(t: TokenType) -> Seq<char> {
    match t {
        TokenType::META_ILLEGAL => "META_ILLEGAL"@,
        TokenType::META_EOF => "META_EOF"@,
        TokenType::RW_LET => "RW_LET"@,
        TokenType::RW_MUT => "RW_MUT"@,
        TokenType::RW_RETURN => "RW_RETURN"@,
        TokenType::RW_AND => "RW_AND"@,
        TokenType::RW_OR => "RW_OR"@,
        TokenType::RW_NOT => "RW_NOT"@,
        TokenType::RW_IS => "RW_IS"@,
        TokenType::OP_ADD => "OP_ADD"@,
        TokenType::OP_SUB => "OP_SUB"@,
        TokenType::OP_MUL => "OP_MUL"@,
        TokenType::OP_DIV => "OP_DIV"@,
        TokenType::OP_MOD => "OP_MOD"@,
        TokenType::OP_POW => "OP_POW"@,
        TokenType::OP_ASSIGN => "OP_ASSIGN"@,
        TokenType::OP_EQ => "OP_EQ"@,
        TokenType::OP_NEQ => "OP_NEQ"@,
        TokenType::OP_GT => "OP_GT"@,
        TokenType::OP_GTE => "OP_GTE"@,
        TokenType::OP_LT => "OP_LT"@,
        TokenType::OP_LTE => "OP_LTE"@,
        TokenType::OP_NOT => "OP_NOT"@,
        TokenType::DEL_END => "DEL_END"@,
        TokenType::DEL_COLON => "DEL_COLON"@,
        TokenType::DEL_COMMA => "DEL_COMMA"@,
        TokenType::DEL_LPAREN => "DEL_LPAREN"@,
        TokenType::DEL_RPAREN => "DEL_RPAREN"@,
        TokenType::LIT_IDENT => "LIT_IDENT"@,
        TokenType::LIT_BLANK => "LIT_BLANK"@,
        TokenType::LIT_INT => "LIT_INT"@,
        TokenType::LIT_FLOAT => "LIT_FLOAT"@,
        TokenType::LIT_BOOL => "LIT_BOOL"@,
        TokenType::LIT_SYMBOL => "LIT_SYMBOL"@,
        TokenType::LIT_INF => "LIT_INF"@,
        TokenType::LIT_NAN => "LIT_NAN"@,
        TokenType::LIT_NIL => "LIT_NIL"@,
    }
}

impl TokenType {
    /// The printed name of this category.
    pub fn name(&self) -> (r: &'static str)
        ensures
            r@ == category_name(*self),
    {
        match self {
            TokenType::META_ILLEGAL => "META_ILLEGAL",
            TokenType::META_EOF => "META_EOF",
            TokenType::RW_LET => "RW_LET",
            TokenType::RW_MUT => "RW_MUT",
            TokenType::RW_RETURN => "RW_RETURN",
            TokenType::RW_AND => "RW_AND",
            TokenType::RW_OR => "RW_OR",
            TokenType::RW_NOT => "RW_NOT",
            TokenType::RW_IS => "RW_IS",
            TokenType::OP_ADD => "OP_ADD",
            TokenType::OP_SUB => "OP_SUB",
            TokenType::OP_MUL => "OP_MUL",
            TokenType::OP_DIV => "OP_DIV",
            TokenType::OP_MOD => "OP_MOD",
            TokenType::OP_POW => "OP_POW",
            TokenType::OP_ASSIGN => "OP_ASSIGN",
            TokenType::OP_EQ => "OP_EQ",
            TokenType::OP_NEQ => "OP_NEQ",
            TokenType::OP_GT => "OP_GT",
            TokenType::OP_GTE => "OP_GTE",
            TokenType::OP_LT => "OP_LT",
            TokenType::OP_LTE => "OP_LTE",
            TokenType::OP_NOT => "OP_NOT",
            TokenType::DEL_END => "DEL_END",
            TokenType::DEL_COLON => "DEL_COLON",
            TokenType::DEL_COMMA => "DEL_COMMA",
            TokenType::DEL_LPAREN => "DEL_LPAREN",
            TokenType::DEL_RPAREN => "DEL_RPAREN",
            TokenType::LIT_IDENT => "LIT_IDENT",
            TokenType::LIT_BLANK => "LIT_BLANK",
            TokenType::LIT_INT => "LIT_INT",
            TokenType::LIT_FLOAT => "LIT_FLOAT",
            TokenType::LIT_BOOL => "LIT_BOOL",
            TokenType::LIT_SYMBOL => "LIT_SYMBOL",
            TokenType::LIT_INF => "LIT_INF",
            TokenType::LIT_NAN => "LIT_NAN",
            TokenType::LIT_NIL => "LIT_NIL",
        }
    }
}

/// A lexical unit: its category, the exact source text, and where it starts
/// (line and column, both counted from one).
#[derive(Debug, Clone, PartialEq, Eq)]
pub struct Token {
    pub ttype: TokenType,
    pub literal: String,
    pub line_num: usize,
    pub char_pos: usize,
}

impl Token {
    pub fn new(ttype: TokenType, literal: String, line_num: usize, char_pos: usize) -> (r: Token)
        ensures
            r.ttype == ttype,
            r.literal == literal,
            r.line_num == line_num,
            r.char_pos == char_pos,
    {
        Token { ttype, literal, line_num, char_pos }
    }

    /// An independent copy of this token.
    pub fn duplicate(&self) -> (r: Token)
        ensures
            r == *self,
    {
        Token {
            ttype: self.ttype,
            literal: self.literal.clone(),
            line_num: self.line_num,
            char_pos: self.char_pos,
        }
    }
}

/// The category of a finished word (identifier, keyword or blank).
pub open spec fn keyword_type(s: Seq<char>) -> TokenType {
    if s == "let"@ {
        TokenType::RW_LET
    } else if s == "mut"@ {
        TokenType::RW_MUT
    } else if s == "return"@ {
        TokenType::RW_RETURN
    } else if s == "and"@ {
        TokenType::RW_AND
    } else if s == "or"@ {
        TokenType::RW_OR
    } else if s == "not"@ {
        TokenType::RW_NOT
    } else if s == "is"@ {
        TokenType::RW_IS
    } else if s == "true"@ || s == "false"@ {
        TokenType::LIT_BOOL
    } else if s == "Inf"@ {
        TokenType::LIT_INF
    } else if s == "NaN"@ {
        TokenType::LIT_NAN
    } else if s == "nil"@ {
        TokenType::LIT_NIL
    } else if s == "_"@ {
        TokenType::LIT_BLANK
    } else {
        TokenType::LIT_IDENT
    }
}

pub(crate) fn str_eq(a: &str, b: &str) -> (r: bool)
    ensures
        r == (a@ == b@),
{
    let n = a.unicode_len();
    if n != b.unicode_len() {
        return false;
    }
    let mut i: usize = 0;
    while i < n
        invariant
            n == a@.len(),
            n == b@.len(),
            i <= n,
            a@.subrange(0, i as int) == b@.subrange(0, i as int),
        decreases n - i,
    {
        if a.get_char(i) != b.get_char(i) {
            assert(a@[i as int] != b@[i as int]);
            return false;
        }
        assert(a@.subrange(0, i + 1) == a@.subrange(0, i as int).push(a@[i as int]));
        assert(b@.subrange(0, i + 1) == b@.subrange(0, i as int).push(b@[i as int]));
        i = i + 1;
    }
    assert(a@ == a@.subrange(0, n as int));
    assert(b@ == b@.subrange(0, n as int));
    true
}

/// Classifies a finished word: reserved words, boolean and special literals,
/// the blank `_`, and otherwise an identifier.
pub fn lookup_ident(ident: &String) -> (r: TokenType)
    ensures
        r == keyword_type(ident@),
{
    let s = ident.as_str();
    if str_eq(s, "let") {
        TokenType::RW_LET
    } else if str_eq(s, "mut") {
        TokenType::RW_MUT
    } else if str_eq(s, "return") {
        TokenType::RW_RETURN
    } else if str_eq(s, "and") {
        TokenType::RW_AND
    } else if str_eq(s, "or") {
        TokenType::RW_OR
    } else if str_eq(s, "not") {
        TokenType::RW_NOT
    } else if str_eq(s, "is") {
        TokenType::RW_IS
    } else if str_eq(s, "true") || str_eq(s, "false") {
        TokenType::LIT_BOOL
    } else if str_eq(s, "Inf") {
        TokenType::LIT_INF
    } else if str_eq(s, "NaN") {
        TokenType::LIT_NAN
    } else if str_eq(s, "nil") {
        TokenType::LIT_NIL
    } else if str_eq(s, "_") {
        TokenType::LIT_BLANK
    } else {
        TokenType::LIT_IDENT
    }
}

} // verus!
