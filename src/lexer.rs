//! The scanner: turns source characters into tokens, one per call, with a
//! token builder that assembles multi-character tokens.
use vstd::prelude::*;
use crate::token::{keyword_type, lookup_ident, Token, TokenType};

verus! {

pub open spec fn letter_char(c: char) -> bool {
    ('a' <= c && c <= 'z') || ('A' <= c && c <= 'Z') || c == '_'
}

pub open spec fn digit_char(c: char) -> bool {
    '0' <= c && c <= '9'
}

/// A character that may continue an identifier or a symbol.
pub open spec fn word_char(c: char) -> bool {
    letter_char(c) || digit_char(c)
}

/// A mark that may end an identifier (`foo!`, `foo?`).
pub open spec fn mark_char(c: char) -> bool {
    c == '!' || c == '?'
}

pub open spec fn blank_char(c: char) -> bool {
    c == ' ' || c == '\t'
}

pub open spec fn newline_char(c: char) -> bool {
    c == '\n' || c == '\r'
}

/// True for an ASCII letter or `_`.
pub fn is_letter(ch: Option<char>) -> (r: bool)
    ensures
        r == (ch is Some && letter_char(ch->Some_0)),
{
    match ch {
        Some(c) => ('a' <= c && c <= 'z') || ('A' <= c && c <= 'Z') || c == '_',
        None => false,
    }
}

/// True for an ASCII decimal digit.
pub fn is_digit(ch: Option<char>) -> (r: bool)
    ensures
        r == (ch is Some && digit_char(ch->Some_0)),
{
    match ch {
        Some(c) => '0' <= c && c <= '9',
        None => false,
    }
}

/// True for a space or a tab; a line break is no whitespace but ends a
/// statement.
pub fn is_whitespace(ch: Option<char>) -> (r: bool)
    ensures
        r == (ch is Some && blank_char(ch->Some_0)),
{
    match ch {
        Some(c) => c == ' ' || c == '\t',
        None => false,
    }
}

/// The character at `i`, or `'\0'` past the end of the input.
pub open spec fn ch_at(s: Seq<char>, i: int) -> char {
    if 0 <= i < s.len() {
        s[i]
    } else {
        '\0'
    }
}

/// The line of position `i`: one more than the line breaks before it.
pub open spec fn line_of(s: Seq<char>, i: int) -> int
    decreases i,
{
    if i <= 0 {
        1
    } else if newline_char(ch_at(s, i - 1)) {
        line_of(s, i - 1) + 1
    } else {
        line_of(s, i - 1)
    }
}

/// The column of position `i`, counted from one after the last line break.
pub open spec fn col_of(s: Seq<char>, i: int) -> int
    decreases i,
{
    if i <= 0 {
        1
    } else if newline_char(ch_at(s, i - 1)) {
        1
    } else {
        col_of(s, i - 1) + 1
    }
}

/// The first position at or after `i` that holds no space or tab.
pub open spec fn skip_blanks(s: Seq<char>, i: int) -> int
    decreases s.len() - i,
{
    if 0 <= i < s.len() && blank_char(s[i]) {
        skip_blanks(s, i + 1)
    } else {
        i
    }
}

/// The first position at or after `i` that holds no digit.
pub open spec fn digits_end(s: Seq<char>, i: int) -> int
    decreases s.len() - i,
{
    if 0 <= i < s.len() && digit_char(s[i]) {
        digits_end(s, i + 1)
    } else {
        i
    }
}

/// The first position at or after `i` that holds no word character.
pub open spec fn word_end(s: Seq<char>, i: int) -> int
    decreases s.len() - i,
{
    if 0 <= i < s.len() && word_char(s[i]) {
        word_end(s, i + 1)
    } else {
        i
    }
}

/// The second character of the two-character operator that `c` may start.
pub open spec fn op_extension(c: char) -> Option<char> {
    if c == '*' {
        Some('*')
    } else if c == '=' || c == '!' || c == '<' || c == '>' {
        Some('=')
    } else {
        None
    }
}

/// The category of a token that is one character long.
pub open spec fn single_type(c: char) -> TokenType {
    if c == '\0' {
        TokenType::META_EOF
    } else if c == '\n' || c == '\r' || c == ';' {
        TokenType::DEL_END
    } else if c == '+' {
        TokenType::OP_ADD
    } else if c == '-' {
        TokenType::OP_SUB
    } else if c == '*' {
        TokenType::OP_MUL
    } else if c == '/' {
        TokenType::OP_DIV
    } else if c == '%' {
        TokenType::OP_MOD
    } else if c == '=' {
        TokenType::OP_ASSIGN
    } else if c == '!' {
        TokenType::OP_NOT
    } else if c == '<' {
        TokenType::OP_LT
    } else if c == '>' {
        TokenType::OP_GT
    } else if c == ':' {
        TokenType::DEL_COLON
    } else if c == ',' {
        TokenType::DEL_COMMA
    } else if c == '(' {
        TokenType::DEL_LPAREN
    } else if c == ')' {
        TokenType::DEL_RPAREN
    } else {
        TokenType::META_ILLEGAL
    }
}

/// The category a builder moves to when it takes `c`.
pub open spec fn grown_type(t: TokenType, c: char) -> TokenType {
    match t {
        TokenType::LIT_INT => if c == '.' {
            TokenType::LIT_FLOAT
        } else {
            t
        },
        TokenType::OP_MUL => TokenType::OP_POW,
        TokenType::OP_ASSIGN => TokenType::OP_EQ,
        TokenType::OP_NOT => TokenType::OP_NEQ,
        TokenType::OP_LT => TokenType::OP_LTE,
        TokenType::OP_GT => TokenType::OP_GTE,
        _ => t,
    }
}

/// Where the token that starts at `i` ends (exclusive), by maximal munch.
pub open spec fn token_end(s: Seq<char>, i: int) -> int {
    let c = ch_at(s, i);
    let c1 = ch_at(s, i + 1);
    if letter_char(c) {
        let e = word_end(s, i + 1);
        if mark_char(ch_at(s, e)) {
            e + 1
        } else {
            e
        }
    } else if digit_char(c) {
        let e = digits_end(s, i + 1);
        if ch_at(s, e) == '.' {
            digits_end(s, e + 1)
        } else {
            e
        }
    } else if c == ':' && letter_char(c1) {
        word_end(s, i + 1)
    } else if op_extension(c) == Some(c1) {
        i + 2
    } else {
        i + 1
    }
}

/// The category of the token that starts at `i`.
pub open spec fn token_type(s: Seq<char>, i: int) -> TokenType {
    let c = ch_at(s, i);
    let c1 = ch_at(s, i + 1);
    if letter_char(c) {
        keyword_type(s.subrange(i, token_end(s, i)))
    } else if digit_char(c) {
        if ch_at(s, digits_end(s, i + 1)) == '.' {
            TokenType::LIT_FLOAT
        } else {
            TokenType::LIT_INT
        }
    } else if c == ':' && letter_char(c1) {
        TokenType::LIT_SYMBOL
    } else if op_extension(c) == Some(c1) {
        grown_type(single_type(c), c1)
    } else {
        single_type(c)
    }
}

/// The source text of the token that starts at `i`; the end of input reads
/// as a single `'\0'`.
pub open spec fn token_text(s: Seq<char>, i: int) -> Seq<char> {
    if ch_at(s, i) == '\0' {
        seq!['\0']
    } else {
        s.subrange(i, token_end(s, i))
    }
}

/// Where scanning resumes after the token that starts at `i`: the end of
/// input is never passed.
pub open spec fn resume_at(s: Seq<char>, i: int) -> int {
    if ch_at(s, i) == '\0' {
        i
    } else {
        token_end(s, i)
    }
}

/// `t` is the token that the scanner reads at position `i` of `s`.
pub open spec fn token_at(t: Token, s: Seq<char>, i: int) -> bool {
    &&& t.ttype == token_type(s, i)
    &&& t.literal@ == token_text(s, i)
    &&& t.line_num == line_of(s, i)
    &&& t.char_pos == col_of(s, i)
}

/// Where the scanner stands before its `k`-th call.
pub open spec fn cursor(s: Seq<char>, k: nat) -> int
    decreases k, 0int,
{
    if k == 0 {
        0
    } else {
        resume_at(s, token_start(s, (k - 1) as nat))
    }
}

/// Where the `k`-th token of `s` starts.
pub open spec fn token_start(s: Seq<char>, k: nat) -> int
    decreases k, 1int,
{
    skip_blanks(s, cursor(s, k))
}

pub proof fn lemma_position_bounds(s: Seq<char>, i: int)
    requires
        0 <= i,
    ensures
        1 <= line_of(s, i) <= i + 1,
        1 <= col_of(s, i) <= i + 1,
    decreases i,
{
    if i > 0 {
        lemma_position_bounds(s, i - 1);
    }
}

proof fn lemma_skip_blanks(s: Seq<char>, i: int)
    requires
        0 <= i <= s.len(),
    ensures
        i <= skip_blanks(s, i) <= s.len(),
        !blank_char(ch_at(s, skip_blanks(s, i))),
    decreases s.len() - i,
{
    if i < s.len() && blank_char(s[i]) {
        lemma_skip_blanks(s, i + 1);
    }
}

proof fn lemma_digits_end(s: Seq<char>, i: int)
    requires
        0 <= i <= s.len(),
    ensures
        i <= digits_end(s, i) <= s.len(),
        !digit_char(ch_at(s, digits_end(s, i))),
    decreases s.len() - i,
{
    if i < s.len() && digit_char(s[i]) {
        lemma_digits_end(s, i + 1);
    }
}

proof fn lemma_word_end(s: Seq<char>, i: int)
    requires
        0 <= i <= s.len(),
    ensures
        i <= word_end(s, i) <= s.len(),
        !word_char(ch_at(s, word_end(s, i))),
    decreases s.len() - i,
{
    if i < s.len() && word_char(s[i]) {
        lemma_word_end(s, i + 1);
    }
}

pub(crate) proof fn lemma_token_end(s: Seq<char>, i: int)
    requires
        0 <= i < s.len(),
        ch_at(s, i) != '\0',
    ensures
        i < token_end(s, i),
        token_type(s, i) != TokenType::META_EOF,
{
    lemma_word_end(s, i + 1);
    lemma_digits_end(s, i + 1);
    let e = digits_end(s, i + 1);
    if e < s.len() {
        lemma_digits_end(s, e + 1);
    }
}

pub(crate) proof fn lemma_word_run(s: Seq<char>, k: int)
    requires
        0 <= k,
    ensures
        k <= word_end(s, k),
        word_end(s, k) <= s.len() || word_end(s, k) == k,
        forall|x: int| k <= x < word_end(s, k) ==> 0 <= x < s.len() && word_char(#[trigger] s[x]),
        !word_char(ch_at(s, word_end(s, k))),
    decreases s.len() - k,
{
    if 0 <= k < s.len() && word_char(s[k]) {
        lemma_word_run(s, k + 1);
    }
}

pub(crate) proof fn lemma_digit_run(s: Seq<char>, k: int)
    requires
        0 <= k,
    ensures
        k <= digits_end(s, k),
        digits_end(s, k) <= s.len() || digits_end(s, k) == k,
        forall|x: int| k <= x < digits_end(s, k) ==> 0 <= x < s.len() && digit_char(#[trigger] s[x]),
        !digit_char(ch_at(s, digits_end(s, k))),
    decreases s.len() - k,
{
    if 0 <= k < s.len() && digit_char(s[k]) {
        lemma_digit_run(s, k + 1);
    }
}

pub(crate) proof fn lemma_word_end_of(s: Seq<char>, k: int, m: int)
    requires
        0 <= k <= m <= s.len(),
        forall|x: int| k <= x < m ==> word_char(#[trigger] s[x]),
        !word_char(ch_at(s, m)),
    ensures
        word_end(s, k) == m,
    decreases m - k,
{
    if k < m {
        lemma_word_end_of(s, k + 1, m);
    }
}

pub(crate) proof fn lemma_digits_end_of(s: Seq<char>, k: int, m: int)
    requires
        0 <= k <= m <= s.len(),
        forall|x: int| k <= x < m ==> digit_char(#[trigger] s[x]),
        !digit_char(ch_at(s, m)),
    ensures
        digits_end(s, k) == m,
    decreases m - k,
{
    if k < m {
        lemma_digits_end_of(s, k + 1, m);
    }
}

/// The category of a token depends on its text alone: read on its own, the
/// text of any token that the scanner reads short of the end of input is one
/// whole token, of the same category.
pub proof fn lemma_category_of_text(s: Seq<char>, i: int)
    requires
        0 <= i < s.len(),
        s[i] != '\0',
    ensures
        token_type(token_text(s, i), 0) == token_type(s, i),
        token_end(token_text(s, i), 0) == token_text(s, i).len(),
{
    let c = s[i];
    lemma_token_end(s, i);
    lemma_word_run(s, i + 1);
    lemma_digit_run(s, i + 1);
    let d = digits_end(s, i + 1);
    if ch_at(s, d) == '.' {
        lemma_digit_run(s, d + 1);
    }
    let e0 = token_end(s, i);
    let w = s.subrange(i, e0);
    assert(token_text(s, i) == w);
    assert(w.subrange(0, w.len() as int) =~= w);
    assert forall|x: int| 0 <= x < w.len() implies #[trigger] w[x] == s[i + x] by {}
    assert(w[0] == c);
    if letter_char(c) {
        let e = word_end(s, i + 1);
        assert forall|x: int| 1 <= x < e - i implies word_char(#[trigger] w[x]) by {
            assert(w[x] == s[i + x]);
        }
        if mark_char(ch_at(s, e)) {
            assert(w[e - i] == s[e]);
        }
        lemma_word_end_of(w, 1, e - i);
    } else if digit_char(c) {
        assert forall|x: int| 1 <= x < d - i implies digit_char(#[trigger] w[x]) by {
            assert(w[x] == s[i + x]);
        }
        if ch_at(s, d) == '.' {
            let d2 = digits_end(s, d + 1);
            assert(w[d - i] == s[d]);
            assert forall|x: int| d - i + 1 <= x < d2 - i implies digit_char(#[trigger] w[x]) by {
                assert(w[x] == s[i + x]);
            }
            lemma_digits_end_of(w, d - i + 1, d2 - i);
        }
        lemma_digits_end_of(w, 1, d - i);
    } else if c == ':' && letter_char(ch_at(s, i + 1)) {
        let e = word_end(s, i + 1);
        assert(w[1] == s[i + 1]);
        assert forall|x: int| 1 <= x < e - i implies word_char(#[trigger] w[x]) by {
            assert(w[x] == s[i + x]);
        }
        lemma_word_end_of(w, 1, e - i);
    } else if op_extension(c) == Some(ch_at(s, i + 1)) {
        assert(w[1] == s[i + 1]);
    }
}

/// The category of a token does not depend on the text around it: wherever
/// a text that reads on its own as one whole token stands followed by a
/// space, the scanner reads exactly that text there, with the same category.
pub proof fn lemma_category_in_context(w: Seq<char>, s: Seq<char>, j: int)
    requires
        w.len() > 0,
        token_end(w, 0) == w.len(),
        0 <= j,
        j + w.len() < s.len(),
        s.subrange(j, j + w.len()) == w,
        s[j + w.len()] == ' ',
    ensures
        token_type(s, j) == token_type(w, 0),
        token_end(s, j) == j + w.len(),
        token_text(s, j) == token_text(w, 0),
{
    let n = w.len() as int;
    assert forall|x: int| 0 <= x <= n implies (x < n ==> #[trigger] ch_at(s, j + x) == ch_at(w, x))
        && (x == n ==> ch_at(s, j + x) == ' ' && ch_at(w, x) == '\0') by {
        if x < n {
            assert(s.subrange(j, j + n)[x] == s[j + x]);
        }
    }
    let c = ch_at(w, 0);
    assert(ch_at(s, j) == c);
    assert(ch_at(s, j + 1) == ch_at(w, 1) || (n == 1 && ch_at(s, j + 1) == ' ' && ch_at(w, 1)
        == '\0'));
    if letter_char(c) {
        lemma_word_run(w, 1);
        let e = word_end(w, 1);
        assert forall|x: int| j + 1 <= x < j + e implies word_char(#[trigger] s[x]) by {
            assert(ch_at(s, j + (x - j)) == ch_at(w, x - j));
        }
        assert(ch_at(s, j + e) == ch_at(w, e) || (e == n && ch_at(s, j + e) == ' '));
        lemma_word_end_of(s, j + 1, j + e);
        assert(s.subrange(j, j + n) =~= w.subrange(0, n));
    } else if digit_char(c) {
        lemma_digit_run(w, 1);
        let d = digits_end(w, 1);
        assert forall|x: int| j + 1 <= x < j + d implies digit_char(#[trigger] s[x]) by {
            assert(ch_at(s, j + (x - j)) == ch_at(w, x - j));
        }
        assert(ch_at(s, j + d) == ch_at(w, d) || (d == n && ch_at(s, j + d) == ' '));
        lemma_digits_end_of(s, j + 1, j + d);
        if ch_at(w, d) == '.' {
            lemma_digit_run(w, d + 1);
            let d2 = digits_end(w, d + 1);
            assert forall|x: int| j + d + 1 <= x < j + d2 implies digit_char(#[trigger] s[x]) by {
                assert(ch_at(s, j + (x - j)) == ch_at(w, x - j));
            }
            assert(ch_at(s, j + d2) == ch_at(w, d2) || (d2 == n && ch_at(s, j + d2) == ' '));
            lemma_digits_end_of(s, j + d + 1, j + d2);
        }
    } else if c == ':' && letter_char(ch_at(w, 1)) {
        lemma_word_run(w, 1);
        let e = word_end(w, 1);
        assert forall|x: int| j + 1 <= x < j + e implies word_char(#[trigger] s[x]) by {
            assert(ch_at(s, j + (x - j)) == ch_at(w, x - j));
        }
        assert(ch_at(s, j + e) == ch_at(w, e) || (e == n && ch_at(s, j + e) == ' '));
        lemma_word_end_of(s, j + 1, j + e);
    }
    if c != '\0' {
        assert(token_text(s, j) =~= token_text(w, 0));
    }
}

/// The token sequence of a text is determined by the text: two sequences
/// that each hold, up to their only end-of-input token, the tokens that the
/// scanner reads from the same text agree token for token.
pub proof fn lemma_tokens_determined(s: Seq<char>, ts1: Seq<Token>, ts2: Seq<Token>)
    requires
        ts1.len() > 0,
        ts1.last().ttype == TokenType::META_EOF,
        forall|k: int|
            0 <= k < ts1.len() - 1 ==> (#[trigger] ts1[k]).ttype != TokenType::META_EOF,
        forall|k: int| 0 <= k < ts1.len() ==> token_at(#[trigger] ts1[k], s, token_start(s, k as nat)),
        ts2.len() > 0,
        ts2.last().ttype == TokenType::META_EOF,
        forall|k: int|
            0 <= k < ts2.len() - 1 ==> (#[trigger] ts2[k]).ttype != TokenType::META_EOF,
        forall|k: int| 0 <= k < ts2.len() ==> token_at(#[trigger] ts2[k], s, token_start(s, k as nat)),
    ensures
        ts1.len() == ts2.len(),
        forall|k: int|
            0 <= k < ts1.len() ==> (#[trigger] ts1[k]).ttype == ts2[k].ttype && ts1[k].literal@
                == ts2[k].literal@ && ts1[k].line_num == ts2[k].line_num && ts1[k].char_pos
                == ts2[k].char_pos,
{
    if ts1.len() < ts2.len() {
        let l = ts1.len() - 1;
        assert(token_at(ts1[l], s, token_start(s, l as nat)));
        assert(token_at(ts2[l], s, token_start(s, l as nat)));
        assert(ts2[l].ttype != TokenType::META_EOF);
    } else if ts2.len() < ts1.len() {
        let l = ts2.len() - 1;
        assert(token_at(ts1[l], s, token_start(s, l as nat)));
        assert(token_at(ts2[l], s, token_start(s, l as nat)));
        assert(ts1[l].ttype != TokenType::META_EOF);
    }
    assert forall|k: int| 0 <= k < ts1.len() implies (#[trigger] ts1[k]).ttype == ts2[k].ttype
        && ts1[k].literal@ == ts2[k].literal@ && ts1[k].line_num == ts2[k].line_num
        && ts1[k].char_pos == ts2[k].char_pos by {
        assert(token_at(ts1[k], s, token_start(s, k as nat)));
        assert(token_at(ts2[k], s, token_start(s, k as nat)));
    }
}

/// Relies on `str::chars`: the characters of the text, in order. A vector
/// never spans more than `isize::MAX` bytes.
#[verifier::external_body]
pub(crate) fn chars_of(s: &str) -> (r: Vec<char>)
    ensures
        r@ == s@,
        r@.len() <= isize::MAX,
{
    s.chars().collect()
}

/// Relies on `String::push`: appends one character.
#[verifier::external_body]
fn push_char(s: &mut String, c: char)
    ensures
        final(s)@ == old(s)@.push(c),
{
    s.push(c);
}

/// Accumulates the text of one multi-character token.
pub struct TokenBuilder {
    pub ttype: TokenType,
    pub literal: String,
    pub line_num: usize,
    pub char_pos: usize,
}

impl TokenBuilder {
    /// Whether `c` may extend the token under construction: identifiers take
    /// word characters until a closing `!` or `?`, symbols take word
    /// characters, integers take digits and one `.` (becoming floats), floats
    /// take digits, and `*`, `=`, `!`, `<`, `>` take their second character.
    pub open spec fn accepts(&self, c: char) -> bool {
        match self.ttype {
            TokenType::LIT_IDENT => (self.literal@.len() == 0 || !mark_char(self.literal@.last()))
                && (word_char(c) || mark_char(c)),
            TokenType::LIT_SYMBOL => word_char(c),
            TokenType::LIT_INT => digit_char(c) || c == '.',
            TokenType::LIT_FLOAT => digit_char(c),
            TokenType::OP_MUL => c == '*',
            TokenType::OP_ASSIGN | TokenType::OP_NOT | TokenType::OP_LT | TokenType::OP_GT => c
                == '=',
            _ => false,
        }
    }

    /// Opens a builder on the first character of a token.
    pub fn start(ttype: TokenType, c: char, line_num: usize, char_pos: usize) -> (r: TokenBuilder)
        ensures
            r.ttype == ttype,
            r.literal@ == seq![c],
            r.line_num == line_num,
            r.char_pos == char_pos,
    {
        let mut literal = String::new();
        push_char(&mut literal, c);
        TokenBuilder { ttype, literal, line_num, char_pos }
    }

    /// Extends the token by `c`, moving along the one transition that `c`
    /// allows; a character the builder does not accept is ruled out.
    pub fn push(&mut self, c: char)
        requires
            old(self).accepts(c),
        ensures
            final(self).ttype == grown_type(old(self).ttype, c),
            final(self).literal@ == old(self).literal@.push(c),
            final(self).line_num == old(self).line_num,
            final(self).char_pos == old(self).char_pos,
    {
        self.ttype =
        match self.ttype {
            TokenType::LIT_INT => if c == '.' {
                TokenType::LIT_FLOAT
            } else {
                TokenType::LIT_INT
            },
            TokenType::OP_MUL => TokenType::OP_POW,
            TokenType::OP_ASSIGN => TokenType::OP_EQ,
            TokenType::OP_NOT => TokenType::OP_NEQ,
            TokenType::OP_LT => TokenType::OP_LTE,
            TokenType::OP_GT => TokenType::OP_GTE,
            t => t,
        };
        push_char(&mut self.literal, c);
    }

    /// Closes the builder; a finished identifier is looked up as a keyword.
    pub fn finish(self) -> (r: Token)
        ensures
            r.ttype == (if self.ttype == TokenType::LIT_IDENT {
                keyword_type(self.literal@)
            } else {
                self.ttype
            }),
            r.literal@ == self.literal@,
            r.line_num == self.line_num,
            r.char_pos == self.char_pos,
    {
        let ttype = if self.ttype == TokenType::LIT_IDENT {
            lookup_ident(&self.literal)
        } else {
            self.ttype
        };
        Token { ttype, literal: self.literal, line_num: self.line_num, char_pos: self.char_pos }
    }
}

fn single_type_of(c: char) -> (r: TokenType)
    ensures
        r == single_type(c),
{
    if c == '\0' {
        TokenType::META_EOF
    } else if c == '\n' || c == '\r' || c == ';' {
        TokenType::DEL_END
    } else if c == '+' {
        TokenType::OP_ADD
    } else if c == '-' {
        TokenType::OP_SUB
    } else if c == '*' {
        TokenType::OP_MUL
    } else if c == '/' {
        TokenType::OP_DIV
    } else if c == '%' {
        TokenType::OP_MOD
    } else if c == '=' {
        TokenType::OP_ASSIGN
    } else if c == '!' {
        TokenType::OP_NOT
    } else if c == '<' {
        TokenType::OP_LT
    } else if c == '>' {
        TokenType::OP_GT
    } else if c == ':' {
        TokenType::DEL_COLON
    } else if c == ',' {
        TokenType::DEL_COMMA
    } else if c == '(' {
        TokenType::DEL_LPAREN
    } else if c == ')' {
        TokenType::DEL_RPAREN
    } else {
        TokenType::META_ILLEGAL
    }
}

/// The scanner: owns the source characters and the read position.
pub struct Lexer {
    chars: Vec<char>,
    pos: usize,
    line_num: usize,
    char_pos: usize,
}

impl Lexer {
    /// The source characters.
    pub closed spec fn source(&self) -> Seq<char> {
        self.chars@
    }

    /// The read position in the source.
    pub closed spec fn position(&self) -> int {
        self.pos as int
    }

    pub closed spec fn wf(&self) -> bool {
        &&& self.pos <= self.chars@.len()
        &&& self.chars@.len() <= isize::MAX
        &&& self.line_num == line_of(self.chars@, self.pos as int)
        &&& self.char_pos == col_of(self.chars@, self.pos as int)
    }

    pub fn new(input: &str) -> (r: Lexer)
        ensures
            r.wf(),
            r.source() == input@,
            r.position() == 0,
    {
        Lexer { chars: chars_of(input), pos: 0, line_num: 1, char_pos: 1 }
    }

    fn ch(&self, i: usize) -> (r: char)
        ensures
            r == ch_at(self.chars@, i as int),
    {
        if i < self.chars.len() {
            self.chars[i]
        } else {
            '\0'
        }
    }

    /// Moves one character forward, keeping line and column.
    fn read_char(&mut self)
        requires
            old(self).wf(),
            old(self).pos < old(self).chars@.len(),
        ensures
            final(self).wf(),
            final(self).chars == old(self).chars,
            final(self).pos == old(self).pos + 1,
    {
        proof {
            lemma_position_bounds(self.chars@, self.pos as int);
        }
        let c = self.chars[self.pos];
        if c == '\n' || c == '\r' {
            self.line_num = self.line_num + 1;
            self.char_pos = 1;
        } else {
            self.char_pos = self.char_pos + 1;
        }
        self.pos = self.pos + 1;
    }

    fn skip_whitespace(&mut self)
        requires
            old(self).wf(),
        ensures
            final(self).wf(),
            final(self).chars == old(self).chars,
            final(self).pos == skip_blanks(old(self).chars@, old(self).pos as int),
    {
        proof {
            lemma_skip_blanks(self.chars@, self.pos as int);
        }
        while self.pos < self.chars.len() && is_whitespace(Some(self.chars[self.pos]))
            invariant
                self.wf(),
                self.chars == old(self).chars,
                skip_blanks(self.chars@, self.pos as int) == skip_blanks(
                    old(self).chars@,
                    old(self).pos as int,
                ),
            decreases self.chars@.len() - self.pos,
        {
            self.read_char();
        }
    }

    /// Feeds the builder while the next character is a word character.
    fn take_word(&mut self, b: &mut TokenBuilder)
        requires
            old(self).wf(),
            old(b).ttype == TokenType::LIT_IDENT || old(b).ttype == TokenType::LIT_SYMBOL,
            old(b).literal@.len() > 0,
            !mark_char(old(b).literal@.last()),
        ensures
            final(self).wf(),
            final(self).chars == old(self).chars,
            final(self).pos == word_end(old(self).chars@, old(self).pos as int),
            final(b).ttype == old(b).ttype,
            final(b).literal@ == old(b).literal@ + old(self).chars@.subrange(
                old(self).pos as int,
                final(self).pos as int,
            ),
            final(b).literal@.len() > 0,
            !mark_char(final(b).literal@.last()),
            final(b).line_num == old(b).line_num,
            final(b).char_pos == old(b).char_pos,
    {
        proof {
            lemma_word_end(self.chars@, self.pos as int);
        }
        let ghost p0 = self.pos as int;
        while self.pos < self.chars.len() && (is_letter(Some(self.chars[self.pos])) || is_digit(
            Some(self.chars[self.pos]),
        ))
            invariant
                self.wf(),
                self.chars == old(self).chars,
                0 <= p0 <= self.pos,
                b.ttype == TokenType::LIT_IDENT || b.ttype == TokenType::LIT_SYMBOL,
                word_end(self.chars@, self.pos as int) == word_end(self.chars@, p0),
                b.ttype == old(b).ttype,
                b.literal@ == old(b).literal@ + self.chars@.subrange(p0, self.pos as int),
                b.literal@.len() > 0,
                !mark_char(b.literal@.last()),
                b.line_num == old(b).line_num,
                b.char_pos == old(b).char_pos,
            decreases self.chars@.len() - self.pos,
        {
            let c = self.chars[self.pos];
            let ghost p = self.pos as int;
            b.push(c);
            self.read_char();
            assert(self.chars@.subrange(p0, p + 1) =~= self.chars@.subrange(p0, p).push(c));
        }
    }

    /// Feeds the builder while the next character is a digit.
    fn take_digits(&mut self, b: &mut TokenBuilder)
        requires
            old(self).wf(),
            old(b).ttype == TokenType::LIT_INT || old(b).ttype == TokenType::LIT_FLOAT,
        ensures
            final(self).wf(),
            final(self).chars == old(self).chars,
            final(self).pos == digits_end(old(self).chars@, old(self).pos as int),
            final(b).ttype == old(b).ttype,
            final(b).literal@ == old(b).literal@ + old(self).chars@.subrange(
                old(self).pos as int,
                final(self).pos as int,
            ),
            final(b).line_num == old(b).line_num,
            final(b).char_pos == old(b).char_pos,
    {
        proof {
            lemma_digits_end(self.chars@, self.pos as int);
        }
        let ghost p0 = self.pos as int;
        while self.pos < self.chars.len() && is_digit(Some(self.chars[self.pos]))
            invariant
                self.wf(),
                self.chars == old(self).chars,
                0 <= p0 <= self.pos,
                b.ttype == TokenType::LIT_INT || b.ttype == TokenType::LIT_FLOAT,
                digits_end(self.chars@, self.pos as int) == digits_end(self.chars@, p0),
                b.ttype == old(b).ttype,
                b.literal@ == old(b).literal@ + self.chars@.subrange(p0, self.pos as int),
                b.line_num == old(b).line_num,
                b.char_pos == old(b).char_pos,
            decreases self.chars@.len() - self.pos,
        {
            let c = self.chars[self.pos];
            let ghost p = self.pos as int;
            b.push(c);
            self.read_char();
            assert(self.chars@.subrange(p0, p + 1) =~= self.chars@.subrange(p0, p).push(c));
        }
    }

    /// Produces the next token. Blanks (spaces and tabs) before it are
    /// skipped; line breaks and `;` are statement ends; the end of input
    /// yields `META_EOF` again on every further call.
    pub fn next_token(&mut self) -> (r: Token)
        requires
            old(self).wf(),
        ensures
            final(self).wf(),
            final(self).source() == old(self).source(),
            token_at(r, old(self).source(), skip_blanks(old(self).source(), old(self).position())),
            final(self).position() == resume_at(
                old(self).source(),
                skip_blanks(old(self).source(), old(self).position()),
            ),
    {
        self.skip_whitespace();
        let ghost s = self.chars@;
        let ghost i = self.pos as int;
        proof {
            lemma_skip_blanks(s, old(self).pos as int);
        }
        let line_num = self.line_num;
        let char_pos = self.char_pos;
        let c = self.ch(self.pos);
        let c1 = self.ch(self.pos + 1);
        if is_letter(Some(c)) {
            let mut b = TokenBuilder::start(TokenType::LIT_IDENT, c, line_num, char_pos);
            self.read_char();
            self.take_word(&mut b);
            let ghost e = self.pos as int;
            proof {
                lemma_word_end(s, i + 1);
            }
            assert(b.literal@ =~= s.subrange(i, e));
            let m = self.ch(self.pos);
            if m == '!' || m == '?' {
                b.push(m);
                self.read_char();
                assert(b.literal@ =~= s.subrange(i, e + 1));
            }
            b.finish()
        } else if is_digit(Some(c)) {
            let mut b = TokenBuilder::start(TokenType::LIT_INT, c, line_num, char_pos);
            self.read_char();
            self.take_digits(&mut b);
            let ghost e = self.pos as int;
            proof {
                lemma_digits_end(s, i + 1);
            }
            assert(b.literal@ =~= s.subrange(i, e));
            if self.ch(self.pos) == '.' {
                b.push('.');
                self.read_char();
                self.take_digits(&mut b);
                proof {
                    lemma_digits_end(s, e + 1);
                }
                assert(b.literal@ =~= s.subrange(i, self.pos as int));
            }
            b.finish()
        } else if c == ':' && is_letter(Some(c1)) {
            let mut b = TokenBuilder::start(TokenType::LIT_SYMBOL, c, line_num, char_pos);
            self.read_char();
            self.take_word(&mut b);
            proof {
                lemma_word_end(s, i + 1);
            }
            assert(b.literal@ =~= s.subrange(i, self.pos as int));
            b.finish()
        } else if (c == '*' && c1 == '*') || ((c == '=' || c == '!' || c == '<' || c == '>') && c1
            == '=') {
            let mut b = TokenBuilder::start(single_type_of(c), c, line_num, char_pos);
            self.read_char();
            b.push(c1);
            self.read_char();
            assert(b.literal@ =~= s.subrange(i, i + 2));
            b.finish()
        } else {
            let mut literal = String::new();
            push_char(&mut literal, c);
            if c != '\0' {
                self.read_char();
                assert(literal@ =~= s.subrange(i, i + 1));
            }
            Token { ttype: single_type_of(c), literal, line_num, char_pos }
        }
    }
}

} // verus!

verus! {

/// The token sequence of `input`: every token that the scanner produces, up
/// to and including the first `META_EOF`.
pub fn tokenize(input: &str) -> (r: Vec<Token>)
    ensures
        r@.len() > 0,
        r@.last().ttype == TokenType::META_EOF,
        forall|k: int| 0 <= k < r@.len() - 1 ==> (#[trigger] r@[k]).ttype != TokenType::META_EOF,
        forall|k: int| 0 <= k < r@.len() ==> token_at(#[trigger] r@[k], input@, token_start(input@, k as nat)),
{
    let mut lexer = Lexer::new(input);
    let mut out: Vec<Token> = Vec::new();
    loop
        invariant
            lexer.wf(),
            lexer.source() == input@,
            lexer.position() == cursor(input@, out@.len()),
            forall|k: int| 0 <= k < out@.len() ==> (#[trigger] out@[k]).ttype != TokenType::META_EOF,
            forall|k: int| 0 <= k < out@.len() ==> token_at(#[trigger] out@[k], input@, token_start(input@, k as nat)),
        decreases input@.len() - lexer.position(),
    {
        let ghost s = input@;
        let ghost k = out@.len();
        let ghost p0 = lexer.position();
        proof {
            lemma_skip_blanks(s, p0);
        }
        let t = lexer.next_token();
        let done = t.ttype == TokenType::META_EOF;
        out.push(t);
        assert(token_at(out@[k as int], s, token_start(s, k)));
        if done {
            return out;
        }
        proof {
            let i = token_start(s, k);
            if ch_at(s, i) == '\0' {
            } else {
                lemma_token_end(s, i);
            }
            assert(cursor(s, (k + 1) as nat) == resume_at(s, i));
        }
    }
}

} // verus!
