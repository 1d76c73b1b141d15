//! The scanner: a classifier that reads one token at an offset, and the loop
//! that turns a whole input into tokens.
//!
//! When a token cannot be read, `scan` stops at its diagnostic; `scan_with`
//! can instead go on past the unreadable text and collect every diagnostic.

use vstd::prelude::*;

use crate::text::{
    alphabetic,
    alphanumeric,
    white_space,
    is_ascii_digit,
    is_alphabetic,
    is_alphanumeric,
    is_whitespace,
    push_char,
    collect_chars,
    spells,
};
use crate::token::{Token, TokenType, same_kind, same_token};
use crate::Error;
use crate::ErrorPolicy;

verus! {

// ---------------------------------------------------------------------------
// The classifier, as spec functions over the input and an offset.
// ---------------------------------------------------------------------------

/// A character that may continue an identifier.
pub open spec fn ident_char(c: char) -> bool {
    alphanumeric(c) || c == '_'
}

/// End of the longest run of identifier characters from `j`.
pub open spec fn ident_end(code: Seq<char>, j: int) -> int
    decreases code.len() - j,
{
    if 0 <= j < code.len() && ident_char(code[j]) {
        ident_end(code, j + 1)
    } else {
        j
    }
}

/// End of the longest run of whitespace from `j`.
pub open spec fn space_end(code: Seq<char>, j: int) -> int
    decreases code.len() - j,
{
    if 0 <= j < code.len() && white_space(code[j]) {
        space_end(code, j + 1)
    } else {
        j
    }
}

/// End of the longest run of ASCII digits from `j`.
pub open spec fn digit_end(code: Seq<char>, j: int) -> int
    decreases code.len() - j,
{
    if 0 <= j < code.len() && is_ascii_digit(code[j]) {
        digit_end(code, j + 1)
    } else {
        j
    }
}

/// Offset of the first newline at or after `j`, or the end of the input.
pub open spec fn line_end(code: Seq<char>, j: int) -> int
    decreases code.len() - j,
{
    if 0 <= j < code.len() && code[j] != '\n' {
        line_end(code, j + 1)
    } else {
        j
    }
}

/// Whether `*/` starts at `j`.
pub open spec fn closes_at(code: Seq<char>, j: int) -> bool {
    0 <= j && j + 1 < code.len() && code[j] == '*' && code[j + 1] == '/'
}

/// Offset of the first `*/` at or after `j`, or the end of the input.
pub open spec fn block_end(code: Seq<char>, j: int) -> int
    decreases code.len() - j,
{
    if 0 <= j < code.len() && !closes_at(code, j) {
        block_end(code, j + 1)
    } else {
        j
    }
}

pub open spec fn next_is(code: Seq<char>, i: int, c: char) -> bool {
    i + 1 < code.len() && code[i + 1] == c
}

/// A token at `i` is an identifier or a keyword.
pub open spec fn starts_word(code: Seq<char>, i: int) -> bool {
    alphabetic(code[i])
}

/// A token at `i` is whitespace.
pub open spec fn starts_space(code: Seq<char>, i: int) -> bool {
    !alphabetic(code[i]) && white_space(code[i])
}

/// A token at `i` is a number literal.
pub open spec fn starts_number(code: Seq<char>, i: int) -> bool {
    !alphabetic(code[i]) && !white_space(code[i]) && is_ascii_digit(code[i])
}

/// A token at `i` is a comment, an operator, punctuation or illegal.
pub open spec fn starts_symbol(code: Seq<char>, i: int) -> bool {
    !alphabetic(code[i]) && !white_space(code[i]) && !is_ascii_digit(code[i])
}

pub open spec fn starts_line_comment(code: Seq<char>, i: int) -> bool {
    starts_symbol(code, i) && code[i] == '/' && next_is(code, i, '/')
}

pub open spec fn starts_block_comment(code: Seq<char>, i: int) -> bool {
    starts_symbol(code, i) && code[i] == '/' && next_is(code, i, '*')
}

/// The token at `i` is whitespace or a comment, which the scan leaves out.
pub open spec fn skipped_at(code: Seq<char>, i: int) -> bool {
    starts_space(code, i) || starts_line_comment(code, i) || starts_block_comment(code, i)
}

/// End of the integer part of a number literal at `i`.
pub open spec fn int_end(code: Seq<char>, i: int) -> int {
    digit_end(code, i + 1)
}

/// The number literal at `i` has a decimal point followed by a digit.
pub open spec fn is_double_at(code: Seq<char>, i: int) -> bool {
    &&& starts_number(code, i)
    &&& int_end(code, i) + 1 < code.len()
    &&& code[int_end(code, i)] == '.'
    &&& is_ascii_digit(code[int_end(code, i) + 1])
}

/// The kind and length of an operator or punctuation token at `i`, if the
/// character there starts one.
pub open spec fn symbol_kind(code: Seq<char>, i: int) -> Option<(TokenType, int)> {
    let c = code[i];
    if c == '(' {
        Some((TokenType::LParen, 1))
    } else if c == ')' {
        Some((TokenType::RParen, 1))
    } else if c == '[' {
        Some((TokenType::LSquare, 1))
    } else if c == ']' {
        Some((TokenType::RSquare, 1))
    } else if c == '{' {
        Some((TokenType::LCurly, 1))
    } else if c == '}' {
        Some((TokenType::RCurly, 1))
    } else if c == '+' {
        Some((TokenType::Plus, 1))
    } else if c == '-' {
        Some((TokenType::Minus, 1))
    } else if c == '*' {
        Some((TokenType::Multiply, 1))
    } else if c == '/' {
        Some((TokenType::Divide, 1))
    } else if c == '%' {
        Some((TokenType::Modulus, 1))
    } else if c == '<' {
        if next_is(code, i, '=') {
            Some((TokenType::LE, 2))
        } else if next_is(code, i, '<') {
            Some((TokenType::LeftShift, 2))
        } else {
            Some((TokenType::LT, 1))
        }
    } else if c == '>' {
        if next_is(code, i, '=') {
            Some((TokenType::GE, 2))
        } else if next_is(code, i, '>') {
            Some((TokenType::RightShift, 2))
        } else {
            Some((TokenType::GT, 1))
        }
    } else if c == '&' {
        if next_is(code, i, '&') {
            Some((TokenType::And, 2))
        } else {
            Some((TokenType::BitwiseAnd, 1))
        }
    } else if c == '|' {
        if next_is(code, i, '|') {
            Some((TokenType::Or, 2))
        } else {
            Some((TokenType::BitwiseOr, 1))
        }
    } else {
        None
    }
}

/// Offset just past the token (or the offending text) at `i`.
pub open spec fn tok_end(code: Seq<char>, i: int) -> int {
    if starts_word(code, i) {
        ident_end(code, i + 1)
    } else if starts_space(code, i) {
        space_end(code, i + 1)
    } else if starts_number(code, i) {
        if is_double_at(code, i) {
            digit_end(code, int_end(code, i) + 1)
        } else {
            int_end(code, i)
        }
    } else if starts_line_comment(code, i) {
        line_end(code, i + 2)
    } else if starts_block_comment(code, i) {
        if block_end(code, i + 2) < code.len() {
            block_end(code, i + 2) + 2
        } else {
            block_end(code, i + 2)
        }
    } else {
        match symbol_kind(code, i) {
            Some(s) => i + s.1,
            None => i + 1,
        }
    }
}

/// The value of a string of decimal digits.
pub open spec fn digits_value(s: Seq<char>) -> int
    decreases s.len(),
{
    if s.len() == 0 {
        0
    } else {
        digits_value(s.drop_last()) * 10 + (s.last() as int - '0' as int)
    }
}

/// The integer literal at `i` does not fit in an `i128`.
pub open spec fn int_overflows(code: Seq<char>, i: int) -> bool {
    starts_number(code, i) && !is_double_at(code, i) && digits_value(
        code.subrange(i, int_end(code, i)),
    ) > i128::MAX
}

pub open spec fn pow10(n: nat) -> int
    decreases n,
{
    if n == 0 {
        1
    } else {
        10 * pow10((n - 1) as nat)
    }
}

/// The decimal digits of 2^1024 - 2^970, the least value that rounds to
/// infinity as an `f64`.
pub open spec fn f64_limit_digits() -> Seq<char> {
    "179769313486231580793728971405303415079934132710037826936173778980444968292764750946649017977587207096330286416692887910946555547851940402630657488671505820681908902000708383676273854845817711531764475730270069855571366959622842914819860834936475292719074168444365510704342711559699508093042880177904174497792"@
}

pub open spec fn f64_limit() -> int {
    digits_value(f64_limit_digits())
}

/// The floating-point literal at `i` does not fit in an `f64`. The bound
/// is an integer, so the literal reaches it exactly when its integer part
/// does.
pub open spec fn double_overflows(code: Seq<char>, i: int) -> bool {
    is_double_at(code, i) && digits_value(code.subrange(i, int_end(code, i))) >= f64_limit()
}

/// The token at `i` cannot be read: a number that overflows its type, or a
/// character that starts no token.
pub open spec fn fails_at(code: Seq<char>, i: int) -> bool {
    int_overflows(code, i) || double_overflows(code, i) || (starts_symbol(code, i) && !starts_line_comment(code, i)
        && !starts_block_comment(code, i) && symbol_kind(code, i) is None)
}

/// The keyword spelled by `w`, if any.
pub open spec fn keyword(w: Seq<char>) -> Option<TokenType> {
    if w == "i64"@ {
        Some(TokenType::I64)
    } else if w == "u64"@ {
        Some(TokenType::U64)
    } else if w == "u8"@ {
        Some(TokenType::U8)
    } else if w == "f64"@ {
        Some(TokenType::F64)
    } else if w == "bool"@ {
        Some(TokenType::Bool)
    } else if w == "char"@ {
        Some(TokenType::Char)
    } else if w == "type"@ {
        Some(TokenType::Type)
    } else if w == "enum"@ {
        Some(TokenType::Enum)
    } else if w == "let"@ {
        Some(TokenType::Let)
    } else if w == "mut"@ {
        Some(TokenType::Mut)
    } else if w == "function"@ {
        Some(TokenType::Function)
    } else if w == "return"@ {
        Some(TokenType::Return)
    } else if w == "yield"@ {
        Some(TokenType::Yield)
    } else if w == "while"@ {
        Some(TokenType::While)
    } else if w == "for"@ {
        Some(TokenType::For)
    } else if w == "if"@ {
        Some(TokenType::If)
    } else if w == "else"@ {
        Some(TokenType::Else)
    } else if w == "match"@ {
        Some(TokenType::Match)
    } else {
        None
    }
}

/// `k` is the kind of the word `w`: its keyword, or an identifier that
/// holds `w`.
pub open spec fn word_kind(w: Seq<char>, k: TokenType) -> bool {
    match keyword(w) {
        Some(kw) => k == kw,
        None => k is Identifier && k->Identifier_0@ == w,
    }
}

/// `k` is the kind of the token read at `i`.
pub open spec fn tok_kind(code: Seq<char>, i: int, k: TokenType) -> bool {
    if starts_word(code, i) {
        word_kind(code.subrange(i, ident_end(code, i + 1)), k)
    } else if starts_space(code, i) {
        k == TokenType::Whitespace
    } else if starts_number(code, i) {
        if is_double_at(code, i) {
            k is Double && k->Double_0@ == code.subrange(i, tok_end(code, i))
        } else {
            k == TokenType::Integer(digits_value(code.subrange(i, tok_end(code, i))) as i128)
        }
    } else if starts_line_comment(code, i) {
        k is LineComment && k->LineComment_0@ == code.subrange(i + 2, tok_end(code, i))
    } else if starts_block_comment(code, i) {
        k is MultiLineComment && k->MultiLineComment_0@ == code.subrange(
            i + 2,
            block_end(code, i + 2),
        )
    } else {
        symbol_kind(code, i) matches Some(s) && s.0 == k
    }
}

/// Kinds that the scan leaves out of its output.
pub open spec fn is_trivia(k: TokenType) -> bool {
    k is Whitespace || k is LineComment || k is MultiLineComment
}

/// Code of the diagnostic for the token at `i`.
pub open spec fn error_id(code: Seq<char>, i: int) -> usize {
    if is_double_at(code, i) {
        1
    } else if starts_number(code, i) {
        2
    } else {
        0
    }
}

/// Message of the diagnostic for the token at `i`.
pub open spec fn error_message(code: Seq<char>, i: int) -> Seq<char> {
    if is_double_at(code, i) {
        "Invalid Token: Cannot parse '"@ + code.subrange(i, tok_end(code, i))
            + "' as a 64 bit floating point"@
    } else if starts_number(code, i) {
        "Invalid Token: Cannot parse '"@ + code.subrange(i, tok_end(code, i))
            + "' as an 128 bit integer"@
    } else {
        "Invalid Token: '"@ + seq![code[i]] + "' is an illegal character"@
    }
}

/// Text of the markup span of the diagnostic for the token at `i`.
pub open spec fn error_note(code: Seq<char>, i: int) -> Seq<char> {
    if is_double_at(code, i) {
        "This number cannot fit in a f64"@
    } else if starts_number(code, i) {
        "This number cannot fit in an i128"@
    } else {
        "This character is not used in Quicklime"@
    }
}

/// `e` is the diagnostic for the token at `i`: its markup spans the whole
/// offending text.
pub open spec fn is_error_at(code: Seq<char>, i: int, e: Error) -> bool {
    e.is_simple(
        error_message(code, i),
        error_id(code, i),
        i as usize,
        (tok_end(code, i) - i) as usize,
        error_note(code, i),
    )
}

/// `res` is what reading one token at `i` gives.
pub open spec fn token_result(code: Seq<char>, i: int, res: Result<(TokenType, usize), Error>) -> bool {
    match res {
        Ok((k, n)) => !fails_at(code, i) && i + n == tok_end(code, i) && tok_kind(code, i, k),
        Err(e) => fails_at(code, i) && is_error_at(code, i, e),
    }
}

/// Offsets of the tokens that a scan from `i` emits: every token read from
/// `i` on, one after the other, but whitespace and comments.
pub open spec fn emitted(code: Seq<char>, i: int) -> Seq<int>
    decreases code.len() - i,
{
    if 0 <= i < code.len() && i < tok_end(code, i) <= code.len() {
        if skipped_at(code, i) {
            emitted(code, tok_end(code, i))
        } else {
            seq![i] + emitted(code, tok_end(code, i))
        }
    } else {
        seq![]
    }
}

/// Offset of the first token that cannot be read, in a scan from `i`.
pub open spec fn first_failure(code: Seq<char>, i: int) -> Option<int>
    decreases code.len() - i,
{
    if 0 <= i < code.len() && i < tok_end(code, i) <= code.len() {
        if fails_at(code, i) {
            Some(i)
        } else {
            first_failure(code, tok_end(code, i))
        }
    } else {
        None
    }
}

/// Offsets of every token that cannot be read, in a scan from `i` that goes
/// on past them.
pub open spec fn failures(code: Seq<char>, i: int) -> Seq<int>
    decreases code.len() - i,
{
    if 0 <= i < code.len() && i < tok_end(code, i) <= code.len() {
        if fails_at(code, i) {
            seq![i] + failures(code, tok_end(code, i))
        } else {
            failures(code, tok_end(code, i))
        }
    } else {
        seq![]
    }
}

/// `tokens` is the output of a successful scan of `code`.
pub open spec fn scanned(code: Seq<char>, tokens: Seq<Token>) -> bool {
    let starts = emitted(code, 0);
    &&& tokens.len() == starts.len()
    &&& forall|j: int|
        0 <= j < tokens.len() ==> {
            &&& #[trigger] tokens[j].start == starts[j]
            &&& tokens[j].start + tokens[j].length == tok_end(code, starts[j])
            &&& tok_kind(code, starts[j], tokens[j].kind)
        }
}

/// `r` is what scanning `code` gives: the tokens when every token reads,
/// else the diagnostic of the first one that does not.
pub open spec fn scan_result(code: Seq<char>, r: Result<Vec<Token>, Error>) -> bool {
    match r {
        Ok(tokens) => first_failure(code, 0) is None && scanned(code, tokens@),
        Err(e) => first_failure(code, 0) == Some(e.spec_index() as int) && is_error_at(
            code,
            e.spec_index() as int,
            e,
        ),
    }
}

/// `r` is what a scan of `code` under `policy` gives. Fail-fast returns
/// the first diagnostic; collecting returns every diagnostic, in order of
/// offset. Both return the tokens when every token reads.
pub open spec fn scan_with_result(
    code: Seq<char>,
    policy: ErrorPolicy,
    r: Result<Vec<Token>, Vec<Error>>,
) -> bool {
    match r {
        Ok(tokens) => failures(code, 0).len() == 0 && scanned(code, tokens@),
        Err(errors) => {
            let f = failures(code, 0);
            &&& f.len() > 0
            &&& errors@.len() == match policy {
                ErrorPolicy::FailFast => 1,
                ErrorPolicy::CollectAll => f.len(),
            }
            &&& forall|j: int|
                0 <= j < errors@.len() ==> {
                    &&& (#[trigger] errors@[j]).spec_index() == f[j]
                    &&& is_error_at(code, f[j], errors@[j])
                }
        },
    }
}

proof fn lemma_first_failure(code: Seq<char>, i: int)
    requires
        0 <= i <= code.len(),
    ensures
        first_failure(code, i) == if failures(code, i).len() > 0 {
            Some(failures(code, i)[0])
        } else {
            None
        },
    decreases code.len() - i,
{
    if i < code.len() {
        lemma_tok_end_bounds(code, i);
        lemma_first_failure(code, tok_end(code, i));
    }
}

proof fn lemma_trivia_kind(code: Seq<char>, i: int, k: TokenType)
    requires
        0 <= i < code.len(),
        tok_kind(code, i, k),
    ensures
        is_trivia(k) <==> skipped_at(code, i),
{
}

/// Lengths of the tokens read one after the other from `i`, whitespace,
/// comments and unreadable text included.
pub open spec fn consumed_lengths(code: Seq<char>, i: int) -> Seq<int>
    decreases code.len() - i,
{
    if 0 <= i < code.len() && i < tok_end(code, i) <= code.len() {
        seq![tok_end(code, i) - i] + consumed_lengths(code, tok_end(code, i))
    } else {
        seq![]
    }
}

pub open spec fn sum(s: Seq<int>) -> int
    decreases s.len(),
{
    if s.len() == 0 {
        0
    } else {
        s[0] + sum(s.drop_first())
    }
}

/// The text from `p` up to `q` is whitespace and comments, read one token
/// after the other.
pub open spec fn trivia_between(code: Seq<char>, p: int, q: int) -> bool
    decreases q - p,
{
    if p < q {
        &&& 0 <= p < code.len()
        &&& skipped_at(code, p)
        &&& p < tok_end(code, p) <= q
        &&& trivia_between(code, tok_end(code, p), q)
    } else {
        p == q
    }
}

/// The offset just past token `a` is at most the offset of token `b`; it
/// equals it exactly when no whitespace or comment starts there, and all
/// that lies between them is whitespace and comments.
pub open spec fn adjacent(code: Seq<char>, a: Token, b: Token) -> bool {
    &&& a.start + a.length <= b.start
    &&& (a.start + a.length == b.start <==> !skipped_at(code, a.start + a.length))
    &&& trivia_between(code, a.start + a.length, b.start as int)
}

proof fn lemma_run_ends(code: Seq<char>, j: int)
    requires
        0 <= j <= code.len(),
    ensures
        j <= ident_end(code, j) <= code.len(),
        j <= space_end(code, j) <= code.len(),
        j <= digit_end(code, j) <= code.len(),
        j <= line_end(code, j) <= code.len(),
        j <= block_end(code, j) <= code.len(),
        block_end(code, j) < code.len() ==> closes_at(code, block_end(code, j)),
    decreases code.len() - j,
{
    if j < code.len() {
        lemma_run_ends(code, j + 1);
    }
}

/// Every token is read in at least one character, and within the input.
pub proof fn lemma_tok_end_bounds(code: Seq<char>, i: int)
    requires
        0 <= i < code.len(),
    ensures
        i < tok_end(code, i) <= code.len(),
{
    lemma_run_ends(code, i + 1);
    if i + 2 <= code.len() {
        lemma_run_ends(code, i + 2);
    }
    if is_double_at(code, i) {
        lemma_run_ends(code, int_end(code, i) + 1);
    }
}

proof fn lemma_consumed_from(code: Seq<char>, i: int)
    requires
        0 <= i <= code.len(),
    ensures
        sum(consumed_lengths(code, i)) == code.len() - i,
    decreases code.len() - i,
{
    if i < code.len() {
        lemma_tok_end_bounds(code, i);
        lemma_consumed_from(code, tok_end(code, i));
        let s = consumed_lengths(code, i);
        assert(s.drop_first() == consumed_lengths(code, tok_end(code, i)));
    }
}

/// The lengths of the tokens read one after the other over an input add up
/// to the input's length: no character is skipped or read twice.
pub proof fn lemma_consumed_covers_input(code: Seq<char>)
    ensures
        sum(consumed_lengths(code, 0)) == code.len(),
{
    lemma_consumed_from(code, 0);
}

proof fn lemma_emitted_order(code: Seq<char>, i: int)
    requires
        0 <= i <= code.len(),
    ensures
        forall|j: int|
            0 <= j < emitted(code, i).len() ==> i <= #[trigger] emitted(code, i)[j] < code.len(),
        emitted(code, i).len() > 0 && i < code.len() ==> (emitted(code, i)[0] == i
            <==> !skipped_at(code, i)),
        emitted(code, i).len() > 0 ==> trivia_between(code, i, emitted(code, i)[0]),
        forall|j: int|
            0 <= j < emitted(code, i).len() - 1 ==> {
                let p = #[trigger] emitted(code, i)[j];
                &&& tok_end(code, p) <= emitted(code, i)[j + 1]
                &&& (tok_end(code, p) == emitted(code, i)[j + 1] <==> !skipped_at(
                    code,
                    tok_end(code, p),
                ))
                &&& trivia_between(code, tok_end(code, p), emitted(code, i)[j + 1])
            },
    decreases code.len() - i,
{
    if i < code.len() {
        lemma_tok_end_bounds(code, i);
        let n = tok_end(code, i);
        lemma_emitted_order(code, n);
        let rest = emitted(code, n);
        if !skipped_at(code, i) {
            let e = emitted(code, i);
            assert(e == seq![i] + rest);
            assert forall|j: int| 0 <= j < e.len() - 1 implies {
                let p = #[trigger] e[j];
                &&& tok_end(code, p) <= e[j + 1]
                &&& (tok_end(code, p) == e[j + 1] <==> !skipped_at(code, tok_end(code, p)))
                &&& trivia_between(code, tok_end(code, p), e[j + 1])
            } by {
                if j > 0 {
                    assert(e[j] == rest[j - 1]);
                    assert(e[j + 1] == rest[j]);
                } else {
                    assert(e[1] == rest[0]);
                }
            }
        }
    }
}

proof fn lemma_word_kind_unique(w: Seq<char>, a: TokenType, b: TokenType)
    requires
        word_kind(w, a),
        word_kind(w, b),
    ensures
        same_kind(a, b),
{
}

proof fn lemma_tok_kind_unique(code: Seq<char>, i: int, a: TokenType, b: TokenType)
    requires
        0 <= i < code.len(),
        tok_kind(code, i, a),
        tok_kind(code, i, b),
    ensures
        same_kind(a, b),
{
    if starts_word(code, i) {
        lemma_word_kind_unique(code.subrange(i, ident_end(code, i + 1)), a, b);
    }
}

/// Two diagnostics carry the same message, code, severity, offset and
/// markup.
pub open spec fn same_error(a: Error, b: Error) -> bool {
    &&& a.spec_message() == b.spec_message()
    &&& a.spec_id() == b.spec_id()
    &&& a.spec_kind() == b.spec_kind()
    &&& a.spec_index() == b.spec_index()
    &&& a.spec_has_more_info() == b.spec_has_more_info()
    &&& a.spec_markup().len() == b.spec_markup().len()
    &&& forall|j: int|
        0 <= j < a.spec_markup().len() ==> {
            &&& (#[trigger] a.spec_markup()[j]).spec_index() == b.spec_markup()[j].spec_index()
            &&& a.spec_markup()[j].spec_length() == b.spec_markup()[j].spec_length()
            &&& a.spec_markup()[j].spec_message() == b.spec_markup()[j].spec_message()
            &&& a.spec_markup()[j].spec_kind() == b.spec_markup()[j].spec_kind()
        }
}

/// Scanning one input twice gives the same output: the same tokens, with
/// payloads of the same contents, or the same diagnostic.
pub proof fn lemma_scan_deterministic(
    code: Seq<char>,
    r1: Result<Vec<Token>, Error>,
    r2: Result<Vec<Token>, Error>,
)
    requires
        scan_result(code, r1),
        scan_result(code, r2),
    ensures
        r1 is Ok <==> r2 is Ok,
        r1 is Ok ==> {
            &&& r1->Ok_0@.len() == r2->Ok_0@.len()
            &&& forall|j: int|
                0 <= j < r1->Ok_0@.len() ==> same_token(#[trigger] r1->Ok_0@[j], r2->Ok_0@[j])
        },
        r1 is Err ==> same_error(r1->Err_0, r2->Err_0),
{
    if r1 is Ok && r2 is Ok {
        let t1 = r1->Ok_0@;
        let t2 = r2->Ok_0@;
        lemma_emitted_order(code, 0);
        assert forall|j: int| 0 <= j < t1.len() implies same_token(#[trigger] t1[j], t2[j]) by {
            assert(t1[j].start == emitted(code, 0)[j]);
            assert(t2[j].start == emitted(code, 0)[j]);
            lemma_tok_kind_unique(code, t1[j].start as int, t1[j].kind, t2[j].kind);
        }
    }
}

/// A word alone (an alphabetic character, then letters, digits or
/// underscores) scans to exactly one token over all of it: its keyword
/// when it spells one, else an identifier that holds the word.
pub proof fn lemma_word_scans_alone(w: Seq<char>, r: Result<Vec<Token>, Error>)
    requires
        w.len() > 0,
        alphabetic(w[0]),
        forall|k: int| 1 <= k < w.len() ==> ident_char(#[trigger] w[k]),
        scan_result(w, r),
    ensures
        r is Ok,
        r->Ok_0@.len() == 1,
        r->Ok_0@[0].start == 0,
        r->Ok_0@[0].length == w.len(),
        word_kind(w, r->Ok_0@[0].kind),
        keyword(w) matches Some(kw) ==> r->Ok_0@[0].kind == kw,
        keyword(w) is None ==> (r->Ok_0@[0].kind matches TokenType::Identifier(s) && s@ == w),
{
    assert forall|j: int| 1 <= j <= w.len() implies ident_end(w, j) == w.len() by {
        lemma_ident_run_to_end(w, j);
    }
    assert(tok_end(w, 0) == w.len());
    assert(emitted(w, w.len() as int) == Seq::<int>::empty());
    assert(emitted(w, 0) == seq![0int]);
    assert(first_failure(w, w.len() as int) is None);
    assert(first_failure(w, 0) is None);
    assert(w.subrange(0, w.len() as int) == w);
}

/// Each keyword alone scans to exactly one token, of that keyword's kind,
/// over all of it.
pub proof fn lemma_keyword_scans_alone(w: Seq<char>, r: Result<Vec<Token>, Error>)
    requires
        keyword(w) is Some,
        scan_result(w, r),
    ensures
        r is Ok,
        r->Ok_0@.len() == 1,
        r->Ok_0@[0].start == 0,
        r->Ok_0@[0].length == w.len(),
        r->Ok_0@[0].kind == keyword(w)->Some_0,
{
    reveal(alphabetic);
    reveal(alphanumeric);
    reveal_strlit("i64");
    reveal_strlit("u64");
    reveal_strlit("u8");
    reveal_strlit("f64");
    reveal_strlit("bool");
    reveal_strlit("char");
    reveal_strlit("type");
    reveal_strlit("enum");
    reveal_strlit("let");
    reveal_strlit("mut");
    reveal_strlit("function");
    reveal_strlit("return");
    reveal_strlit("yield");
    reveal_strlit("while");
    reveal_strlit("for");
    reveal_strlit("if");
    reveal_strlit("else");
    reveal_strlit("match");
    assert(w.len() > 0 && alphabetic(w[0]) && forall|k: int|
        1 <= k < w.len() ==> ident_char(#[trigger] w[k]));
    lemma_word_scans_alone(w, r);
}

proof fn lemma_block_runs_to_end(code: Seq<char>, j: int)
    requires
        0 <= j <= code.len(),
        forall|m: int| j <= m < code.len() ==> !closes_at(code, m),
    ensures
        block_end(code, j) == code.len(),
    decreases code.len() - j,
{
    if j < code.len() {
        lemma_block_runs_to_end(code, j + 1);
    }
}

/// A block comment with no `*/` after its opening runs to the end of the
/// input and reads without a diagnostic; the scan leaves it out.
pub proof fn lemma_unterminated_block_comment(code: Seq<char>, i: int)
    requires
        0 <= i < code.len(),
        starts_block_comment(code, i),
        forall|j: int| i + 2 <= j < code.len() ==> !closes_at(code, j),
    ensures
        tok_end(code, i) == code.len(),
        !fails_at(code, i),
        skipped_at(code, i),
        forall|k: TokenType|
            tok_kind(code, i, k) <==> (k is MultiLineComment && k->MultiLineComment_0@
                == code.subrange(i + 2, code.len() as int)),
{
    lemma_block_runs_to_end(code, i + 2);
}

proof fn lemma_ident_run_to_end(w: Seq<char>, j: int)
    requires
        1 <= j <= w.len(),
        forall|k: int| 1 <= k < w.len() ==> ident_char(#[trigger] w[k]),
    ensures
        ident_end(w, j) == w.len(),
    decreases w.len() - j,
{
    if j < w.len() {
        lemma_ident_run_to_end(w, j + 1);
    }
}

// ---------------------------------------------------------------------------
// The classifier.
// ---------------------------------------------------------------------------

fn ident_run(code: &Vec<char>, j: usize) -> (r: usize)
    requires
        j <= code@.len(),
    ensures
        j <= r <= code@.len(),
        r == ident_end(code@, j as int),
{
    let mut k = j;
    while k < code.len() && (is_alphanumeric(code[k]) || code[k] == '_')
        invariant
            j <= k <= code@.len(),
            ident_end(code@, k as int) == ident_end(code@, j as int),
        decreases code@.len() - k,
    {
        k = k + 1;
    }
    k
}

fn space_run(code: &Vec<char>, j: usize) -> (r: usize)
    requires
        j <= code@.len(),
    ensures
        j <= r <= code@.len(),
        r == space_end(code@, j as int),
{
    let mut k = j;
    while k < code.len() && is_whitespace(code[k])
        invariant
            j <= k <= code@.len(),
            space_end(code@, k as int) == space_end(code@, j as int),
        decreases code@.len() - k,
    {
        k = k + 1;
    }
    k
}

fn digit_run(code: &Vec<char>, j: usize) -> (r: usize)
    requires
        j <= code@.len(),
    ensures
        j <= r <= code@.len(),
        r == digit_end(code@, j as int),
        forall|m: int| j <= m < r ==> is_ascii_digit(#[trigger] code@[m]),
{
    let mut k = j;
    while k < code.len() && '0' <= code[k] && code[k] <= '9'
        invariant
            j <= k <= code@.len(),
            digit_end(code@, k as int) == digit_end(code@, j as int),
            forall|m: int| j <= m < k ==> is_ascii_digit(#[trigger] code@[m]),
        decreases code@.len() - k,
    {
        k = k + 1;
    }
    k
}

fn line_run(code: &Vec<char>, j: usize) -> (r: usize)
    requires
        j <= code@.len(),
    ensures
        j <= r <= code@.len(),
        r == line_end(code@, j as int),
{
    let mut k = j;
    while k < code.len() && code[k] != '\n'
        invariant
            j <= k <= code@.len(),
            line_end(code@, k as int) == line_end(code@, j as int),
        decreases code@.len() - k,
    {
        k = k + 1;
    }
    k
}

fn block_run(code: &Vec<char>, j: usize) -> (r: usize)
    requires
        j <= code@.len(),
    ensures
        j <= r <= code@.len(),
        r == block_end(code@, j as int),
        r < code@.len() ==> closes_at(code@, r as int),
{
    let mut k = j;
    while k < code.len() && !(code[k] == '*' && k + 1 < code.len() && code[k + 1] == '/')
        invariant
            j <= k <= code@.len(),
            block_end(code@, k as int) == block_end(code@, j as int),
        decreases code@.len() - k,
    {
        k = k + 1;
    }
    k
}

/// The kind of the word `code[start..end]`.
fn word_token(code: &Vec<char>, start: usize, end: usize) -> (k: TokenType)
    requires
        start <= end <= code@.len(),
    ensures
        word_kind(code@.subrange(start as int, end as int), k),
{
    if spells(code, start, end, "i64") {
        TokenType::I64
    } else if spells(code, start, end, "u64") {
        TokenType::U64
    } else if spells(code, start, end, "u8") {
        TokenType::U8
    } else if spells(code, start, end, "f64") {
        TokenType::F64
    } else if spells(code, start, end, "bool") {
        TokenType::Bool
    } else if spells(code, start, end, "char") {
        TokenType::Char
    } else if spells(code, start, end, "type") {
        TokenType::Type
    } else if spells(code, start, end, "enum") {
        TokenType::Enum
    } else if spells(code, start, end, "let") {
        TokenType::Let
    } else if spells(code, start, end, "mut") {
        TokenType::Mut
    } else if spells(code, start, end, "function") {
        TokenType::Function
    } else if spells(code, start, end, "return") {
        TokenType::Return
    } else if spells(code, start, end, "yield") {
        TokenType::Yield
    } else if spells(code, start, end, "while") {
        TokenType::While
    } else if spells(code, start, end, "for") {
        TokenType::For
    } else if spells(code, start, end, "if") {
        TokenType::If
    } else if spells(code, start, end, "else") {
        TokenType::Else
    } else if spells(code, start, end, "match") {
        TokenType::Match
    } else {
        TokenType::Identifier(collect_chars(code, start, end))
    }
}

proof fn lemma_digits_value_monotone(s: Seq<char>, a: int, b: int)
    requires
        0 <= a <= b <= s.len(),
        forall|m: int| 0 <= m < s.len() ==> is_ascii_digit(#[trigger] s[m]),
    ensures
        0 <= digits_value(s.subrange(0, a)) <= digits_value(s.subrange(0, b)),
    decreases b,
{
    if b > 0 {
        assert(s.subrange(0, b).drop_last() == s.subrange(0, b - 1));
        assert(is_ascii_digit(s[b - 1]));
        if a == b {
            lemma_digits_value_monotone(s, 0, b - 1);
        } else {
            lemma_digits_value_monotone(s, a, b - 1);
        }
    }
}

/// The value of the digits `code[start..end]`, if it fits in an `i128`.
fn parse_decimal(code: &Vec<char>, start: usize, end: usize) -> (r: Option<i128>)
    requires
        start <= end <= code@.len(),
        forall|m: int| start <= m < end ==> is_ascii_digit(#[trigger] code@[m]),
    ensures
        ({
            let v = digits_value(code@.subrange(start as int, end as int));
            if v <= i128::MAX {
                r == Some(v as i128)
            } else {
                r is None
            }
        }),
{
    let ghost s = code@.subrange(start as int, end as int);
    let mut v: i128 = 0;
    let mut k = start;
    while k < end
        invariant
            start <= k <= end <= code@.len(),
            s == code@.subrange(start as int, end as int),
            forall|m: int| start <= m < end ==> is_ascii_digit(#[trigger] code@[m]),
            v as int == digits_value(s.subrange(0, k - start)),
            0 <= v,
        decreases end - k,
    {
        let ghost prefix = s.subrange(0, k - start);
        let ghost next = s.subrange(0, k - start + 1);
        assert(next.drop_last() == prefix);
        assert(next.last() == code@[k as int]);
        let d: i128 = (code[k] as u32 - '0' as u32) as i128;
        assert(0 <= d <= 9) by {
            assert(is_ascii_digit(code@[k as int]));
        }
        if v > (i128::MAX - d) / 10 {
            assert(v * 10 + d > i128::MAX) by (nonlinear_arith)
                requires
                    v > (i128::MAX - d) / 10,
                    0 <= d <= 9,
            ;
            proof {
                assert forall|m: int| 0 <= m < s.len() implies is_ascii_digit(#[trigger] s[m]) by {
                    assert(s[m] == code@[start + m]);
                }
                lemma_digits_value_monotone(s, k - start + 1, s.len() as int);
                assert(s.subrange(0, s.len() as int) == s);
            }
            return None;
        }
        assert(v * 10 + d <= i128::MAX) by (nonlinear_arith)
            requires
                v <= (i128::MAX - d) / 10,
                0 <= d <= 9,
        ;
        v = v * 10 + d;
        k = k + 1;
    }
    assert(s.subrange(0, end - start) == s);
    Some(v)
}

proof fn lemma_digits_value_concat(a: Seq<char>, b: Seq<char>)
    ensures
        digits_value(a + b) == digits_value(a) * pow10(b.len()) + digits_value(b),
    decreases b.len(),
{
    if b.len() == 0 {
        assert(a + b == a);
    } else {
        let b0 = b.drop_last();
        lemma_digits_value_concat(a, b0);
        assert((a + b).drop_last() == a + b0);
        assert((a + b).last() == b.last());
        let x = digits_value(a);
        let p = pow10(b0.len());
        let y = digits_value(b0);
        assert((x * p + y) * 10 == x * (10 * p) + y * 10) by (nonlinear_arith);
    }
}

proof fn lemma_digits_value_bounds(s: Seq<char>)
    requires
        forall|m: int| 0 <= m < s.len() ==> is_ascii_digit(#[trigger] s[m]),
    ensures
        0 <= digits_value(s) < pow10(s.len()),
        s.len() > 0 && s[0] != '0' ==> digits_value(s) >= pow10((s.len() - 1) as nat),
    decreases s.len(),
{
    if s.len() > 0 {
        let s0 = s.drop_last();
        assert(is_ascii_digit(s[s.len() - 1]));
        lemma_digits_value_bounds(s0);
        if s.len() > 1 && s[0] != '0' {
            assert(s0[0] == s[0]);
        }
    }
}

proof fn lemma_zeros_value(s: Seq<char>)
    requires
        forall|m: int| 0 <= m < s.len() ==> #[trigger] s[m] == '0',
    ensures
        digits_value(s) == 0,
    decreases s.len(),
{
    if s.len() > 0 {
        lemma_zeros_value(s.drop_last());
    }
}

proof fn lemma_pow10_grows(a: nat, b: nat)
    requires
        a <= b,
    ensures
        0 < pow10(a) <= pow10(b),
    decreases b,
{
    if a < b {
        lemma_pow10_grows(a, (b - 1) as nat);
    } else if a > 0 {
        lemma_pow10_grows((a - 1) as nat, (a - 1) as nat);
    }
}

/// Whether the digits `code[start..end]` are at least the least value that
/// rounds to infinity as an `f64`.
fn reaches_f64_limit(code: &Vec<char>, start: usize, end: usize) -> (r: bool)
    requires
        start <= end <= code@.len(),
        forall|m: int| start <= m < end ==> is_ascii_digit(#[trigger] code@[m]),
    ensures
        r == (digits_value(code@.subrange(start as int, end as int)) >= f64_limit()),
{
    let limit = "179769313486231580793728971405303415079934132710037826936173778980444968292764750946649017977587207096330286416692887910946555547851940402630657488671505820681908902000708383676273854845817711531764475730270069855571366959622842914819860834936475292719074168444365510704342711559699508093042880177904174497792";
    proof {
        reveal_strlit("179769313486231580793728971405303415079934132710037826936173778980444968292764750946649017977587207096330286416692887910946555547851940402630657488671505820681908902000708383676273854845817711531764475730270069855571366959622842914819860834936475292719074168444365510704342711559699508093042880177904174497792");
    }
    let ghost lim = f64_limit_digits();
    assert(limit@ == lim);
    let n = limit.unicode_len();
    assert(forall|m: int| 0 <= m < lim.len() ==> is_ascii_digit(#[trigger] lim[m]));
    assert(lim[0] != '0');
    proof {
        lemma_digits_value_bounds(lim);
    }
    let mut z = start;
    while z < end && code[z] == '0'
        invariant
            start <= z <= end <= code@.len(),
            forall|m: int| start <= m < z ==> #[trigger] code@[m] == '0',
        decreases end - z,
    {
        z = z + 1;
    }
    let ghost whole = code@.subrange(start as int, end as int);
    let ghost digits = code@.subrange(z as int, end as int);
    proof {
        assert(whole == code@.subrange(start as int, z as int) + digits);
        lemma_zeros_value(code@.subrange(start as int, z as int));
        lemma_digits_value_concat(code@.subrange(start as int, z as int), digits);
        assert(forall|m: int| 0 <= m < digits.len() ==> #[trigger] digits[m] == code@[z + m]);
        lemma_digits_value_bounds(digits);
    }
    let m = end - z;
    if m > n {
        proof {
            lemma_pow10_grows(n as nat, (m - 1) as nat);
        }
        return true;
    }
    if m < n {
        proof {
            lemma_pow10_grows(m as nat, (n - 1) as nat);
        }
        return false;
    }
    // Equal lengths: compare digit by digit, keeping the order of the
    // prefixes read so far.
    let mut order: i8 = 0;
    let mut k: usize = 0;
    while k < n
        invariant
            k <= n == m == digits.len() == lim.len(),
            z + m == end <= code@.len(),
            limit@ == lim,
            digits == code@.subrange(z as int, end as int),
            forall|j: int| 0 <= j < digits.len() ==> is_ascii_digit(#[trigger] digits[j]),
            forall|j: int| 0 <= j < lim.len() ==> is_ascii_digit(#[trigger] lim[j]),
            order == -1 ==> digits_value(digits.subrange(0, k as int)) < digits_value(
                lim.subrange(0, k as int),
            ),
            order == 0 ==> digits_value(digits.subrange(0, k as int)) == digits_value(
                lim.subrange(0, k as int),
            ),
            order == 1 ==> digits_value(digits.subrange(0, k as int)) > digits_value(
                lim.subrange(0, k as int),
            ),
            -1 <= order <= 1,
        decreases n - k,
    {
        let a = code[z + k];
        let b = limit.get_char(k);
        proof {
            assert(digits.subrange(0, k + 1).drop_last() == digits.subrange(0, k as int));
            assert(lim.subrange(0, k + 1).drop_last() == lim.subrange(0, k as int));
            assert(digits[k as int] == a);
            assert(is_ascii_digit(a));
            assert(is_ascii_digit(b));
        }
        if order == 0 {
            if a < b {
                order = -1;
            } else if a > b {
                order = 1;
            }
        }
        k = k + 1;
    }
    assert(digits.subrange(0, n as int) == digits);
    assert(lim.subrange(0, n as int) == lim);
    order >= 0
}

/// Reads a number literal at `i`.
fn scan_number(code: &Vec<char>, i: usize) -> (r: Result<(TokenType, usize), Error>)
    requires
        i < code@.len(),
        starts_number(code@, i as int),
    ensures
        token_result(code@, i as int, r),
        i < tok_end(code@, i as int) <= code@.len(),
{
    let len = code.len();
    let e = digit_run(code, i + 1);
    if e < len && e + 1 < len && code[e] == '.' && '0' <= code[e + 1] && code[e + 1] <= '9' {
        let e2 = digit_run(code, e + 1);
        let text = collect_chars(code, i, e2);
        if reaches_f64_limit(code, i, e) {
            let mut message = "Invalid Token: Cannot parse '".to_owned();
            message.append(text.as_str());
            message.append("' as a 64 bit floating point");
            Err(Error::simple_error(
                message.as_str(),
                1,
                i,
                e2 - i,
                "This number cannot fit in a f64",
            ))
        } else {
            Ok((TokenType::Double(text), e2 - i))
        }
    } else {
        match parse_decimal(code, i, e) {
            Some(v) => Ok((TokenType::Integer(v), e - i)),
            None => {
                let text = collect_chars(code, i, e);
                let mut message = "Invalid Token: Cannot parse '".to_owned();
                message.append(text.as_str());
                message.append("' as an 128 bit integer");
                Err(Error::simple_error(
                    message.as_str(),
                    2,
                    i,
                    e - i,
                    "This number cannot fit in an i128",
                ))
            },
        }
    }
}

/// Reads a comment, an operator or punctuation at `i`.
fn scan_symbol(code: &Vec<char>, i: usize) -> (r: Result<(TokenType, usize), Error>)
    requires
        i < code@.len(),
        starts_symbol(code@, i as int),
    ensures
        token_result(code@, i as int, r),
        i < tok_end(code@, i as int) <= code@.len(),
{
    let len = code.len();
    let c = code[i];
    let has_next = i + 1 < len;
    let next: char = if has_next {
        code[i + 1]
    } else {
        ' '
    };
    if c == '/' && has_next && next == '/' {
        let e = line_run(code, i + 2);
        return Ok((TokenType::LineComment(collect_chars(code, i + 2, e)), e - i));
    }
    if c == '/' && has_next && next == '*' {
        let e = block_run(code, i + 2);
        let text = collect_chars(code, i + 2, e);
        if e < len {
            return Ok((TokenType::MultiLineComment(text), e + 2 - i));
        } else {
            return Ok((TokenType::MultiLineComment(text), e - i));
        }
    }
    match c {
        '(' => Ok((TokenType::LParen, 1)),
        ')' => Ok((TokenType::RParen, 1)),
        '[' => Ok((TokenType::LSquare, 1)),
        ']' => Ok((TokenType::RSquare, 1)),
        '{' => Ok((TokenType::LCurly, 1)),
        '}' => Ok((TokenType::RCurly, 1)),
        '+' => Ok((TokenType::Plus, 1)),
        '-' => Ok((TokenType::Minus, 1)),
        '*' => Ok((TokenType::Multiply, 1)),
        '/' => Ok((TokenType::Divide, 1)),
        '%' => Ok((TokenType::Modulus, 1)),
        '<' => if has_next && next == '=' {
            Ok((TokenType::LE, 2))
        } else if has_next && next == '<' {
            Ok((TokenType::LeftShift, 2))
        } else {
            Ok((TokenType::LT, 1))
        },
        '>' => if has_next && next == '=' {
            Ok((TokenType::GE, 2))
        } else if has_next && next == '>' {
            Ok((TokenType::RightShift, 2))
        } else {
            Ok((TokenType::GT, 1))
        },
        '&' => if has_next && next == '&' {
            Ok((TokenType::And, 2))
        } else {
            Ok((TokenType::BitwiseAnd, 1))
        },
        '|' => if has_next && next == '|' {
            Ok((TokenType::Or, 2))
        } else {
            Ok((TokenType::BitwiseOr, 1))
        },
        _ => {
            let mut message = "Invalid Token: '".to_owned();
            push_char(&mut message, c);
            assert(message@ == "Invalid Token: '"@ + seq![c]);
            message.append("' is an illegal character");
            Err(Error::simple_error(
                message.as_str(),
                0,
                i,
                1,
                "This character is not used in Quicklime",
            ))
        },
    }
}

/// Reads the token that starts at `start_index`: `None` at or past the end
/// of the input, else the token's kind and length, or the diagnostic for
/// the text there.
pub fn parse_token(code: &Vec<char>, start_index: usize) -> (r: Option<
    Result<(TokenType, usize), Error>,
>)
    ensures
        r is None <==> start_index >= code@.len(),
        start_index < code@.len() ==> start_index < tok_end(code@, start_index as int)
            <= code@.len(),
        r matches Some(res) ==> token_result(code@, start_index as int, res),
{
    let len = code.len();
    if start_index >= len {
        return None;
    }
    let i = start_index;
    let c = code[i];
    if is_alphabetic(c) {
        let e = ident_run(code, i + 1);
        return Some(Ok((word_token(code, i, e), e - i)));
    }
    if is_whitespace(c) {
        let e = space_run(code, i + 1);
        return Some(Ok((TokenType::Whitespace, e - i)));
    }
    if '0' <= c && c <= '9' {
        return Some(scan_number(code, i));
    }
    Some(scan_symbol(code, i))
}

/// Scans the whole input into tokens, leaving out whitespace and comments.
/// The first diagnostic ends the scan and is returned.
pub fn scan(code: Vec<char>) -> (r: Result<Vec<Token>, Error>)
    ensures
        scan_result(code@, r),
        r matches Ok(tokens) ==> forall|j: int|
            0 <= j < tokens@.len() - 1 ==> adjacent(code@, #[trigger] tokens@[j], tokens@[j + 1]),
{
    let ghost input = code@;
    proof {
        lemma_first_failure(input, 0);
        lemma_emitted_order(input, 0);
    }
    match scan_with(code, ErrorPolicy::FailFast) {
        Ok(tokens) => {
            assert forall|j: int| 0 <= j < tokens@.len() - 1 implies adjacent(
                input,
                #[trigger] tokens@[j],
                tokens@[j + 1],
            ) by {
                assert(tokens@[j].start == emitted(input, 0)[j]);
                assert(tokens@[j + 1].start == emitted(input, 0)[j + 1]);
            }
            Ok(tokens)
        },
        Err(mut errors) => {
            let e = errors.remove(0);
            Err(e)
        },
    }
}

/// Scans the whole input into tokens under `policy`. When a token cannot
/// be read, fail-fast stops there; collecting goes on past the unreadable
/// text and returns all the diagnostics.
pub fn scan_with(code: Vec<char>, policy: ErrorPolicy) -> (r: Result<Vec<Token>, Vec<Error>>)
    ensures
        scan_with_result(code@, policy, r),
{
    let len = code.len();
    let mut index: usize = 0;
    let mut tokens: Vec<Token> = Vec::new();
    let mut errors: Vec<Error> = Vec::new();
    let ghost starts: Seq<int> = seq![];
    let ghost failed: Seq<int> = seq![];
    loop
        invariant
            len == code@.len(),
            index <= len,
            failed.len() == 0 ==> emitted(code@, 0) == starts + emitted(code@, index as int),
            failures(code@, 0) == failed + failures(code@, index as int),
            tokens@.len() == starts.len(),
            forall|j: int|
                0 <= j < tokens@.len() ==> {
                    &&& #[trigger] tokens@[j].start == starts[j]
                    &&& tokens@[j].start + tokens@[j].length == tok_end(code@, starts[j])
                    &&& tok_kind(code@, starts[j], tokens@[j].kind)
                },
            errors@.len() == failed.len(),
            forall|j: int|
                0 <= j < errors@.len() ==> {
                    &&& (#[trigger] errors@[j]).spec_index() == failed[j]
                    &&& is_error_at(code@, failed[j], errors@[j])
                },
            policy == ErrorPolicy::FailFast ==> errors@.len() == 0,
        decreases code@.len() - index,
    {
        match parse_token(&code, index) {
            None => {
                assert(emitted(code@, index as int) == Seq::<int>::empty());
                assert(failures(code@, index as int) == Seq::<int>::empty());
                assert(failures(code@, 0) =~= failed);
                if errors.len() > 0 {
                    return Err(errors);
                }
                assert(emitted(code@, 0) =~= starts);
                assert(scanned(code@, tokens@));
                return Ok(tokens);
            },
            Some(Err(e)) => {
                let length = e.markup()[0].length();
                let ghost next = index + length;
                assert(failures(code@, index as int) == seq![index as int] + failures(
                    code@,
                    next,
                ));
                assert(failures(code@, 0) == failed.push(index as int) + failures(code@, next));
                proof {
                    failed = failed.push(index as int);
                }
                errors.push(e);
                if policy == ErrorPolicy::FailFast {
                    return Err(errors);
                }
                index = index + length;
            },
            Some(Ok((kind, length))) => {
                proof {
                    lemma_trivia_kind(code@, index as int, kind);
                }
                let ghost next = index + length;
                assert(failures(code@, index as int) == failures(code@, next));
                if is_trivia_kind(&kind) {
                    assert(emitted(code@, index as int) == emitted(code@, next));
                } else {
                    assert(emitted(code@, index as int) == seq![index as int] + emitted(
                        code@,
                        next,
                    ));
                    assert(starts + emitted(code@, index as int) == starts.push(index as int)
                        + emitted(code@, next));
                    proof {
                        starts = starts.push(index as int);
                    }
                    tokens.push(Token { start: index, length, kind });
                }
                index = index + length;
            },
        }
    }
}

/// Whether the scan leaves a token of kind `k` out of its output.
fn is_trivia_kind(k: &TokenType) -> (r: bool)
    ensures
        r == is_trivia(*k),
{
    match k {
        TokenType::Whitespace => true,
        TokenType::LineComment(_) => true,
        TokenType::MultiLineComment(_) => true,
        _ => false,
    }
}

} // verus!
