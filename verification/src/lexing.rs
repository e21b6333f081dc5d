//! The mathematical model of one scan: a recursive spec function that maps
//! the source characters, a cursor, and a line counter to the remaining
//! token sequence and the remaining diagnostics. The executable scanner is
//! proved to produce exactly this.

use vstd::prelude::*;
use crate::token::{TokenType, SpecToken, SpecDiagnostic, DiagnosticKind, keyword_token_type};

verus! {

/// A decimal digit.
pub open spec fn is_digit_char(c: char) -> bool {
    '0' <= c && c <= '9'
}

/// An ASCII letter or underscore: what may start an identifier.
pub open spec fn is_alpha_char(c: char) -> bool {
    ('a' <= c && c <= 'z') || ('A' <= c && c <= 'Z') || c == '_'
}

/// What may continue an identifier.
pub open spec fn is_alpha_numeric_char(c: char) -> bool {
    is_alpha_char(c) || is_digit_char(c)
}

/// Characters a digit run keeps consuming.
pub open spec fn digit_pred() -> spec_fn(char) -> bool {
    |c: char| is_digit_char(c)
}

/// Characters an identifier run keeps consuming.
pub open spec fn alnum_pred() -> spec_fn(char) -> bool {
    |c: char| is_alpha_numeric_char(c)
}

/// Characters a line comment keeps consuming: everything up to a newline.
pub open spec fn comment_pred() -> spec_fn(char) -> bool {
    |c: char| c != '\n'
}

/// Characters a string literal body keeps consuming: everything up to a
/// closing quote.
pub open spec fn string_body_pred() -> spec_fn(char) -> bool {
    |c: char| c != '"'
}

/// The first position at or after `i` whose character fails `p`, or the end
/// of the source: where a maximal run of `p`-characters starting at `i` ends.
pub open spec fn run_end(src: Seq<char>, i: int, p: spec_fn(char) -> bool) -> int
    decreases src.len() - i
        when 0 <= i <= src.len()
{
    if i < src.len() && p(src[i]) {
        run_end(src, i + 1, p)
    } else {
        i
    }
}

pub proof fn lemma_run_end(src: Seq<char>, i: int, p: spec_fn(char) -> bool)
    requires
        0 <= i <= src.len(),
    ensures
        i <= run_end(src, i, p) <= src.len(),
        forall|k: int| i <= k < run_end(src, i, p) ==> p(src[k]),
        run_end(src, i, p) == src.len() || !p(src[run_end(src, i, p)]),
    decreases src.len() - i,
{
    if i < src.len() && p(src[i]) {
        lemma_run_end(src, i + 1, p);
    }
}

/// How many newline characters `src` holds at positions in `[i, j)`.
pub open spec fn newline_count(src: Seq<char>, i: int, j: int) -> int
    decreases j - i
        when i <= j
{
    if i < j {
        (if src[i] == '\n' { 1int } else { 0int }) + newline_count(src, i + 1, j)
    } else {
        0
    }
}

pub proof fn lemma_newline_count_bounds(src: Seq<char>, i: int, j: int)
    requires
        i <= j,
    ensures
        0 <= newline_count(src, i, j) <= j - i,
    decreases j - i,
{
    if i < j {
        lemma_newline_count_bounds(src, i + 1, j);
    }
}

pub proof fn lemma_newline_count_split(src: Seq<char>, i: int, j: int, k: int)
    requires
        i <= j <= k,
    ensures
        newline_count(src, i, k) == newline_count(src, i, j) + newline_count(src, j, k),
    decreases j - i,
{
    if i < j {
        lemma_newline_count_split(src, i + 1, j, k);
    }
}

/// Extending a counted range by one character on the right.
pub proof fn lemma_newline_count_snoc(src: Seq<char>, i: int, j: int)
    requires
        i <= j,
    ensures
        newline_count(src, i, j + 1) == newline_count(src, i, j) + (
        if src[j] == '\n' { 1int } else { 0int }),
    decreases j - i,
{
    if i < j {
        lemma_newline_count_snoc(src, i + 1, j);
    } else {
        assert(newline_count(src, j + 1, j + 1) == 0);
    }
}

/// A range without newline characters counts zero.
pub proof fn lemma_newline_count_zero(src: Seq<char>, i: int, j: int)
    requires
        i <= j,
        forall|k: int| i <= k < j ==> src[k] != '\n',
    ensures
        newline_count(src, i, j) == 0,
    decreases j - i,
{
    if i < j {
        lemma_newline_count_zero(src, i + 1, j);
    }
}

/// Skipping a shorter prefix of a sequence splits at any intermediate
/// prefix: used to chain what one lexeme step appended onto what the whole
/// pass has appended.
pub proof fn lemma_skip_chain<T>(a: Seq<T>, b: Seq<T>, c: Seq<T>)
    requires
        a.is_prefix_of(b),
        b.is_prefix_of(c),
    ensures
        a.is_prefix_of(c),
        c.skip(a.len() as int) == b.skip(a.len() as int) + c.skip(b.len() as int),
{
    assert forall|k: int| 0 <= k < a.len() implies a[k] == c[k] by {
        assert(a[k] == b.subrange(0, a.len() as int)[k]);
        assert(b[k] == c.subrange(0, b.len() as int)[k]);
    }
    assert(a =~= c.subrange(0, a.len() as int));
    assert forall|k: int| 0 <= k < b.len() - a.len() implies b.skip(a.len() as int)[k] == c[
        a.len() + k
    ] by {
        assert(b[a.len() + k] == c.subrange(0, b.len() as int)[a.len() + k]);
    }
    assert(c.skip(a.len() as int) =~= b.skip(a.len() as int) + c.skip(b.len() as int));
}

/// A sequence is its prefix followed by the rest.
pub proof fn lemma_prefix_restore<T>(a: Seq<T>, b: Seq<T>)
    requires
        a.is_prefix_of(b),
    ensures
        a + b.skip(a.len() as int) == b,
{
    assert forall|k: int| 0 <= k < a.len() implies a[k] == b[k] by {
        assert(a[k] == b.subrange(0, a.len() as int)[k]);
    }
    assert(a + b.skip(a.len() as int) =~= b);
}

/// What a scan started at some cursor still produces: the remaining tokens
/// (always ending in the end-of-input sentinel) and the remaining
/// diagnostics.
pub ghost struct ScanOutput {
    pub tokens: Seq<SpecToken>,
    pub diags: Seq<SpecDiagnostic>,
}

/// The end-of-input sentinel, carrying the final line count.
pub open spec fn eof_token(line: int) -> SpecToken {
    SpecToken {
        token_type: TokenType::Eof,
        lexeme: Seq::empty(),
        literal: Seq::empty(),
        line,
    }
}

/// A token whose literal is redundant with its lexeme (punctuation,
/// operators, numbers, identifiers and keywords), read from `src[i..j)`.
pub open spec fn plain_token(t: TokenType, src: Seq<char>, i: int, j: int, line: int) -> SpecToken {
    SpecToken {
        token_type: t,
        lexeme: src.subrange(i, j),
        literal: src.subrange(i, j),
        line,
    }
}

/// Prepend one token to a scan's remaining output.
pub open spec fn with_token(t: SpecToken, rest: ScanOutput) -> ScanOutput {
    ScanOutput { tokens: seq![t] + rest.tokens, diags: rest.diags }
}

/// Prepend one diagnostic to a scan's remaining output.
pub open spec fn with_diag(d: SpecDiagnostic, rest: ScanOutput) -> ScanOutput {
    ScanOutput { tokens: rest.tokens, diags: seq![d] + rest.diags }
}

/// The category of a single-character punctuation lexeme, if `c` is one.
pub open spec fn punctuation_type(c: char) -> Option<TokenType> {
    if c == '(' {
        Some(TokenType::LeftParen)
    } else if c == ')' {
        Some(TokenType::RightParen)
    } else if c == '{' {
        Some(TokenType::LeftBrace)
    } else if c == '}' {
        Some(TokenType::RightBrace)
    } else if c == ',' {
        Some(TokenType::Comma)
    } else if c == '.' {
        Some(TokenType::Dot)
    } else if c == '-' {
        Some(TokenType::Minus)
    } else if c == '+' {
        Some(TokenType::Plus)
    } else if c == ';' {
        Some(TokenType::Semicolon)
    } else if c == '*' {
        Some(TokenType::Star)
    } else {
        None
    }
}

/// Is `c` an operator head that may pair with a following `=`?
pub open spec fn is_operator_head(c: char) -> bool {
    c == '!' || c == '=' || c == '<' || c == '>'
}

/// The one-character reading of an operator head.
pub open spec fn operator_alone_type(c: char) -> TokenType {
    if c == '!' {
        TokenType::Bang
    } else if c == '=' {
        TokenType::Equal
    } else if c == '<' {
        TokenType::Less
    } else {
        TokenType::Greater
    }
}

/// The two-character reading of an operator head followed by `=`.
pub open spec fn operator_equal_type(c: char) -> TokenType {
    if c == '!' {
        TokenType::BangEqual
    } else if c == '=' {
        TokenType::EqualEqual
    } else if c == '<' {
        TokenType::LessEqual
    } else {
        TokenType::GreaterEqual
    }
}

/// Where a number lexeme starting with the digit at `i` ends: the maximal
/// digit run, plus a fractional part only when a `.` is directly followed by
/// another digit.
pub open spec fn number_end(src: Seq<char>, i: int) -> int {
    let j = run_end(src, i + 1, digit_pred());
    if j < src.len() && src[j] == '.' && j + 1 < src.len() && is_digit_char(src[j + 1]) {
        run_end(src, j + 1, digit_pred())
    } else {
        j
    }
}

/// The full scan of `src` from cursor `i` on line `line`: one lexeme per
/// recursion step, ending in exactly one end-of-input sentinel.
pub open spec fn scan_at(src: Seq<char>, i: int, line: int) -> ScanOutput
    decreases src.len() - i
        when 0 <= i <= src.len()
        via scan_at_decreases
{
    if i >= src.len() {
        ScanOutput { tokens: seq![eof_token(line)], diags: Seq::empty() }
    } else {
        let c = src[i];
        if punctuation_type(c) is Some {
            with_token(
                plain_token(punctuation_type(c)->Some_0, src, i, i + 1, line),
                scan_at(src, i + 1, line),
            )
        } else if is_operator_head(c) {
            if i + 1 < src.len() && src[i + 1] == '=' {
                with_token(
                    plain_token(operator_equal_type(c), src, i, i + 2, line),
                    scan_at(src, i + 2, line),
                )
            } else {
                with_token(
                    plain_token(operator_alone_type(c), src, i, i + 1, line),
                    scan_at(src, i + 1, line),
                )
            }
        } else if c == '/' {
            if i + 1 < src.len() && src[i + 1] == '/' {
                scan_at(src, run_end(src, i + 2, comment_pred()), line)
            } else {
                with_token(
                    plain_token(TokenType::Slash, src, i, i + 1, line),
                    scan_at(src, i + 1, line),
                )
            }
        } else if c == ' ' || c == '\r' || c == '\t' {
            scan_at(src, i + 1, line)
        } else if c == '\n' {
            scan_at(src, i + 1, line + 1)
        } else if c == '"' {
            let j = run_end(src, i + 1, string_body_pred());
            let nl = newline_count(src, i + 1, j);
            if j >= src.len() {
                with_diag(
                    SpecDiagnostic { kind: DiagnosticKind::UnterminatedString, line: line + nl },
                    scan_at(src, src.len() as int, line + nl),
                )
            } else {
                with_token(
                    SpecToken {
                        token_type: TokenType::StringLit,
                        lexeme: src.subrange(i, j + 1),
                        literal: src.subrange(i + 1, j),
                        line,
                    },
                    scan_at(src, j + 1, line + nl),
                )
            }
        } else if is_digit_char(c) {
            let j = number_end(src, i);
            with_token(plain_token(TokenType::Number, src, i, j, line), scan_at(src, j, line))
        } else if is_alpha_char(c) {
            let j = run_end(src, i + 1, alnum_pred());
            with_token(
                plain_token(keyword_token_type(src.subrange(i, j)), src, i, j, line),
                scan_at(src, j, line),
            )
        } else {
            with_diag(
                SpecDiagnostic { kind: DiagnosticKind::UnexpectedChar { ch: c }, line },
                scan_at(src, i + 1, line),
            )
        }
    }
}

#[via_fn]
proof fn scan_at_decreases(src: Seq<char>, i: int, line: int) {
    if 0 <= i && i < src.len() {
        lemma_run_end(src, i + 1, digit_pred());
        lemma_run_end(src, i + 1, alnum_pred());
        lemma_run_end(src, i + 1, string_body_pred());
        if i + 2 <= src.len() {
            lemma_run_end(src, i + 2, comment_pred());
        }
        let j = run_end(src, i + 1, digit_pred());
        if j < src.len() {
            lemma_run_end(src, j + 1, digit_pred());
        }
    }
}

/// The whole scan of a source text: cursor at the start, line counter at 1.
pub open spec fn scan_spec(src: Seq<char>) -> ScanOutput {
    scan_at(src, 0, 1)
}

} // verus!
