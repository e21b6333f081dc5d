//! Laws of the scan model: facts that hold of every scan, proved once here
//! and inherited by the executable scanner through its contract.

use vstd::prelude::*;
use crate::token::{TokenType, SpecToken, keyword_token_type};
use crate::lexing::{
    scan_at, scan_spec, run_end, newline_count, plain_token, punctuation_type, is_operator_head,
    operator_alone_type, operator_equal_type,
    number_end, is_digit_char, is_alpha_char, digit_pred, alnum_pred, comment_pred,
    string_body_pred, lemma_run_end, lemma_newline_count_bounds, lemma_newline_count_split,
    lemma_newline_count_zero,
};

verus! {

/// Every scan produces at least one token; the last one is the end-of-input
/// sentinel; and no earlier token is a sentinel. Stated from any cursor and
/// line, so that it covers the whole pass by induction.
pub proof fn lemma_eof_sentinel(src: Seq<char>, i: int, line: int)
    requires
        0 <= i <= src.len(),
    ensures
        scan_at(src, i, line).tokens.len() >= 1,
        scan_at(src, i, line).tokens.last().token_type == TokenType::Eof,
        forall|k: int|
            0 <= k < scan_at(src, i, line).tokens.len() - 1 ==> (#[trigger] scan_at(
                src,
                i,
                line,
            ).tokens[k]).token_type != TokenType::Eof,
    decreases src.len() - i,
{
    if i < src.len() {
        let c = src[i];
        lemma_run_end(src, i + 1, digit_pred());
        lemma_run_end(src, i + 1, alnum_pred());
        lemma_run_end(src, i + 1, string_body_pred());
        if i + 2 <= src.len() {
            lemma_run_end(src, i + 2, comment_pred());
        }
        let jd = run_end(src, i + 1, digit_pred());
        if jd < src.len() {
            lemma_run_end(src, jd + 1, digit_pred());
        }
        if punctuation_type(c) is Some {
            lemma_eof_sentinel(src, i + 1, line);
        } else if is_operator_head(c) {
            if i + 1 < src.len() && src[i + 1] == '=' {
                lemma_eof_sentinel(src, i + 2, line);
            } else {
                lemma_eof_sentinel(src, i + 1, line);
            }
        } else if c == '/' {
            if i + 1 < src.len() && src[i + 1] == '/' {
                lemma_eof_sentinel(src, run_end(src, i + 2, comment_pred()), line);
            } else {
                lemma_eof_sentinel(src, i + 1, line);
            }
        } else if c == ' ' || c == '\r' || c == '\t' {
            lemma_eof_sentinel(src, i + 1, line);
        } else if c == '\n' {
            lemma_eof_sentinel(src, i + 1, line + 1);
        } else if c == '"' {
            let j = run_end(src, i + 1, string_body_pred());
            let nl = newline_count(src, i + 1, j);
            if j >= src.len() {
                lemma_eof_sentinel(src, src.len() as int, line + nl);
            } else {
                lemma_eof_sentinel(src, j + 1, line + nl);
            }
        } else if is_digit_char(c) {
            lemma_eof_sentinel(src, number_end(src, i), line);
        } else if is_alpha_char(c) {
            lemma_eof_sentinel(src, run_end(src, i + 1, alnum_pred()), line);
        } else {
            lemma_eof_sentinel(src, i + 1, line);
        }
    }
}

/// The whole-source reading of the sentinel law: the produced sequence ends
/// in exactly one end-of-input token and none occurs earlier.
pub proof fn lemma_scan_ends_in_single_eof(src: Seq<char>)
    ensures
        scan_spec(src).tokens.len() >= 1,
        scan_spec(src).tokens.last().token_type == TokenType::Eof,
        forall|k: int|
            0 <= k < scan_spec(src).tokens.len() - 1 ==> (#[trigger] scan_spec(
                src,
            ).tokens[k]).token_type != TokenType::Eof,
{
    lemma_eof_sentinel(src, 0, 1);
}

/// The token's lexeme is a contiguous slice of the source.
pub open spec fn is_source_slice(src: Seq<char>, t: SpecToken) -> bool {
    exists|a: int, b: int|
        0 <= a <= b <= src.len() && t.lexeme == #[trigger] src.subrange(a, b)
}

/// Prepending one source-slice token to a sequence whose non-sentinel
/// tokens are all source slices keeps that reading.
proof fn lemma_slice_forall_cons(
    src: Seq<char>,
    t: SpecToken,
    rest: Seq<SpecToken>,
    whole: Seq<SpecToken>,
)
    requires
        whole == seq![t] + rest,
        is_source_slice(src, t),
        forall|k: int| 0 <= k < rest.len() - 1 ==> is_source_slice(src, #[trigger] rest[k]),
    ensures
        forall|k: int| 0 <= k < whole.len() - 1 ==> is_source_slice(src, #[trigger] whole[k]),
{
    assert forall|k: int| 0 <= k < whole.len() - 1 implies is_source_slice(src, whole[k]) by {
        if k == 0 {
            assert(whole[0] == t);
        } else {
            assert(whole[k] == rest[k - 1]);
        }
    }
}

/// Carrying the slice reading over to an equal sequence.
proof fn lemma_slice_forall_eq(src: Seq<char>, a: Seq<SpecToken>, b: Seq<SpecToken>)
    requires
        a == b,
        forall|k: int| 0 <= k < b.len() - 1 ==> is_source_slice(src, #[trigger] b[k]),
    ensures
        forall|k: int| 0 <= k < a.len() - 1 ==> is_source_slice(src, #[trigger] a[k]),
{
    assert forall|k: int| 0 <= k < a.len() - 1 implies is_source_slice(src, a[k]) by {
        assert(a[k] == b[k]);
    }
}

/// Every token but the sentinel carries as its lexeme an exact, contiguous,
/// unmodified slice of the source between the cursor positions it was read
/// from.
pub proof fn lemma_lexemes_are_source_slices(src: Seq<char>, i: int, line: int)
    requires
        0 <= i <= src.len(),
    ensures
        forall|k: int|
            0 <= k < scan_at(src, i, line).tokens.len() - 1 ==> is_source_slice(
                src,
                #[trigger] scan_at(src, i, line).tokens[k],
            ),
    decreases src.len() - i,
{
    if i < src.len() {
        let c = src[i];
        let toks = scan_at(src, i, line).tokens;
        lemma_run_end(src, i + 1, digit_pred());
        lemma_run_end(src, i + 1, alnum_pred());
        lemma_run_end(src, i + 1, string_body_pred());
        if i + 2 <= src.len() {
            lemma_run_end(src, i + 2, comment_pred());
        }
        let jd = run_end(src, i + 1, digit_pred());
        if jd < src.len() {
            lemma_run_end(src, jd + 1, digit_pred());
        }
        if punctuation_type(c) is Some {
            lemma_lexemes_are_source_slices(src, i + 1, line);
            let tok = plain_token(punctuation_type(c)->Some_0, src, i, i + 1, line);
            assert(is_source_slice(src, tok)) by {
                assert(tok.lexeme == src.subrange(i, i + 1));
            }
            assert(scan_at(src, i, line).tokens == seq![tok] + scan_at(src, i + 1, line).tokens);
            lemma_slice_forall_cons(
                src,
                tok,
                scan_at(src, i + 1, line).tokens,
                scan_at(src, i, line).tokens,
            );
        } else if is_operator_head(c) {
            if i + 1 < src.len() && src[i + 1] == '=' {
                lemma_lexemes_are_source_slices(src, i + 2, line);
                let tok = plain_token(operator_equal_type(c), src, i, i + 2, line);
                assert(is_source_slice(src, tok)) by {
                    assert(tok.lexeme == src.subrange(i, i + 2));
                }
                assert(scan_at(src, i, line).tokens == seq![tok] + scan_at(
                    src,
                    i + 2,
                    line,
                ).tokens);
                lemma_slice_forall_cons(
                    src,
                    tok,
                    scan_at(src, i + 2, line).tokens,
                    scan_at(src, i, line).tokens,
                );
            } else {
                lemma_lexemes_are_source_slices(src, i + 1, line);
                let tok = plain_token(operator_alone_type(c), src, i, i + 1, line);
                assert(is_source_slice(src, tok)) by {
                    assert(tok.lexeme == src.subrange(i, i + 1));
                }
                assert(scan_at(src, i, line).tokens == seq![tok] + scan_at(
                    src,
                    i + 1,
                    line,
                ).tokens);
            lemma_slice_forall_cons(
                src,
                tok,
                scan_at(src, i + 1, line).tokens,
                scan_at(src, i, line).tokens,
            );
            }
        } else if c == '/' {
            if i + 1 < src.len() && src[i + 1] == '/' {
                lemma_lexemes_are_source_slices(src, run_end(src, i + 2, comment_pred()), line);
                lemma_slice_forall_eq(
                    src,
                    scan_at(src, i, line).tokens,
                    scan_at(src, run_end(src, i + 2, comment_pred()), line).tokens,
                );
            } else {
                lemma_lexemes_are_source_slices(src, i + 1, line);
                let tok = plain_token(TokenType::Slash, src, i, i + 1, line);
                assert(is_source_slice(src, tok)) by {
                    assert(tok.lexeme == src.subrange(i, i + 1));
                }
                assert(scan_at(src, i, line).tokens == seq![tok] + scan_at(
                    src,
                    i + 1,
                    line,
                ).tokens);
            lemma_slice_forall_cons(
                src,
                tok,
                scan_at(src, i + 1, line).tokens,
                scan_at(src, i, line).tokens,
            );
            }
        } else if c == ' ' || c == '\r' || c == '\t' {
            lemma_lexemes_are_source_slices(src, i + 1, line);
            lemma_slice_forall_eq(
                src,
                scan_at(src, i, line).tokens,
                scan_at(src, i + 1, line).tokens,
            );
        } else if c == '\n' {
            lemma_lexemes_are_source_slices(src, i + 1, line + 1);
            lemma_slice_forall_eq(
                src,
                scan_at(src, i, line).tokens,
                scan_at(src, i + 1, line + 1).tokens,
            );
        } else if c == '"' {
            let j = run_end(src, i + 1, string_body_pred());
            let nl = newline_count(src, i + 1, j);
            if j >= src.len() {
                lemma_lexemes_are_source_slices(src, src.len() as int, line + nl);
                lemma_slice_forall_eq(
                    src,
                    scan_at(src, i, line).tokens,
                    scan_at(src, src.len() as int, line + nl).tokens,
                );
            } else {
                lemma_lexemes_are_source_slices(src, j + 1, line + nl);
                let tok = SpecToken {
                    token_type: TokenType::StringLit,
                    lexeme: src.subrange(i, j + 1),
                    literal: src.subrange(i + 1, j),
                    line,
                };
                assert(is_source_slice(src, tok)) by {
                    assert(tok.lexeme == src.subrange(i, j + 1));
                }
                assert(scan_at(src, i, line).tokens == seq![tok] + scan_at(
                    src,
                    j + 1,
                    line + nl,
                ).tokens);
                lemma_slice_forall_cons(
                    src,
                    tok,
                    scan_at(src, j + 1, line + nl).tokens,
                    scan_at(src, i, line).tokens,
                );
            }
        } else if is_digit_char(c) {
            let j = number_end(src, i);
            lemma_lexemes_are_source_slices(src, j, line);
            let tok = plain_token(TokenType::Number, src, i, j, line);
            assert(is_source_slice(src, tok)) by {
                assert(tok.lexeme == src.subrange(i, j));
            }
            assert(scan_at(src, i, line).tokens == seq![tok] + scan_at(src, j, line).tokens);
            lemma_slice_forall_cons(
                src,
                tok,
                scan_at(src, j, line).tokens,
                scan_at(src, i, line).tokens,
            );
        } else if is_alpha_char(c) {
            let j = run_end(src, i + 1, alnum_pred());
            lemma_lexemes_are_source_slices(src, j, line);
            let tok = plain_token(keyword_token_type(src.subrange(i, j)), src, i, j, line);
            assert(is_source_slice(src, tok)) by {
                assert(tok.lexeme == src.subrange(i, j));
            }
            assert(scan_at(src, i, line).tokens == seq![tok] + scan_at(src, j, line).tokens);
            lemma_slice_forall_cons(
                src,
                tok,
                scan_at(src, j, line).tokens,
                scan_at(src, i, line).tokens,
            );
        } else {
            lemma_lexemes_are_source_slices(src, i + 1, line);
            lemma_slice_forall_eq(
                src,
                scan_at(src, i, line).tokens,
                scan_at(src, i + 1, line).tokens,
            );
        }
    }
}

/// The whole-source reading of the slice law.
pub proof fn lemma_scan_lexemes_are_source_slices(src: Seq<char>)
    ensures
        forall|k: int|
            0 <= k < scan_spec(src).tokens.len() - 1 ==> is_source_slice(
                src,
                #[trigger] scan_spec(src).tokens[k],
            ),
{
    lemma_lexemes_are_source_slices(src, 0, 1);
}

/// One consumed range without newlines does not move the line counter:
/// the count over `[i, n)` equals the count over `[j, n)`.
proof fn lemma_no_newline_hop(src: Seq<char>, i: int, j: int)
    requires
        0 <= i <= j <= src.len(),
        forall|k: int| i <= k < j ==> src[k] != '\n',
    ensures
        newline_count(src, i, src.len() as int) == newline_count(src, j, src.len() as int),
{
    lemma_newline_count_zero(src, i, j);
    lemma_newline_count_split(src, i, j, src.len() as int);
}

/// The line carried by the end-of-input sentinel is the starting line plus
/// exactly the number of newline characters in the scanned text - whether
/// those newlines stand free, inside comments, or inside string literals.
pub proof fn lemma_final_line_counts_newlines(src: Seq<char>, i: int, line: int)
    requires
        0 <= i <= src.len(),
    ensures
        scan_at(src, i, line).tokens.last().line == line + newline_count(
            src,
            i,
            src.len() as int,
        ),
    decreases src.len() - i,
{
    let n = src.len() as int;
    if i >= n {
        assert(newline_count(src, i, n) == 0);
    } else {
        let c = src[i];
        lemma_run_end(src, i + 1, digit_pred());
        lemma_run_end(src, i + 1, alnum_pred());
        lemma_run_end(src, i + 1, string_body_pred());
        if i + 2 <= src.len() {
            lemma_run_end(src, i + 2, comment_pred());
        }
        let jd = run_end(src, i + 1, digit_pred());
        if jd < src.len() {
            lemma_run_end(src, jd + 1, digit_pred());
        }
        if punctuation_type(c) is Some {
            lemma_eof_sentinel(src, i + 1, line);
            lemma_no_newline_hop(src, i, i + 1);
            lemma_final_line_counts_newlines(src, i + 1, line);
        } else if is_operator_head(c) {
            if i + 1 < src.len() && src[i + 1] == '=' {
                lemma_eof_sentinel(src, i + 2, line);
                lemma_no_newline_hop(src, i, i + 2);
                lemma_final_line_counts_newlines(src, i + 2, line);
            } else {
                lemma_eof_sentinel(src, i + 1, line);
                lemma_no_newline_hop(src, i, i + 1);
                lemma_final_line_counts_newlines(src, i + 1, line);
            }
        } else if c == '/' {
            if i + 1 < src.len() && src[i + 1] == '/' {
                let ce = run_end(src, i + 2, comment_pred());
                lemma_no_newline_hop(src, i, ce);
                lemma_final_line_counts_newlines(src, ce, line);
            } else {
                lemma_eof_sentinel(src, i + 1, line);
                lemma_no_newline_hop(src, i, i + 1);
                lemma_final_line_counts_newlines(src, i + 1, line);
            }
        } else if c == ' ' || c == '\r' || c == '\t' {
            lemma_no_newline_hop(src, i, i + 1);
            lemma_final_line_counts_newlines(src, i + 1, line);
        } else if c == '\n' {
            lemma_final_line_counts_newlines(src, i + 1, line + 1);
        } else if c == '"' {
            let j = run_end(src, i + 1, string_body_pred());
            let nl = newline_count(src, i + 1, j);
            if j >= n {
                lemma_final_line_counts_newlines(src, n, line + nl);
                assert(newline_count(src, i, n) == (if src[i] == '\n' {
                    1int
                } else {
                    0int
                }) + newline_count(src, i + 1, n));
            } else {
                lemma_eof_sentinel(src, j + 1, line + nl);
                lemma_final_line_counts_newlines(src, j + 1, line + nl);
                assert(newline_count(src, i, n) == (if src[i] == '\n' {
                    1int
                } else {
                    0int
                }) + newline_count(src, i + 1, n));
                lemma_newline_count_split(src, i + 1, j, n);
                lemma_newline_count_split(src, j, j + 1, n);
                assert(newline_count(src, j + 1, j + 1) == 0);
                assert(newline_count(src, j, j + 1) == 0);
            }
        } else if is_digit_char(c) {
            let j = number_end(src, i);
            lemma_eof_sentinel(src, j, line);
            assert forall|k: int| i <= k < j implies src[k] != '\n' by {
                if k > i {
                    if k < jd {
                        assert(digit_pred()(src[k]));
                    } else if jd < n && src[jd] == '.' && jd + 1 < n && is_digit_char(
                        src[jd + 1],
                    ) {
                        if k > jd {
                            assert(digit_pred()(src[k]));
                        }
                    }
                }
            }
            lemma_no_newline_hop(src, i, j);
            lemma_final_line_counts_newlines(src, j, line);
        } else if is_alpha_char(c) {
            let j = run_end(src, i + 1, alnum_pred());
            lemma_eof_sentinel(src, j, line);
            assert forall|k: int| i <= k < j implies src[k] != '\n' by {
                if k > i {
                    assert(alnum_pred()(src[k]));
                }
            }
            lemma_no_newline_hop(src, i, j);
            lemma_final_line_counts_newlines(src, j, line);
        } else {
            lemma_no_newline_hop(src, i, i + 1);
            lemma_final_line_counts_newlines(src, i + 1, line);
        }
    }
}

/// The whole-source reading: the sentinel's line is 1 plus the number of
/// newline characters in the source.
pub proof fn lemma_scan_line_total(src: Seq<char>)
    ensures
        scan_spec(src).tokens.last().line == 1 + newline_count(src, 0, src.len() as int),
{
    lemma_final_line_counts_newlines(src, 0, 1);
}

/// Maximal munch at a trailing dot: a maximal digit run followed by a `.`
/// that is not followed by another digit is read as a number token holding
/// exactly the digit run, immediately followed by a dot token - never as a
/// single malformed number.
pub proof fn lemma_number_maximal_munch(src: Seq<char>, i: int, line: int)
    requires
        0 <= i < src.len(),
        is_digit_char(src[i]),
        run_end(src, i + 1, digit_pred()) < src.len(),
        src[run_end(src, i + 1, digit_pred())] == '.',
        run_end(src, i + 1, digit_pred()) + 1 >= src.len() || !is_digit_char(
            src[run_end(src, i + 1, digit_pred()) + 1],
        ),
    ensures
        ({
            let j = run_end(src, i + 1, digit_pred());
            let toks = scan_at(src, i, line).tokens;
            &&& toks.len() >= 3
            &&& toks[0] == plain_token(TokenType::Number, src, i, j, line)
            &&& toks[1] == plain_token(TokenType::Dot, src, j, j + 1, line)
        }),
{
    let j = run_end(src, i + 1, digit_pred());
    lemma_run_end(src, i + 1, digit_pred());
    assert(number_end(src, i) == j);
    lemma_eof_sentinel(src, j + 1, line);
    let numtok = plain_token(TokenType::Number, src, i, j, line);
    let dottok = plain_token(TokenType::Dot, src, j, j + 1, line);
    let toks = scan_at(src, i, line).tokens;
    let rest = scan_at(src, j, line).tokens;
    let rest2 = scan_at(src, j + 1, line).tokens;
    assert(punctuation_type('.') == Some(TokenType::Dot));
    assert(toks == seq![numtok] + rest);
    assert(rest == seq![dottok] + rest2);
    assert(toks[0] == numtok);
    assert(toks[1] == rest[0]);
    assert(rest[0] == dottok);
}

/// Prepending a token emitted at the current line to a tail whose lines all
/// sit at or above where the tail's scan started.
proof fn lemma_lines_cons(
    t: SpecToken,
    rest: Seq<SpecToken>,
    whole: Seq<SpecToken>,
    lo: int,
    lo2: int,
)
    requires
        whole == seq![t] + rest,
        lo <= t.line,
        t.line <= lo2,
        lo <= lo2,
        forall|k: int| 0 <= k < rest.len() ==> lo2 <= (#[trigger] rest[k]).line,
        forall|k1: int, k2: int|
            0 <= k1 <= k2 < rest.len() ==> (#[trigger] rest[k1]).line <= (
            #[trigger] rest[k2]).line,
    ensures
        forall|k: int| 0 <= k < whole.len() ==> lo <= (#[trigger] whole[k]).line,
        forall|k1: int, k2: int|
            0 <= k1 <= k2 < whole.len() ==> (#[trigger] whole[k1]).line <= (
            #[trigger] whole[k2]).line,
{
    assert forall|k: int| 0 <= k < whole.len() implies lo <= (#[trigger] whole[k]).line by {
        if k == 0 {
            assert(whole[0] == t);
        } else {
            assert(whole[k] == rest[k - 1]);
        }
    }
    assert forall|k1: int, k2: int| 0 <= k1 <= k2 < whole.len() implies (
    #[trigger] whole[k1]).line <= (#[trigger] whole[k2]).line by {
        if k1 == 0 {
            assert(whole[0] == t);
            if k2 > 0 {
                assert(whole[k2] == rest[k2 - 1]);
            }
        } else {
            assert(whole[k1] == rest[k1 - 1]);
            assert(whole[k2] == rest[k2 - 1]);
        }
    }
}

/// Carrying the line bounds over to an equal sequence, weakening the lower
/// bound.
proof fn lemma_lines_weaken(a: Seq<SpecToken>, b: Seq<SpecToken>, lo: int, lo2: int)
    requires
        a == b,
        lo <= lo2,
        forall|k: int| 0 <= k < b.len() ==> lo2 <= (#[trigger] b[k]).line,
        forall|k1: int, k2: int|
            0 <= k1 <= k2 < b.len() ==> (#[trigger] b[k1]).line <= (#[trigger] b[k2]).line,
    ensures
        forall|k: int| 0 <= k < a.len() ==> lo <= (#[trigger] a[k]).line,
        forall|k1: int, k2: int|
            0 <= k1 <= k2 < a.len() ==> (#[trigger] a[k1]).line <= (#[trigger] a[k2]).line,
{
    assert forall|k: int| 0 <= k < a.len() implies lo <= (#[trigger] a[k]).line by {
        assert(a[k] == b[k]);
    }
    assert forall|k1: int, k2: int| 0 <= k1 <= k2 < a.len() implies (#[trigger] a[k1]).line <= (
    #[trigger] a[k2]).line by {
        assert(a[k1] == b[k1]);
        assert(a[k2] == b[k2]);
    }
}

/// Token lines never precede the line the scan stood on, and are
/// monotonically non-decreasing across the produced sequence.
pub proof fn lemma_token_lines_monotone(src: Seq<char>, i: int, line: int)
    requires
        0 <= i <= src.len(),
    ensures
        forall|k: int|
            0 <= k < scan_at(src, i, line).tokens.len() ==> line <= (#[trigger] scan_at(
                src,
                i,
                line,
            ).tokens[k]).line,
        forall|k1: int, k2: int|
            0 <= k1 <= k2 < scan_at(src, i, line).tokens.len() ==> (#[trigger] scan_at(
                src,
                i,
                line,
            ).tokens[k1]).line <= (#[trigger] scan_at(src, i, line).tokens[k2]).line,
    decreases src.len() - i,
{
    let toks = scan_at(src, i, line).tokens;
    if i >= src.len() {
        assert forall|k: int| 0 <= k < toks.len() implies line <= (#[trigger] toks[k]).line by {
            assert(toks[0].line == line);
        }
        assert forall|k1: int, k2: int| 0 <= k1 <= k2 < toks.len() implies (
        #[trigger] toks[k1]).line <= (#[trigger] toks[k2]).line by {
            assert(toks[0].line == line);
        }
    } else {
        let c = src[i];
        lemma_run_end(src, i + 1, digit_pred());
        lemma_run_end(src, i + 1, alnum_pred());
        lemma_run_end(src, i + 1, string_body_pred());
        if i + 2 <= src.len() {
            lemma_run_end(src, i + 2, comment_pred());
        }
        let jd = run_end(src, i + 1, digit_pred());
        if jd < src.len() {
            lemma_run_end(src, jd + 1, digit_pred());
        }
        if punctuation_type(c) is Some {
            lemma_token_lines_monotone(src, i + 1, line);
            let tok = plain_token(punctuation_type(c)->Some_0, src, i, i + 1, line);
            lemma_lines_cons(tok, scan_at(src, i + 1, line).tokens, toks, line, line);
        } else if is_operator_head(c) {
            if i + 1 < src.len() && src[i + 1] == '=' {
                lemma_token_lines_monotone(src, i + 2, line);
                let tok = plain_token(operator_equal_type(c), src, i, i + 2, line);
                lemma_lines_cons(tok, scan_at(src, i + 2, line).tokens, toks, line, line);
            } else {
                lemma_token_lines_monotone(src, i + 1, line);
                let tok = plain_token(operator_alone_type(c), src, i, i + 1, line);
                lemma_lines_cons(tok, scan_at(src, i + 1, line).tokens, toks, line, line);
            }
        } else if c == '/' {
            if i + 1 < src.len() && src[i + 1] == '/' {
                let ce = run_end(src, i + 2, comment_pred());
                lemma_token_lines_monotone(src, ce, line);
                lemma_lines_weaken(toks, scan_at(src, ce, line).tokens, line, line);
            } else {
                lemma_token_lines_monotone(src, i + 1, line);
                let tok = plain_token(TokenType::Slash, src, i, i + 1, line);
                lemma_lines_cons(tok, scan_at(src, i + 1, line).tokens, toks, line, line);
            }
        } else if c == ' ' || c == '\r' || c == '\t' {
            lemma_token_lines_monotone(src, i + 1, line);
            lemma_lines_weaken(toks, scan_at(src, i + 1, line).tokens, line, line);
        } else if c == '\n' {
            lemma_token_lines_monotone(src, i + 1, line + 1);
            lemma_lines_weaken(toks, scan_at(src, i + 1, line + 1).tokens, line, line + 1);
        } else if c == '"' {
            let j = run_end(src, i + 1, string_body_pred());
            let nl = newline_count(src, i + 1, j);
            lemma_newline_count_bounds(src, i + 1, j);
            if j >= src.len() {
                lemma_token_lines_monotone(src, src.len() as int, line + nl);
                lemma_lines_weaken(
                    toks,
                    scan_at(src, src.len() as int, line + nl).tokens,
                    line,
                    line + nl,
                );
            } else {
                lemma_token_lines_monotone(src, j + 1, line + nl);
                let tok = SpecToken {
                    token_type: TokenType::StringLit,
                    lexeme: src.subrange(i, j + 1),
                    literal: src.subrange(i + 1, j),
                    line,
                };
                lemma_lines_cons(tok, scan_at(src, j + 1, line + nl).tokens, toks, line, line + nl);
            }
        } else if is_digit_char(c) {
            let j = number_end(src, i);
            lemma_token_lines_monotone(src, j, line);
            let tok = plain_token(TokenType::Number, src, i, j, line);
            lemma_lines_cons(tok, scan_at(src, j, line).tokens, toks, line, line);
        } else if is_alpha_char(c) {
            let j = run_end(src, i + 1, alnum_pred());
            lemma_token_lines_monotone(src, j, line);
            let tok = plain_token(keyword_token_type(src.subrange(i, j)), src, i, j, line);
            lemma_lines_cons(tok, scan_at(src, j, line).tokens, toks, line, line);
        } else {
            lemma_token_lines_monotone(src, i + 1, line);
            lemma_lines_weaken(toks, scan_at(src, i + 1, line).tokens, line, line);
        }
    }
}

/// Keyword lookup is exact-match, never prefix-based: extending a reserved
/// spelling by any further identifier character yields an identifier, not
/// the keyword.
pub proof fn lemma_keyword_extension_is_identifier(s: Seq<char>, c: char)
    requires
        keyword_token_type(s) != TokenType::Identifier,
    ensures
        keyword_token_type(s.push(c)) == TokenType::Identifier,
{
    let e = s.push(c);
    assert(e.len() == s.len() + 1);
    assert forall|k: int| 0 <= k < s.len() implies e[k] == s[k] by {}
    if s == seq!['a', 'n', 'd'] {
        assert(e[0] == 'a' && e.len() == 4);
    } else if s == seq!['c', 'l', 'a', 's', 's'] {
        assert(e[0] == 'c' && e.len() == 6);
    } else if s == seq!['e', 'l', 's', 'e'] {
        assert(e[0] == 'e' && e.len() == 5);
    } else if s == seq!['f', 'a', 'l', 's', 'e'] {
        assert(e[1] == 'a' && e.len() == 6);
    } else if s == seq!['f', 'o', 'r'] {
        assert(e[1] == 'o' && e.len() == 4);
    } else if s == seq!['f', 'u', 'n'] {
        assert(e[1] == 'u' && e.len() == 4);
    } else if s == seq!['i', 'f'] {
        assert(e[0] == 'i' && e.len() == 3);
    } else if s == seq!['n', 'i', 'l'] {
        assert(e[0] == 'n' && e.len() == 4);
    } else if s == seq!['o', 'r'] {
        assert(e[0] == 'o' && e.len() == 3);
    } else if s == seq!['p', 'r', 'i', 'n', 't'] {
        assert(e[0] == 'p' && e.len() == 6);
    } else if s == seq!['r', 'e', 't', 'u', 'r', 'n'] {
        assert(e[0] == 'r' && e.len() == 7);
    } else if s == seq!['s', 'u', 'p', 'e', 'r'] {
        assert(e[0] == 's' && e.len() == 6);
    } else if s == seq!['t', 'h', 'i', 's'] {
        assert(e[1] == 'h' && e.len() == 5);
    } else if s == seq!['t', 'r', 'u', 'e'] {
        assert(e[1] == 'r' && e.len() == 5);
    } else if s == seq!['v', 'a', 'r'] {
        assert(e[0] == 'v' && e.len() == 4);
    } else {
        assert(s == seq!['w', 'h', 'i', 'l', 'e']);
        assert(e[0] == 'w' && e.len() == 6);
    }
}

/// The whole-source reading of the monotonicity law: token lines start at
/// 1 and never decrease across the produced sequence.
pub proof fn lemma_scan_token_lines_monotone(src: Seq<char>)
    ensures
        forall|k: int|
            0 <= k < scan_spec(src).tokens.len() ==> 1 <= (#[trigger] scan_spec(
                src,
            ).tokens[k]).line,
        forall|k1: int, k2: int|
            0 <= k1 <= k2 < scan_spec(src).tokens.len() ==> (#[trigger] scan_spec(
                src,
            ).tokens[k1]).line <= (#[trigger] scan_spec(src).tokens[k2]).line,
{
    lemma_token_lines_monotone(src, 0, 1);
}

} // verus!
