//! The executable scanner: one forward pass over a pre-decoded character
//! buffer, proved to produce exactly the token sequence and diagnostics of
//! the mathematical model in `lexing`.

use vstd::prelude::*;
use vstd::std_specs::iter::IteratorSpec;
use crate::token::{
    Token, TokenType, Diagnostic, DiagnosticKind, SpecToken, SpecDiagnostic, token_views,
    diagnostic_views, keyword_lookup, keyword_token_type,
};
use crate::lexing::{
    scan_at, ScanOutput, plain_token, eof_token, with_token, with_diag, run_end, newline_count,
    punctuation_type, is_operator_head, operator_alone_type, operator_equal_type, number_end,
    is_digit_char, is_alpha_char, is_alpha_numeric_char, digit_pred, alnum_pred, comment_pred,
    string_body_pred, lemma_run_end, lemma_newline_count_snoc, lemma_skip_chain,
    lemma_prefix_restore,
};

verus! {

broadcast use vstd::string::group_string_axioms;

/// Relies on `String::push`: appends the given character to the end of the
/// string.
pub assume_specification[ String::push ](s: &mut String, ch: char)
    ensures
        final(s)@ == old(s)@.push(ch),
;

/// The characters of `src[a..b)`, copied into a fresh `String`.
fn substring_string(src: &Vec<char>, a: usize, b: usize) -> (s: String)
    requires
        a <= b <= src.len(),
    ensures
        s@ == src@.subrange(a as int, b as int),
{
    let mut s = String::new();
    let mut k: usize = a;
    while k < b
        invariant
            a <= k <= b <= src.len(),
            s@ == src@.subrange(a as int, k as int),
        decreases b - k,
    {
        s.push(src[k]);
        proof {
            assert(src@.subrange(a as int, k as int).push(src@[k as int]) =~= src@.subrange(
                a as int,
                k as int + 1,
            ));
        }
        k = k + 1;
    }
    s
}

/// The executable face of `punctuation_type`.
fn punctuation_lookup(c: char) -> (r: Option<TokenType>)
    ensures
        r == punctuation_type(c),
{
    if c == '(' {
        Some(TokenType::LeftParen)
    } else if c == ')' {
        Some(TokenType::RightParen)
    } else if c == '{' {
        Some(TokenType::LeftBrace)
    } else if c == '}' {
        Some(TokenType::RightBrace)
    } else if c == ',' {
        Some(TokenType::Comma)
    } else if c == '.' {
        Some(TokenType::Dot)
    } else if c == '-' {
        Some(TokenType::Minus)
    } else if c == '+' {
        Some(TokenType::Plus)
    } else if c == ';' {
        Some(TokenType::Semicolon)
    } else if c == '*' {
        Some(TokenType::Star)
    } else {
        None
    }
}

/// Owns the source text (pre-decoded into a character buffer, so that every
/// cursor access is constant-time) and consumes it in one pass, producing
/// the ordered token sequence and accumulating the lexical diagnostics.
pub struct Scanner {
    source: Vec<char>,
    tokens: Vec<Token>,
    diags: Vec<Diagnostic>,
    start: usize,
    current: usize,
    line: usize,
}

impl Scanner {
    /// The source text being scanned.
    pub closed spec fn src(&self) -> Seq<char> {
        self.source@
    }

    /// The tokens emitted so far, as their mathematical views.
    pub closed spec fn emitted(&self) -> Seq<SpecToken> {
        token_views(self.tokens@)
    }

    /// The diagnostics reported so far, as their mathematical views.
    pub closed spec fn reported(&self) -> Seq<SpecDiagnostic> {
        diagnostic_views(self.diags@)
    }

    /// The offset of the next unconsumed character.
    pub closed spec fn cursor(&self) -> int {
        self.current as int
    }

    /// The offset where the lexeme currently being scanned begins.
    pub closed spec fn lexeme_start(&self) -> int {
        self.start as int
    }

    /// The 1-based line counter.
    pub closed spec fn cur_line(&self) -> int {
        self.line as int
    }

    /// The scanner's internal consistency: the cursor stays inside the
    /// source, the lexeme start never passes the cursor, and the line
    /// counter never exceeds one more than the number of consumed
    /// characters (which keeps it from overflowing).
    pub closed spec fn wf(&self) -> bool {
        &&& self.lexeme_start() <= self.cursor() <= self.src().len()
        &&& 1 <= self.cur_line() <= self.cursor() + 1
        &&& self.src().len() < usize::MAX
    }

    /// A fresh scanner over `source`: cursor at the start, line counter at 1,
    /// nothing emitted, nothing reported.
    pub fn new(source: String) -> (s: Self)
        requires
            source@.len() < usize::MAX,
        ensures
            s.wf(),
            s.src() == source@,
            s.cursor() == 0,
            s.lexeme_start() == 0,
            s.cur_line() == 1,
            s.emitted() == Seq::<SpecToken>::empty(),
            s.reported() == Seq::<SpecDiagnostic>::empty(),
    {
        let mut buf: Vec<char> = Vec::new();
        for c in it: source.as_str().chars()
            invariant
                it.seq() == source@,
                buf@ == it.seq().take(it.index() as int),
        {
            buf.push(c);
            proof {
                assert(buf@ =~= it.seq().take(it.index() as int + 1));
            }
        }
        proof {
            assert(buf@ =~= source@);
            assert(token_views(Seq::<Token>::empty()) =~= Seq::<SpecToken>::empty());
            assert(diagnostic_views(Seq::<Diagnostic>::empty()) =~= Seq::<
                SpecDiagnostic,
            >::empty());
        }
        Self { source: buf, tokens: Vec::new(), diags: Vec::new(), start: 0, current: 0, line: 1 }
    }

    /// Has the cursor reached the end of the source?
    fn is_at_end(&self) -> (b: bool)
        ensures
            b == (self.cursor() >= self.src().len()),
    {
        self.current >= self.source.len()
    }

    /// The next unconsumed character, or `'\0'` past the end.
    fn peek(&self) -> (c: char)
        requires
            self.cursor() <= self.src().len(),
        ensures
            c == (if self.cursor() < self.src().len() {
                self.src()[self.cursor()]
            } else {
                '\0'
            }),
    {
        if self.is_at_end() {
            return '\0';
        }
        self.source[self.current]
    }

    /// The character after the next one, or `'\0'` past the end.
    fn peek_next(&self) -> (c: char)
        requires
            self.cursor() <= self.src().len(),
            self.src().len() < usize::MAX,
        ensures
            c == (if self.cursor() + 1 < self.src().len() {
                self.src()[self.cursor() + 1]
            } else {
                '\0'
            }),
    {
        if self.current + 1 >= self.source.len() {
            return '\0';
        }
        self.source[self.current + 1]
    }

    /// Is `c` a decimal digit?
    fn is_digit(&self, c: char) -> (b: bool)
        ensures
            b == is_digit_char(c),
    {
        c >= '0' && c <= '9'
    }

    /// Is `c` an ASCII letter or underscore?
    fn is_alpha(&self, c: char) -> (b: bool)
        ensures
            b == is_alpha_char(c),
    {
        (c >= 'a' && c <= 'z') || (c >= 'A' && c <= 'Z') || c == '_'
    }

    /// May `c` continue an identifier?
    fn is_alpha_numeric(&self, c: char) -> (b: bool)
        ensures
            b == is_alpha_numeric_char(c),
    {
        self.is_alpha(c) || self.is_digit(c)
    }

    /// Consume and return one character.
    fn advance(&mut self) -> (c: char)
        requires
            old(self).wf(),
            old(self).cursor() < old(self).src().len(),
        ensures
            final(self).wf(),
            final(self).src() == old(self).src(),
            final(self).emitted() == old(self).emitted(),
            final(self).reported() == old(self).reported(),
            final(self).lexeme_start() == old(self).lexeme_start(),
            final(self).cur_line() == old(self).cur_line(),
            final(self).cursor() == old(self).cursor() + 1,
            c == old(self).src()[old(self).cursor()],
    {
        let c = self.source[self.current];
        self.current = self.current + 1;
        c
    }

    /// Consume the next character only if it is exactly `expected`.
    fn match_char(&mut self, expected: char) -> (b: bool)
        requires
            old(self).wf(),
        ensures
            final(self).wf(),
            final(self).src() == old(self).src(),
            final(self).emitted() == old(self).emitted(),
            final(self).reported() == old(self).reported(),
            final(self).lexeme_start() == old(self).lexeme_start(),
            final(self).cur_line() == old(self).cur_line(),
            b == (old(self).cursor() < old(self).src().len() && old(self).src()[old(
                self,
            ).cursor()] == expected),
            final(self).cursor() == old(self).cursor() + (if b { 1int } else { 0int }),
    {
        if self.is_at_end() {
            return false;
        }
        if self.source[self.current] != expected {
            return false;
        }
        self.current = self.current + 1;
        true
    }

    /// Emit one token whose literal is redundant with its lexeme: the source
    /// slice from the lexeme start to the cursor, tagged with the current
    /// line.
    fn add_token(&mut self, token_type: TokenType)
        requires
            old(self).wf(),
        ensures
            final(self).wf(),
            final(self).src() == old(self).src(),
            final(self).reported() == old(self).reported(),
            final(self).lexeme_start() == old(self).lexeme_start(),
            final(self).cur_line() == old(self).cur_line(),
            final(self).cursor() == old(self).cursor(),
            final(self).emitted() == old(self).emitted().push(
                plain_token(
                    token_type,
                    old(self).src(),
                    old(self).lexeme_start(),
                    old(self).cursor(),
                    old(self).cur_line(),
                ),
            ),
    {
        let text = substring_string(&self.source, self.start, self.current);
        let literal = text.clone();
        let ghost toks0 = self.tokens@;
        let t = Token::new(token_type, text, literal, self.line);
        self.tokens.push(t);
        proof {
            assert(token_views(toks0.push(t)) =~= token_views(toks0).push(t@));
        }
    }

    /// Consume the maximal run of identifier characters after the first one,
    /// then emit the keyword token for the spelled text, or an identifier
    /// token when the spelling is not reserved.
    fn identifier(&mut self)
        requires
            old(self).wf(),
            old(self).lexeme_start() + 1 == old(self).cursor(),
        ensures
            final(self).wf(),
            final(self).src() == old(self).src(),
            final(self).reported() == old(self).reported(),
            final(self).lexeme_start() == old(self).lexeme_start(),
            final(self).cur_line() == old(self).cur_line(),
            final(self).cursor() == run_end(old(self).src(), old(self).cursor(), alnum_pred()),
            final(self).emitted() == old(self).emitted().push(
                ({
                    let j = run_end(old(self).src(), old(self).cursor(), alnum_pred());
                    plain_token(
                        keyword_token_type(
                            old(self).src().subrange(old(self).lexeme_start(), j),
                        ),
                        old(self).src(),
                        old(self).lexeme_start(),
                        j,
                        old(self).cur_line(),
                    )
                }),
            ),
    {
        let ghost src = self.src();
        let ghost a = self.cursor();
        while self.is_alpha_numeric(self.peek())
            invariant
                self.wf(),
                self.src() == src,
                a <= self.cursor(),
                self.emitted() == old(self).emitted(),
                self.reported() == old(self).reported(),
                self.lexeme_start() == old(self).lexeme_start(),
                self.cur_line() == old(self).cur_line(),
                run_end(src, self.cursor(), alnum_pred()) == run_end(src, a, alnum_pred()),
            decreases src.len() - self.cursor(),
        {
            proof {
                assert(alnum_pred()(src[self.cursor()]));
                assert(run_end(src, self.cursor(), alnum_pred()) == run_end(
                    src,
                    self.cursor() + 1,
                    alnum_pred(),
                ));
            }
            self.advance();
        }
        proof {
            assert(run_end(src, self.cursor(), alnum_pred()) == self.cursor());
        }
        let t = keyword_lookup(&self.source, self.start, self.current);
        self.add_token(t);
    }

    /// Consume the maximal run of digits, then a fractional part only when
    /// a `.` is directly followed by another digit, and emit a number token
    /// holding the raw digit text.
    fn number(&mut self)
        requires
            old(self).wf(),
            old(self).lexeme_start() + 1 == old(self).cursor(),
        ensures
            final(self).wf(),
            final(self).src() == old(self).src(),
            final(self).reported() == old(self).reported(),
            final(self).lexeme_start() == old(self).lexeme_start(),
            final(self).cur_line() == old(self).cur_line(),
            final(self).cursor() == number_end(old(self).src(), old(self).lexeme_start()),
            final(self).emitted() == old(self).emitted().push(
                plain_token(
                    TokenType::Number,
                    old(self).src(),
                    old(self).lexeme_start(),
                    number_end(old(self).src(), old(self).lexeme_start()),
                    old(self).cur_line(),
                ),
            ),
    {
        let ghost src = self.src();
        let ghost i = self.lexeme_start();
        let ghost a = self.cursor();
        while self.is_digit(self.peek())
            invariant
                self.wf(),
                self.src() == src,
                a <= self.cursor(),
                self.emitted() == old(self).emitted(),
                self.reported() == old(self).reported(),
                self.lexeme_start() == old(self).lexeme_start(),
                self.cur_line() == old(self).cur_line(),
                run_end(src, self.cursor(), digit_pred()) == run_end(src, a, digit_pred()),
            decreases src.len() - self.cursor(),
        {
            proof {
                assert(digit_pred()(src[self.cursor()]));
                assert(run_end(src, self.cursor(), digit_pred()) == run_end(
                    src,
                    self.cursor() + 1,
                    digit_pred(),
                ));
            }
            self.advance();
        }
        proof {
            assert(run_end(src, self.cursor(), digit_pred()) == self.cursor());
        }
        let ghost j1 = self.cursor();
        if self.peek() == '.' && self.is_digit(self.peek_next()) {
            self.advance();
            let ghost b = self.cursor();
            while self.is_digit(self.peek())
                invariant
                    self.wf(),
                    self.src() == src,
                    b <= self.cursor(),
                    self.emitted() == old(self).emitted(),
                    self.reported() == old(self).reported(),
                    self.lexeme_start() == old(self).lexeme_start(),
                    self.cur_line() == old(self).cur_line(),
                    run_end(src, self.cursor(), digit_pred()) == run_end(src, b, digit_pred()),
                decreases src.len() - self.cursor(),
            {
                proof {
                    assert(digit_pred()(src[self.cursor()]));
                    assert(run_end(src, self.cursor(), digit_pred()) == run_end(
                        src,
                        self.cursor() + 1,
                        digit_pred(),
                    ));
                }
                self.advance();
            }
            proof {
                assert(run_end(src, self.cursor(), digit_pred()) == self.cursor());
                assert(run_end(src, j1 + 1, digit_pred()) == run_end(src, j1 + 2, digit_pred()));
                assert(self.cursor() == number_end(src, i));
            }
        } else {
            proof {
                assert(self.cursor() == number_end(src, i));
            }
        }
        self.add_token(TokenType::Number);
    }

    /// Consume a string literal's body up to its closing quote, counting
    /// embedded newlines. An unterminated literal is reported at the line
    /// the scan had reached and emits no token; a terminated one emits a
    /// string token whose literal strips the surrounding quotes and whose
    /// line is the line at the opening quote.
    fn string(&mut self)
        requires
            old(self).wf(),
            old(self).lexeme_start() + 1 == old(self).cursor(),
        ensures
            final(self).wf(),
            final(self).src() == old(self).src(),
            final(self).lexeme_start() == old(self).lexeme_start(),
            ({
                let src = old(self).src();
                let i = old(self).lexeme_start();
                let a = old(self).cursor();
                let j = run_end(src, a, string_body_pred());
                let nl = newline_count(src, a, j);
                if j >= src.len() {
                    &&& final(self).cursor() == src.len()
                    &&& final(self).cur_line() == old(self).cur_line() + nl
                    &&& final(self).emitted() == old(self).emitted()
                    &&& final(self).reported() == old(self).reported().push(
                        (SpecDiagnostic {
                            kind: DiagnosticKind::UnterminatedString,
                            line: old(self).cur_line() + nl,
                        }),
                    )
                } else {
                    &&& final(self).cursor() == j + 1
                    &&& final(self).cur_line() == old(self).cur_line() + nl
                    &&& final(self).reported() == old(self).reported()
                    &&& final(self).emitted() == old(self).emitted().push(
                        (SpecToken {
                            token_type: TokenType::StringLit,
                            lexeme: src.subrange(i, j + 1),
                            literal: src.subrange(a, j),
                            line: old(self).cur_line(),
                        }),
                    )
                }
            }),
    {
        let ghost src = self.src();
        let ghost a = self.cursor();
        let ghost l0 = self.cur_line();
        let line_start = self.line;
        proof {
            assert(newline_count(src, a, a) == 0);
        }
        while self.peek() != '"' && !self.is_at_end()
            invariant
                self.wf(),
                self.src() == src,
                a <= self.cursor() <= src.len(),
                self.emitted() == old(self).emitted(),
                self.reported() == old(self).reported(),
                self.lexeme_start() == old(self).lexeme_start(),
                run_end(src, self.cursor(), string_body_pred()) == run_end(
                    src,
                    a,
                    string_body_pred(),
                ),
                self.cur_line() == l0 + newline_count(src, a, self.cursor()),
            decreases src.len() - self.cursor(),
        {
            proof {
                assert(string_body_pred()(src[self.cursor()]));
                assert(run_end(src, self.cursor(), string_body_pred()) == run_end(
                    src,
                    self.cursor() + 1,
                    string_body_pred(),
                ));
                lemma_newline_count_snoc(src, a, self.cursor());
            }
            let c = self.advance();
            if c == '\n' {
                self.line = self.line + 1;
            }
        }
        proof {
            assert(run_end(src, self.cursor(), string_body_pred()) == self.cursor());
        }
        if self.is_at_end() {
            let ghost ds0 = self.diags@;
            let d = Diagnostic { kind: DiagnosticKind::UnterminatedString, line: self.line };
            self.diags.push(d);
            proof {
                assert(diagnostic_views(ds0.push(d)) =~= diagnostic_views(ds0).push(d@));
            }
            return;
        }
        self.advance();
        let lexeme = substring_string(&self.source, self.start, self.current);
        let value = substring_string(&self.source, self.start + 1, self.current - 1);
        let ghost toks0 = self.tokens@;
        let t = Token::new(TokenType::StringLit, lexeme, value, line_start);
        self.tokens.push(t);
        proof {
            assert(token_views(toks0.push(t)) =~= token_views(toks0).push(t@));
        }
    }

    /// The executable face of the operator readings.
    fn operator_token(&self, c: char, matched: bool) -> (t: TokenType)
        requires
            is_operator_head(c),
        ensures
            t == (if matched {
                operator_equal_type(c)
            } else {
                operator_alone_type(c)
            }),
    {
        if matched {
            if c == '!' {
                TokenType::BangEqual
            } else if c == '=' {
                TokenType::EqualEqual
            } else if c == '<' {
                TokenType::LessEqual
            } else {
                TokenType::GreaterEqual
            }
        } else {
            if c == '!' {
                TokenType::Bang
            } else if c == '=' {
                TokenType::Equal
            } else if c == '<' {
                TokenType::Less
            } else {
                TokenType::Greater
            }
        }
    }

    /// Scan exactly one lexeme: consume at least one character, and append
    /// to the emitted tokens and reported diagnostics exactly what the model
    /// says the step from the old cursor produces before the scan continues
    /// at the new cursor.
    fn scan_token(&mut self)
        requires
            old(self).wf(),
            old(self).cursor() < old(self).src().len(),
            old(self).lexeme_start() == old(self).cursor(),
        ensures
            final(self).wf(),
            final(self).src() == old(self).src(),
            old(self).cursor() < final(self).cursor(),
            old(self).emitted().is_prefix_of(final(self).emitted()),
            old(self).reported().is_prefix_of(final(self).reported()),
            scan_at(old(self).src(), old(self).cursor(), old(self).cur_line()).tokens
                == final(self).emitted().skip(old(self).emitted().len() as int) + scan_at(
                old(self).src(),
                final(self).cursor(),
                final(self).cur_line(),
            ).tokens,
            scan_at(old(self).src(), old(self).cursor(), old(self).cur_line()).diags
                == final(self).reported().skip(old(self).reported().len() as int) + scan_at(
                old(self).src(),
                final(self).cursor(),
                final(self).cur_line(),
            ).diags,
    {
        let ghost src = old(self).src();
        let ghost i = old(self).cursor();
        let ghost l = old(self).cur_line();
        let ghost t0 = old(self).emitted();
        let ghost d0 = old(self).reported();
        let c = self.advance();
        let punct = punctuation_lookup(c);
        if let Some(tt) = punct {
            self.add_token(tt);
            proof {
                let tok = plain_token(tt, src, i, i + 1, l);
                assert(scan_at(src, i, l) == with_token(tok, scan_at(src, i + 1, l)));
                assert(self.emitted().skip(t0.len() as int) =~= seq![tok]);
                assert(self.reported().skip(d0.len() as int) =~= Seq::<SpecDiagnostic>::empty());
                assert(Seq::<SpecDiagnostic>::empty() + scan_at(src, i + 1, l).diags =~= scan_at(
                    src,
                    i + 1,
                    l,
                ).diags);
            }
        } else if c == '!' || c == '=' || c == '<' || c == '>' {
            let matched = self.match_char('=');
            let tt = self.operator_token(c, matched);
            self.add_token(tt);
            proof {
                let j = if matched { i + 2 } else { i + 1 };
                let tok = plain_token(tt, src, i, j, l);
                assert(scan_at(src, i, l) == with_token(tok, scan_at(src, j, l)));
                assert(self.emitted().skip(t0.len() as int) =~= seq![tok]);
                assert(self.reported().skip(d0.len() as int) =~= Seq::<SpecDiagnostic>::empty());
                assert(Seq::<SpecDiagnostic>::empty() + scan_at(src, j, l).diags =~= scan_at(
                    src,
                    j,
                    l,
                ).diags);
            }
        } else if c == '/' {
            if self.match_char('/') {
                while self.peek() != '\n' && !self.is_at_end()
                    invariant
                        self.wf(),
                        self.src() == src,
                        i + 2 <= self.cursor(),
                        self.emitted() == t0,
                        self.reported() == d0,
                        self.lexeme_start() == old(self).lexeme_start(),
                        self.cur_line() == l,
                        run_end(src, self.cursor(), comment_pred()) == run_end(
                            src,
                            i + 2,
                            comment_pred(),
                        ),
                    decreases src.len() - self.cursor(),
                {
                    proof {
                        assert(comment_pred()(src[self.cursor()]));
                        assert(run_end(src, self.cursor(), comment_pred()) == run_end(
                            src,
                            self.cursor() + 1,
                            comment_pred(),
                        ));
                    }
                    self.advance();
                }
                proof {
                    assert(run_end(src, self.cursor(), comment_pred()) == self.cursor());
                    assert(scan_at(src, i, l) == scan_at(src, self.cursor(), l));
                    assert(self.emitted().skip(t0.len() as int) =~= Seq::<SpecToken>::empty());
                    assert(self.reported().skip(d0.len() as int) =~= Seq::<
                        SpecDiagnostic,
                    >::empty());
                    assert(Seq::<SpecToken>::empty() + scan_at(src, self.cursor(), l).tokens
                        =~= scan_at(src, self.cursor(), l).tokens);
                    assert(Seq::<SpecDiagnostic>::empty() + scan_at(src, self.cursor(), l).diags
                        =~= scan_at(src, self.cursor(), l).diags);
                }
            } else {
                self.add_token(TokenType::Slash);
                proof {
                    let tok = plain_token(TokenType::Slash, src, i, i + 1, l);
                    assert(scan_at(src, i, l) == with_token(tok, scan_at(src, i + 1, l)));
                    assert(self.emitted().skip(t0.len() as int) =~= seq![tok]);
                    assert(self.reported().skip(d0.len() as int) =~= Seq::<
                        SpecDiagnostic,
                    >::empty());
                    assert(Seq::<SpecDiagnostic>::empty() + scan_at(src, i + 1, l).diags
                        =~= scan_at(src, i + 1, l).diags);
                }
            }
        } else if c == ' ' || c == '\r' || c == '\t' {
            proof {
                assert(scan_at(src, i, l) == scan_at(src, i + 1, l));
                assert(self.emitted().skip(t0.len() as int) =~= Seq::<SpecToken>::empty());
                assert(self.reported().skip(d0.len() as int) =~= Seq::<SpecDiagnostic>::empty());
                assert(Seq::<SpecToken>::empty() + scan_at(src, i + 1, l).tokens =~= scan_at(
                    src,
                    i + 1,
                    l,
                ).tokens);
                assert(Seq::<SpecDiagnostic>::empty() + scan_at(src, i + 1, l).diags =~= scan_at(
                    src,
                    i + 1,
                    l,
                ).diags);
            }
        } else if c == '\n' {
            self.line = self.line + 1;
            proof {
                assert(scan_at(src, i, l) == scan_at(src, i + 1, l + 1));
                assert(self.emitted().skip(t0.len() as int) =~= Seq::<SpecToken>::empty());
                assert(self.reported().skip(d0.len() as int) =~= Seq::<SpecDiagnostic>::empty());
                assert(Seq::<SpecToken>::empty() + scan_at(src, i + 1, l + 1).tokens =~= scan_at(
                    src,
                    i + 1,
                    l + 1,
                ).tokens);
                assert(Seq::<SpecDiagnostic>::empty() + scan_at(src, i + 1, l + 1).diags
                    =~= scan_at(src, i + 1, l + 1).diags);
            }
        } else if c == '"' {
            self.string();
            proof {
                let j = run_end(src, i + 1, string_body_pred());
                let nl = newline_count(src, i + 1, j);
                lemma_run_end(src, i + 1, string_body_pred());
                if j >= src.len() {
                    let d = SpecDiagnostic {
                        kind: DiagnosticKind::UnterminatedString,
                        line: l + nl,
                    };
                    assert(scan_at(src, i, l) == with_diag(
                        d,
                        scan_at(src, src.len() as int, l + nl),
                    ));
                    assert(self.reported().skip(d0.len() as int) =~= seq![d]);
                    assert(self.emitted().skip(t0.len() as int) =~= Seq::<SpecToken>::empty());
                    assert(Seq::<SpecToken>::empty() + scan_at(src, src.len() as int, l
                        + nl).tokens =~= scan_at(src, src.len() as int, l + nl).tokens);
                } else {
                    let tok = SpecToken {
                        token_type: TokenType::StringLit,
                        lexeme: src.subrange(i, j + 1),
                        literal: src.subrange(i + 1, j),
                        line: l,
                    };
                    assert(scan_at(src, i, l) == with_token(tok, scan_at(src, j + 1, l + nl)));
                    assert(self.emitted().skip(t0.len() as int) =~= seq![tok]);
                    assert(self.reported().skip(d0.len() as int) =~= Seq::<
                        SpecDiagnostic,
                    >::empty());
                    assert(Seq::<SpecDiagnostic>::empty() + scan_at(src, j + 1, l + nl).diags
                        =~= scan_at(src, j + 1, l + nl).diags);
                }
            }
        } else if self.is_digit(c) {
            self.number();
            proof {
                let j = number_end(src, i);
                lemma_run_end(src, i + 1, digit_pred());
                let tok = plain_token(TokenType::Number, src, i, j, l);
                assert(scan_at(src, i, l) == with_token(tok, scan_at(src, j, l)));
                assert(self.emitted().skip(t0.len() as int) =~= seq![tok]);
                assert(self.reported().skip(d0.len() as int) =~= Seq::<SpecDiagnostic>::empty());
                assert(Seq::<SpecDiagnostic>::empty() + scan_at(src, j, l).diags =~= scan_at(
                    src,
                    j,
                    l,
                ).diags);
            }
        } else if self.is_alpha(c) {
            self.identifier();
            proof {
                let j = run_end(src, i + 1, alnum_pred());
                lemma_run_end(src, i + 1, alnum_pred());
                let tok = plain_token(keyword_token_type(src.subrange(i, j)), src, i, j, l);
                assert(scan_at(src, i, l) == with_token(tok, scan_at(src, j, l)));
                assert(self.emitted().skip(t0.len() as int) =~= seq![tok]);
                assert(self.reported().skip(d0.len() as int) =~= Seq::<SpecDiagnostic>::empty());
                assert(Seq::<SpecDiagnostic>::empty() + scan_at(src, j, l).diags =~= scan_at(
                    src,
                    j,
                    l,
                ).diags);
            }
        } else {
            let ghost ds0 = self.diags@;
            let d = Diagnostic { kind: DiagnosticKind::UnexpectedChar { ch: c }, line: self.line };
            self.diags.push(d);
            proof {
                assert(diagnostic_views(ds0.push(d)) =~= diagnostic_views(ds0).push(d@));
                assert(scan_at(src, i, l) == with_diag(d@, scan_at(src, i + 1, l)));
                assert(self.reported().skip(d0.len() as int) =~= seq![d@]);
                assert(self.emitted().skip(t0.len() as int) =~= Seq::<SpecToken>::empty());
                assert(Seq::<SpecToken>::empty() + scan_at(src, i + 1, l).tokens =~= scan_at(
                    src,
                    i + 1,
                    l,
                ).tokens);
            }
        }
    }

    /// Scan the whole remaining source, one lexeme per iteration, then
    /// append the single end-of-input sentinel carrying the final line
    /// count: afterwards the token sequence and the diagnostics are exactly
    /// what the model produces from the starting cursor.
    pub fn scan_tokens(&mut self) -> (r: &Vec<Token>)
        requires
            old(self).wf(),
        ensures
            final(self).wf(),
            final(self).src() == old(self).src(),
            final(self).emitted() == old(self).emitted() + scan_at(
                old(self).src(),
                old(self).cursor(),
                old(self).cur_line(),
            ).tokens,
            final(self).reported() == old(self).reported() + scan_at(
                old(self).src(),
                old(self).cursor(),
                old(self).cur_line(),
            ).diags,
            token_views(r@) == final(self).emitted(),
    {
        let ghost src = old(self).src();
        let ghost c0 = old(self).cursor();
        let ghost l0 = old(self).cur_line();
        let ghost t0 = old(self).emitted();
        let ghost d0 = old(self).reported();
        proof {
            assert(t0 =~= t0.subrange(0, t0.len() as int));
            assert(d0 =~= d0.subrange(0, d0.len() as int));
            assert(t0.skip(t0.len() as int) =~= Seq::<SpecToken>::empty());
            assert(d0.skip(d0.len() as int) =~= Seq::<SpecDiagnostic>::empty());
            assert(Seq::<SpecToken>::empty() + scan_at(src, c0, l0).tokens =~= scan_at(
                src,
                c0,
                l0,
            ).tokens);
            assert(Seq::<SpecDiagnostic>::empty() + scan_at(src, c0, l0).diags =~= scan_at(
                src,
                c0,
                l0,
            ).diags);
        }
        while !self.is_at_end()
            invariant
                self.wf(),
                self.src() == src,
                t0.is_prefix_of(self.emitted()),
                d0.is_prefix_of(self.reported()),
                scan_at(src, c0, l0).tokens == self.emitted().skip(t0.len() as int) + scan_at(
                    src,
                    self.cursor(),
                    self.cur_line(),
                ).tokens,
                scan_at(src, c0, l0).diags == self.reported().skip(d0.len() as int) + scan_at(
                    src,
                    self.cursor(),
                    self.cur_line(),
                ).diags,
            decreases src.len() - self.cursor(),
        {
            self.start = self.current;
            let ghost t_mid = self.emitted();
            let ghost d_mid = self.reported();
            self.scan_token();
            proof {
                lemma_skip_chain(t0, t_mid, self.emitted());
                lemma_skip_chain(d0, d_mid, self.reported());
                assert(t_mid.skip(t0.len() as int) + (self.emitted().skip(t_mid.len() as int)
                    + scan_at(src, self.cursor(), self.cur_line()).tokens) =~= (t_mid.skip(
                    t0.len() as int,
                ) + self.emitted().skip(t_mid.len() as int)) + scan_at(
                    src,
                    self.cursor(),
                    self.cur_line(),
                ).tokens);
                assert(d_mid.skip(d0.len() as int) + (self.reported().skip(d_mid.len() as int)
                    + scan_at(src, self.cursor(), self.cur_line()).diags) =~= (d_mid.skip(
                    d0.len() as int,
                ) + self.reported().skip(d_mid.len() as int)) + scan_at(
                    src,
                    self.cursor(),
                    self.cur_line(),
                ).diags);
            }
        }
        let ghost t_end = self.emitted();
        let ghost d_end = self.reported();
        let ghost l_end = self.cur_line();
        proof {
            assert(self.cursor() == src.len());
            assert(scan_at(src, self.cursor(), l_end) == (ScanOutput {
                tokens: seq![eof_token(l_end)],
                diags: Seq::<SpecDiagnostic>::empty(),
            }));
        }
        let line = self.line;
        let ghost toks0 = self.tokens@;
        let t = Token::new(TokenType::Eof, String::new(), String::new(), line);
        self.tokens.push(t);
        proof {
            assert(token_views(toks0.push(t)) =~= token_views(toks0).push(t@));
            assert(t@ == eof_token(l_end));
            lemma_prefix_restore(t0, t_end);
            lemma_prefix_restore(d0, d_end);
            assert(t_end.push(eof_token(l_end)) =~= t_end + seq![eof_token(l_end)]);
            assert((t0 + t_end.skip(t0.len() as int)) + seq![eof_token(l_end)] =~= t0 + (
            t_end.skip(t0.len() as int) + seq![eof_token(l_end)]));
            assert(self.emitted() == t0 + scan_at(src, c0, l0).tokens);
            assert(d_end.skip(d0.len() as int) + Seq::<SpecDiagnostic>::empty() =~= d_end.skip(
                d0.len() as int,
            ));
            assert(self.reported() == d0 + scan_at(src, c0, l0).diags);
        }
        &self.tokens
    }

    /// The diagnostics accumulated by the scan, in the order they were
    /// reported.
    pub fn diagnostics(&self) -> (r: &Vec<Diagnostic>)
        ensures
            diagnostic_views(r@) == self.reported(),
    {
        &self.diags
    }

    /// Did any lexical error occur? The driver checks this before handing
    /// the token sequence to later phases.
    pub fn had_error(&self) -> (b: bool)
        ensures
            b == (self.reported().len() > 0),
    {
        self.diags.len() > 0
    }
}

} // verus!
