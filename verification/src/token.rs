//! Token categories, the token record itself, lexical diagnostics, and the
//! reserved-word table.

use vstd::prelude::*;

verus! {

/// The closed set of lexical categories: single-character punctuation,
/// one/two-character operators, literals, reserved words, and the
/// end-of-input sentinel.
#[derive(Debug, Clone, Copy, PartialEq, Eq, Structural)]
pub enum TokenType {
    LeftParen,
    RightParen,
    LeftBrace,
    RightBrace,
    Comma,
    Dot,
    Minus,
    Plus,
    Semicolon,
    Slash,
    Star,
    Bang,
    BangEqual,
    Equal,
    EqualEqual,
    Greater,
    GreaterEqual,
    Less,
    LessEqual,
    Identifier,
    StringLit,
    Number,
    And,
    Class,
    Else,
    False,
    For,
    Fun,
    If,
    Nil,
    Or,
    Print,
    Return,
    Super,
    This,
    True,
    Var,
    While,
    Eof,
}

/// Mathematical image of a `Token`: the same record over `Seq<char>` and `int`.
pub ghost struct SpecToken {
    pub token_type: TokenType,
    pub lexeme: Seq<char>,
    pub literal: Seq<char>,
    pub line: int,
}

/// One token produced by the scanner: its category, the exact source slice it
/// was read from, the decoded literal text (category-dependent), and the
/// 1-based source line at the token's start.
#[derive(Debug, Clone, PartialEq, Eq)]
pub struct Token {
    pub token_type: TokenType,
    pub lexeme: String,
    pub literal: String,
    pub line: usize,
}

impl View for Token {
    type V = SpecToken;

    open spec fn view(&self) -> SpecToken {
        SpecToken {
            token_type: self.token_type,
            lexeme: self.lexeme@,
            literal: self.literal@,
            line: self.line as int,
        }
    }
}

impl Token {
    pub fn new(token_type: TokenType, lexeme: String, literal: String, line: usize) -> (t: Self)
        ensures
            t@ == (SpecToken {
                token_type,
                lexeme: lexeme@,
                literal: literal@,
                line: line as int,
            }),
    {
        Self { token_type, lexeme, literal, line }
    }
}

/// The views of a sequence of tokens, in order.
pub open spec fn token_views(ts: Seq<Token>) -> Seq<SpecToken> {
    ts.map_values(|t: Token| t@)
}

/// What a recoverable lexical error complains about.
#[derive(Debug, Clone, Copy, PartialEq, Eq, Structural)]
pub enum DiagnosticKind {
    UnexpectedChar { ch: char },
    UnterminatedString,
}

/// Mathematical image of a `Diagnostic`.
pub ghost struct SpecDiagnostic {
    pub kind: DiagnosticKind,
    pub line: int,
}

/// One recoverable lexical error, tagged with the 1-based line it was
/// reported on. The scan never aborts on these; it accumulates them.
#[derive(Debug, Clone, Copy, PartialEq, Eq)]
pub struct Diagnostic {
    pub kind: DiagnosticKind,
    pub line: usize,
}

impl View for Diagnostic {
    type V = SpecDiagnostic;

    open spec fn view(&self) -> SpecDiagnostic {
        SpecDiagnostic { kind: self.kind, line: self.line as int }
    }
}

/// The views of a sequence of diagnostics, in order.
pub open spec fn diagnostic_views(ds: Seq<Diagnostic>) -> Seq<SpecDiagnostic> {
    ds.map_values(|d: Diagnostic| d@)
}

/// The reserved-word table: the category of an identifier spelling.
/// Lookup is exact-match only; any spelling that is not one of the sixteen
/// reserved words is an `Identifier`.
pub open spec fn keyword_token_type(s: Seq<char>) -> TokenType {
    if s == seq!['a', 'n', 'd'] {
        TokenType::And
    } else if s == seq!['c', 'l', 'a', 's', 's'] {
        TokenType::Class
    } else if s == seq!['e', 'l', 's', 'e'] {
        TokenType::Else
    } else if s == seq!['f', 'a', 'l', 's', 'e'] {
        TokenType::False
    } else if s == seq!['f', 'o', 'r'] {
        TokenType::For
    } else if s == seq!['f', 'u', 'n'] {
        TokenType::Fun
    } else if s == seq!['i', 'f'] {
        TokenType::If
    } else if s == seq!['n', 'i', 'l'] {
        TokenType::Nil
    } else if s == seq!['o', 'r'] {
        TokenType::Or
    } else if s == seq!['p', 'r', 'i', 'n', 't'] {
        TokenType::Print
    } else if s == seq!['r', 'e', 't', 'u', 'r', 'n'] {
        TokenType::Return
    } else if s == seq!['s', 'u', 'p', 'e', 'r'] {
        TokenType::Super
    } else if s == seq!['t', 'h', 'i', 's'] {
        TokenType::This
    } else if s == seq!['t', 'r', 'u', 'e'] {
        TokenType::True
    } else if s == seq!['v', 'a', 'r'] {
        TokenType::Var
    } else if s == seq!['w', 'h', 'i', 'l', 'e'] {
        TokenType::While
    } else {
        TokenType::Identifier
    }
}

/// Is `src[a..b)` exactly the two given characters?
fn kw2(src: &Vec<char>, a: usize, b: usize, c0: char, c1: char) -> (r: bool)
    requires
        a <= b <= src.len(),
    ensures
        r == (src@.subrange(a as int, b as int) == seq![c0, c1]),
{
    let r = b - a == 2 && src[a] == c0 && src[a + 1] == c1;
    proof {
        let s = src@.subrange(a as int, b as int);
        assert(seq![c0, c1].len() == 2);
        if b - a == 2 {
            assert(s[0] == src@[a as int] && s[1] == src@[a as int + 1]);
            assert(seq![c0, c1][0] == c0 && seq![c0, c1][1] == c1);
            if r {
                assert(s =~= seq![c0, c1]);
            }
        }
    }
    r
}

/// Is `src[a..b)` exactly the three given characters?
fn kw3(src: &Vec<char>, a: usize, b: usize, c0: char, c1: char, c2: char) -> (r: bool)
    requires
        a <= b <= src.len(),
    ensures
        r == (src@.subrange(a as int, b as int) == seq![c0, c1, c2]),
{
    let r = b - a == 3 && src[a] == c0 && src[a + 1] == c1 && src[a + 2] == c2;
    proof {
        let s = src@.subrange(a as int, b as int);
        assert(seq![c0, c1, c2].len() == 3);
        if b - a == 3 {
            assert(s[0] == src@[a as int]);
            assert(s[1] == src@[a as int + 1]);
            assert(s[2] == src@[a as int + 2]);
            assert(seq![c0, c1, c2][0] == c0 && seq![c0, c1, c2][1] == c1 && seq![c0, c1, c2][2]
                == c2);
            if r {
                assert(s =~= seq![c0, c1, c2]);
            }
        }
    }
    r
}

/// Is `src[a..b)` exactly the four given characters?
fn kw4(src: &Vec<char>, a: usize, b: usize, c0: char, c1: char, c2: char, c3: char) -> (r: bool)
    requires
        a <= b <= src.len(),
    ensures
        r == (src@.subrange(a as int, b as int) == seq![c0, c1, c2, c3]),
{
    let r = b - a == 4 && src[a] == c0 && src[a + 1] == c1 && src[a + 2] == c2 && src[a + 3] == c3;
    proof {
        let s = src@.subrange(a as int, b as int);
        assert(seq![c0, c1, c2, c3].len() == 4);
        if b - a == 4 {
            assert(s[0] == src@[a as int]);
            assert(s[1] == src@[a as int + 1]);
            assert(s[2] == src@[a as int + 2]);
            assert(s[3] == src@[a as int + 3]);
            assert(seq![c0, c1, c2, c3][0] == c0 && seq![c0, c1, c2, c3][1] == c1);
            assert(seq![c0, c1, c2, c3][2] == c2 && seq![c0, c1, c2, c3][3] == c3);
            if r {
                assert(s =~= seq![c0, c1, c2, c3]);
            }
        }
    }
    r
}

/// Is `src[a..b)` exactly the five given characters?
fn kw5(
    src: &Vec<char>,
    a: usize,
    b: usize,
    c0: char,
    c1: char,
    c2: char,
    c3: char,
    c4: char,
) -> (r: bool)
    requires
        a <= b <= src.len(),
    ensures
        r == (src@.subrange(a as int, b as int) == seq![c0, c1, c2, c3, c4]),
{
    let r = b - a == 5 && src[a] == c0 && src[a + 1] == c1 && src[a + 2] == c2 && src[a + 3] == c3
        && src[a + 4] == c4;
    proof {
        let s = src@.subrange(a as int, b as int);
        assert(seq![c0, c1, c2, c3, c4].len() == 5);
        if b - a == 5 {
            assert(s[0] == src@[a as int]);
            assert(s[1] == src@[a as int + 1]);
            assert(s[2] == src@[a as int + 2]);
            assert(s[3] == src@[a as int + 3]);
            assert(s[4] == src@[a as int + 4]);
            assert(seq![c0, c1, c2, c3, c4][0] == c0 && seq![c0, c1, c2, c3, c4][1] == c1);
            assert(seq![c0, c1, c2, c3, c4][2] == c2 && seq![c0, c1, c2, c3, c4][3] == c3);
            assert(seq![c0, c1, c2, c3, c4][4] == c4);
            if r {
                assert(s =~= seq![c0, c1, c2, c3, c4]);
            }
        }
    }
    r
}

/// Is `src[a..b)` exactly the six given characters?
fn kw6(
    src: &Vec<char>,
    a: usize,
    b: usize,
    c0: char,
    c1: char,
    c2: char,
    c3: char,
    c4: char,
    c5: char,
) -> (r: bool)
    requires
        a <= b <= src.len(),
    ensures
        r == (src@.subrange(a as int, b as int) == seq![c0, c1, c2, c3, c4, c5]),
{
    let r = b - a == 6 && src[a] == c0 && src[a + 1] == c1 && src[a + 2] == c2 && src[a + 3] == c3
        && src[a + 4] == c4 && src[a + 5] == c5;
    proof {
        let s = src@.subrange(a as int, b as int);
        assert(seq![c0, c1, c2, c3, c4, c5].len() == 6);
        if b - a == 6 {
            assert(s[0] == src@[a as int]);
            assert(s[1] == src@[a as int + 1]);
            assert(s[2] == src@[a as int + 2]);
            assert(s[3] == src@[a as int + 3]);
            assert(s[4] == src@[a as int + 4]);
            assert(s[5] == src@[a as int + 5]);
            assert(seq![c0, c1, c2, c3, c4, c5][0] == c0 && seq![c0, c1, c2, c3, c4, c5][1] == c1
                && seq![c0, c1, c2, c3, c4, c5][2] == c2 && seq![c0, c1, c2, c3, c4, c5][3] == c3
                && seq![c0, c1, c2, c3, c4, c5][4] == c4 && seq![c0, c1, c2, c3, c4, c5][5] == c5);
            if r {
                assert(s =~= seq![c0, c1, c2, c3, c4, c5]);
            }
        }
    }
    r
}

/// Exact-match lookup of `src[a..b)` in the reserved-word table: the
/// executable face of `keyword_token_type`.
pub fn keyword_lookup(src: &Vec<char>, a: usize, b: usize) -> (t: TokenType)
    requires
        a <= b <= src.len(),
    ensures
        t == keyword_token_type(src@.subrange(a as int, b as int)),
{
    if kw3(src, a, b, 'a', 'n', 'd') {
        TokenType::And
    } else if kw5(src, a, b, 'c', 'l', 'a', 's', 's') {
        TokenType::Class
    } else if kw4(src, a, b, 'e', 'l', 's', 'e') {
        TokenType::Else
    } else if kw5(src, a, b, 'f', 'a', 'l', 's', 'e') {
        TokenType::False
    } else if kw3(src, a, b, 'f', 'o', 'r') {
        TokenType::For
    } else if kw3(src, a, b, 'f', 'u', 'n') {
        TokenType::Fun
    } else if kw2(src, a, b, 'i', 'f') {
        TokenType::If
    } else if kw3(src, a, b, 'n', 'i', 'l') {
        TokenType::Nil
    } else if kw2(src, a, b, 'o', 'r') {
        TokenType::Or
    } else if kw5(src, a, b, 'p', 'r', 'i', 'n', 't') {
        TokenType::Print
    } else if kw6(src, a, b, 'r', 'e', 't', 'u', 'r', 'n') {
        TokenType::Return
    } else if kw5(src, a, b, 's', 'u', 'p', 'e', 'r') {
        TokenType::Super
    } else if kw4(src, a, b, 't', 'h', 'i', 's') {
        TokenType::This
    } else if kw4(src, a, b, 't', 'r', 'u', 'e') {
        TokenType::True
    } else if kw3(src, a, b, 'v', 'a', 'r') {
        TokenType::Var
    } else if kw5(src, a, b, 'w', 'h', 'i', 'l', 'e') {
        TokenType::While
    } else {
        TokenType::Identifier
    }
}

} // verus!
