//! The scanner: a single left-to-right pass over the source characters with
//! at most one character of lookahead, producing the token sequence and the
//! lexical diagnostics.
//!
//! The whole pass is specified by [`scan_from`], a mathematical function
//! from the source characters, a position and a line counter to the tokens
//! and diagnostics emitted from that position onward.  [`Scanner::scan_tokens`]
//! is proved to produce exactly `scan_from(source, 0, 1)`.

use crate::diagnostics::{error, Diagnostic, DiagnosticKind, SpecDiagnostic};
use crate::token::{
    spec_keyword, reserved_to_tokentype, LiteralType, SpecLiteral, SpecToken, SpecTokenType,
    Token, TokenType,
};
use vstd::prelude::*;
use vstd::string::{StrSliceExecFns, StringExecFns};

verus! {

// ---------------------------------------------------------------------------
// Character classes
// ---------------------------------------------------------------------------

/// An ASCII decimal digit.
pub open spec fn digit(c: char) -> bool {
    '0' <= c && c <= '9'
}

/// An ASCII letter or underscore: the characters an identifier may start
/// with.
pub open spec fn alpha(c: char) -> bool {
    ('a' <= c && c <= 'z') || ('A' <= c && c <= 'Z') || c == '_'
}

/// A character an identifier may continue with.
pub open spec fn alnum(c: char) -> bool {
    digit(c) || alpha(c)
}

fn is_digit(c: char) -> (r: bool)
    ensures
        r == digit(c),
{
    '0' <= c && c <= '9'
}

fn is_alpha(c: char) -> (r: bool)
    ensures
        r == alpha(c),
{
    ('a' <= c && c <= 'z') || ('A' <= c && c <= 'Z') || c == '_'
}

fn is_alnum(c: char) -> (r: bool)
    ensures
        r == alnum(c),
{
    is_digit(c) || is_alpha(c)
}

// ---------------------------------------------------------------------------
// Positions in the character stream
// ---------------------------------------------------------------------------

/// The position of the first occurrence of `c` at or after `i`, or `s.len()`
/// if `c` does not occur there.
pub open spec fn find_char(s: Seq<char>, i: int, c: char) -> int
    decreases s.len() - i,
{
    if i < s.len() {
        if s[i] == c {
            i
        } else {
            find_char(s, i + 1, c)
        }
    } else {
        s.len() as int
    }
}

/// The end of the maximal run of decimal digits beginning at `i`.
pub open spec fn digit_run_end(s: Seq<char>, i: int) -> int
    decreases s.len() - i,
{
    if i < s.len() && digit(s[i]) {
        digit_run_end(s, i + 1)
    } else {
        i
    }
}

/// The end of the maximal run of identifier characters beginning at `i`.
pub open spec fn ident_run_end(s: Seq<char>, i: int) -> int
    decreases s.len() - i,
{
    if i < s.len() && alnum(s[i]) {
        ident_run_end(s, i + 1)
    } else {
        i
    }
}

/// How many newline characters stand in `s` at positions in `[i, j)`.
pub open spec fn newline_count(s: Seq<char>, i: int, j: int) -> nat
    decreases j - i,
{
    if i < j {
        (if s[i] == '\n' {
            1nat
        } else {
            0nat
        }) + newline_count(s, i + 1, j)
    } else {
        0nat
    }
}

proof fn lemma_find_char(s: Seq<char>, i: int, c: char)
    requires
        i <= s.len(),
    ensures
        i <= find_char(s, i, c) <= s.len(),
        forall|k: int| i <= k < find_char(s, i, c) ==> s[k] != c,
        find_char(s, i, c) < s.len() ==> s[find_char(s, i, c)] == c,
    decreases s.len() - i,
{
    if i < s.len() && s[i] != c {
        lemma_find_char(s, i + 1, c);
    }
}

proof fn lemma_digit_run_end(s: Seq<char>, i: int)
    requires
        i <= s.len(),
    ensures
        i <= digit_run_end(s, i) <= s.len(),
        forall|k: int| i <= k < digit_run_end(s, i) ==> digit(s[k]),
        digit_run_end(s, i) < s.len() ==> !digit(s[digit_run_end(s, i)]),
    decreases s.len() - i,
{
    if i < s.len() && digit(s[i]) {
        lemma_digit_run_end(s, i + 1);
    }
}

proof fn lemma_ident_run_end(s: Seq<char>, i: int)
    requires
        i <= s.len(),
    ensures
        i <= ident_run_end(s, i) <= s.len(),
        forall|k: int| i <= k < ident_run_end(s, i) ==> alnum(s[k]),
        ident_run_end(s, i) < s.len() ==> !alnum(s[ident_run_end(s, i)]),
    decreases s.len() - i,
{
    if i < s.len() && alnum(s[i]) {
        lemma_ident_run_end(s, i + 1);
    }
}

proof fn lemma_newline_count_extend(s: Seq<char>, i: int, j: int)
    requires
        i <= j,
    ensures
        newline_count(s, i, j + 1) == newline_count(s, i, j) + (if s[j] == '\n' {
            1nat
        } else {
            0nat
        }),
    decreases j - i,
{
    if i < j {
        lemma_newline_count_extend(s, i + 1, j);
    } else {
        assert(newline_count(s, j + 1, j + 1) == 0);
    }
}

// ---------------------------------------------------------------------------
// The scan, as a mathematical function
// ---------------------------------------------------------------------------

/// What one scan produces: the tokens and the diagnostics, each in the order
/// they were emitted.
#[verifier::ext_equal]
pub struct SpecScan {
    pub tokens: Seq<SpecToken>,
    pub diagnostics: Seq<SpecDiagnostic>,
}

/// A token with the given kind, lexeme and line.
pub open spec fn single(token_type: SpecTokenType, lexeme: Seq<char>, line: nat) -> SpecToken {
    SpecToken { token_type, lexeme, line }
}

/// `rest`, with the token `t` emitted in front of it.
pub open spec fn with_token(t: SpecToken, rest: SpecScan) -> SpecScan {
    SpecScan { tokens: seq![t] + rest.tokens, diagnostics: rest.diagnostics }
}

/// `rest`, with the diagnostic `d` reported before it.
pub open spec fn with_diag(d: SpecDiagnostic, rest: SpecScan) -> SpecScan {
    SpecScan { tokens: rest.tokens, diagnostics: seq![d] + rest.diagnostics }
}

/// The tokens and diagnostics that scanning `s` emits from position `i`
/// onward, with the line counter standing at `line`.  This is the scanner's
/// whole specification: one character of lookahead decides every rule, a
/// two-character operator wins over its one-character prefix, `//` wins over
/// a bare slash, and every lexical error is reported and scanned past rather
/// than ending the scan.  The result always ends in exactly one end-of-input
/// token.
pub open spec fn scan_from(s: Seq<char>, i: int, line: nat) -> SpecScan
    recommends
        0 <= i <= s.len(),
    decreases s.len() - i,
        via scan_from_decreases
{
    if !(0 <= i < s.len()) {
        SpecScan {
            tokens: seq![single(SpecTokenType::EOF, Seq::empty(), line)],
            diagnostics: Seq::empty(),
        }
    } else {
        let c = s[i];
        if c == '(' {
            with_token(
                single(SpecTokenType::LeftParen, s.subrange(i, i + 1), line),
                scan_from(s, i + 1, line),
            )
        } else if c == ')' {
            with_token(
                single(SpecTokenType::RightParen, s.subrange(i, i + 1), line),
                scan_from(s, i + 1, line),
            )
        } else if c == '{' {
            with_token(
                single(SpecTokenType::LeftBrace, s.subrange(i, i + 1), line),
                scan_from(s, i + 1, line),
            )
        } else if c == '}' {
            with_token(
                single(SpecTokenType::RightBrace, s.subrange(i, i + 1), line),
                scan_from(s, i + 1, line),
            )
        } else if c == ',' {
            with_token(
                single(SpecTokenType::Comma, s.subrange(i, i + 1), line),
                scan_from(s, i + 1, line),
            )
        } else if c == '.' {
            with_token(
                single(SpecTokenType::Dot, s.subrange(i, i + 1), line),
                scan_from(s, i + 1, line),
            )
        } else if c == '-' {
            with_token(
                single(SpecTokenType::Minus, s.subrange(i, i + 1), line),
                scan_from(s, i + 1, line),
            )
        } else if c == '+' {
            with_token(
                single(SpecTokenType::Plus, s.subrange(i, i + 1), line),
                scan_from(s, i + 1, line),
            )
        } else if c == ';' {
            with_token(
                single(SpecTokenType::Semicolon, s.subrange(i, i + 1), line),
                scan_from(s, i + 1, line),
            )
        } else if c == '*' {
            with_token(
                single(SpecTokenType::Star, s.subrange(i, i + 1), line),
                scan_from(s, i + 1, line),
            )
        } else if c == '!' {
            if i + 1 < s.len() && s[i + 1] == '=' {
                with_token(
                    single(SpecTokenType::BangEqual, s.subrange(i, i + 2), line),
                    scan_from(s, i + 2, line),
                )
            } else {
                with_token(
                    single(SpecTokenType::Bang, s.subrange(i, i + 1), line),
                    scan_from(s, i + 1, line),
                )
            }
        } else if c == '=' {
            if i + 1 < s.len() && s[i + 1] == '=' {
                with_token(
                    single(SpecTokenType::EqualEqual, s.subrange(i, i + 2), line),
                    scan_from(s, i + 2, line),
                )
            } else {
                with_token(
                    single(SpecTokenType::Equal, s.subrange(i, i + 1), line),
                    scan_from(s, i + 1, line),
                )
            }
        } else if c == '<' {
            if i + 1 < s.len() && s[i + 1] == '=' {
                with_token(
                    single(SpecTokenType::LessEqual, s.subrange(i, i + 2), line),
                    scan_from(s, i + 2, line),
                )
            } else {
                with_token(
                    single(SpecTokenType::Less, s.subrange(i, i + 1), line),
                    scan_from(s, i + 1, line),
                )
            }
        } else if c == '>' {
            if i + 1 < s.len() && s[i + 1] == '=' {
                with_token(
                    single(SpecTokenType::GreaterEqual, s.subrange(i, i + 2), line),
                    scan_from(s, i + 2, line),
                )
            } else {
                with_token(
                    single(SpecTokenType::Greater, s.subrange(i, i + 1), line),
                    scan_from(s, i + 1, line),
                )
            }
        } else if c == '/' {
            if i + 1 < s.len() && s[i + 1] == '/' {
                // A comment runs through, but does not consume, the next
                // newline, and produces nothing.
                scan_from(s, find_char(s, i + 2, '\n'), line)
            } else {
                with_token(
                    single(SpecTokenType::Slash, s.subrange(i, i + 1), line),
                    scan_from(s, i + 1, line),
                )
            }
        } else if c == ' ' || c == '\r' || c == '\t' {
            scan_from(s, i + 1, line)
        } else if c == '\n' {
            scan_from(s, i + 1, line + 1)
        } else if c == '"' {
            let close = find_char(s, i + 1, '"');
            if close < s.len() {
                with_token(
                    single(
                        SpecTokenType::Literal(SpecLiteral::String(s.subrange(i + 1, close))),
                        s.subrange(i, close + 1),
                        line,
                    ),
                    scan_from(s, close + 1, line + newline_count(s, i + 1, close)),
                )
            } else {
                // The input ended first: report at the line the string began
                // on; every remaining character has been consumed.
                with_diag(
                    SpecDiagnostic { kind: DiagnosticKind::UnterminatedString, line },
                    scan_from(s, s.len() as int, line + newline_count(s, i + 1, s.len() as int)),
                )
            }
        } else if digit(c) {
            let d_end = digit_run_end(s, i);
            if d_end < s.len() && s[d_end] == '.' {
                if d_end + 1 < s.len() && digit(s[d_end + 1]) {
                    let f_end = digit_run_end(s, d_end + 1);
                    with_token(
                        single(
                            SpecTokenType::Literal(SpecLiteral::Number(s.subrange(i, f_end))),
                            s.subrange(i, f_end),
                            line,
                        ),
                        scan_from(s, f_end, line),
                    )
                } else {
                    // A decimal point with no digit after it: the digits and
                    // the point are consumed, no token comes of them.
                    with_diag(
                        SpecDiagnostic { kind: DiagnosticKind::InvalidNumberFormat, line },
                        scan_from(s, d_end + 1, line),
                    )
                }
            } else {
                with_token(
                    single(
                        SpecTokenType::Literal(SpecLiteral::Number(s.subrange(i, d_end))),
                        s.subrange(i, d_end),
                        line,
                    ),
                    scan_from(s, d_end, line),
                )
            }
        } else if alpha(c) {
            let e = ident_run_end(s, i);
            let w = s.subrange(i, e);
            let token_type = match spec_keyword(w) {
                Some(kw) => kw,
                None => SpecTokenType::Literal(SpecLiteral::Identifier(w)),
            };
            with_token(single(token_type, w, line), scan_from(s, e, line))
        } else {
            with_diag(
                SpecDiagnostic { kind: DiagnosticKind::UnexpectedCharacter(c), line },
                scan_from(s, i + 1, line),
            )
        }
    }
}

// ---------------------------------------------------------------------------
// The scanner
// ---------------------------------------------------------------------------

/// The stateful single-pass scanner.  It is built fresh, fed the whole
/// source once through [`Scanner::scan_tokens`], and read out afterwards.
pub struct Scanner {
    tokens: Vec<Token>,
    diagnostics: Vec<Diagnostic>,
    line: usize,
}

impl View for Scanner {
    type V = SpecScan;

    closed spec fn view(&self) -> SpecScan {
        SpecScan {
            tokens: self.tokens@.map_values(|t: Token| t@),
            diagnostics: self.diagnostics@.map_values(|d: Diagnostic| d@),
        }
    }
}

/// Shifts the first token of the remainder over to the emitted prefix.
proof fn lemma_step_token(
    scan0: SpecScan,
    pre: SpecScan,
    now: SpecScan,
    t: SpecToken,
    cur: SpecScan,
    next: SpecScan,
)
    requires
        scan0.tokens == pre.tokens + cur.tokens,
        scan0.diagnostics == pre.diagnostics + cur.diagnostics,
        cur == with_token(t, next),
        now.tokens == pre.tokens.push(t),
        now.diagnostics == pre.diagnostics,
    ensures
        scan0.tokens == now.tokens + next.tokens,
        scan0.diagnostics == now.diagnostics + next.diagnostics,
{
    assert(pre.tokens + (seq![t] + next.tokens) =~= pre.tokens.push(t) + next.tokens);
}

/// Shifts the first diagnostic of the remainder over to the emitted prefix.
proof fn lemma_step_diag(
    scan0: SpecScan,
    pre: SpecScan,
    now: SpecScan,
    d: SpecDiagnostic,
    cur: SpecScan,
    next: SpecScan,
)
    requires
        scan0.tokens == pre.tokens + cur.tokens,
        scan0.diagnostics == pre.diagnostics + cur.diagnostics,
        cur == with_diag(d, next),
        now.tokens == pre.tokens,
        now.diagnostics == pre.diagnostics.push(d),
    ensures
        scan0.tokens == now.tokens + next.tokens,
        scan0.diagnostics == now.diagnostics + next.diagnostics,
{
    assert(pre.diagnostics + (seq![d] + next.diagnostics) =~= pre.diagnostics.push(
        d,
    ) + next.diagnostics);
}

/// The exact substring of the source between two character positions, as an
/// owned string.
fn lexeme_of(source: &str, from: usize, to: usize) -> (r: String)
    requires
        from <= to <= source@.len(),
    ensures
        r@ == source@.subrange(from as int, to as int),
{
    source.substring_char(from, to).to_owned()
}

impl Scanner {
    /// A scanner that has not scanned anything yet: nothing emitted, line
    /// counter at its 1-based start.
    pub closed spec fn fresh(self) -> bool {
        self.tokens@.len() == 0 && self.diagnostics@.len() == 0 && self.line == 1
    }

    pub fn new() -> (s: Self)
        ensures
            s.fresh(),
    {
        Scanner { tokens: Vec::new(), diagnostics: Vec::new(), line: 1 }
    }

    /// A copy of the scanned tokens, in the order they were emitted.
    pub fn get_tokens(&self) -> (r: Vec<Token>)
        ensures
            r@.map_values(|t: Token| t@) == self@.tokens,
    {
        let r = self.tokens.clone();
        proof {
            assert forall|k: int| 0 <= k < r@.len() implies r@[k]@ == self.tokens@[k]@ by {
                assert(cloned(self.tokens@[k], r@[k]));
            }
            assert(r@.map_values(|t: Token| t@) =~= self.tokens@.map_values(|t: Token| t@));
        }
        r
    }

    /// A copy of the diagnostics reported so far, in the order encountered.
    pub fn get_diagnostics(&self) -> (r: Vec<Diagnostic>)
        ensures
            r@.map_values(|d: Diagnostic| d@) == self@.diagnostics,
    {
        let mut r: Vec<Diagnostic> = Vec::new();
        let mut k: usize = 0;
        while k < self.diagnostics.len()
            invariant
                k <= self.diagnostics.len(),
                r@ == self.diagnostics@.subrange(0, k as int),
            decreases self.diagnostics.len() - k,
        {
            r.push(self.diagnostics[k]);
            k = k + 1;
            proof {
                assert(self.diagnostics@.subrange(0, k as int) =~= self.diagnostics@.subrange(
                    0,
                    k as int - 1,
                ).push(self.diagnostics@[k as int - 1]));
            }
        }
        proof {
            assert(r@ =~= self.diagnostics@);
        }
        r
    }

    /// Emits one token at the current line.
    fn add_token(&mut self, token_type: TokenType, lexeme: String)
        ensures
            final(self)@.tokens == old(self)@.tokens.push(
                SpecToken {
                    token_type: token_type@,
                    lexeme: lexeme@,
                    line: old(self).line as nat,
                },
            ),
            final(self)@.diagnostics == old(self)@.diagnostics,
            final(self).line == old(self).line,
    {
        let line: usize = self.line;
        let t = Token::new(token_type, lexeme, line);
        let ghost tv = t@;
        self.tokens.push(t);
        proof {
            assert(self.tokens@.map_values(|t: Token| t@) =~= old(self).tokens@.map_values(
                |t: Token| t@,
            ).push(tv));
        }
    }

    /// Reports one lexical error at the current line.
    fn add_diagnostic(&mut self, kind: DiagnosticKind)
        ensures
            final(self)@.diagnostics == old(self)@.diagnostics.push(
                SpecDiagnostic { kind, line: old(self).line as nat },
            ),
            final(self)@.tokens == old(self)@.tokens,
            final(self).line == old(self).line,
    {
        let line: usize = self.line;
        let d = error(line, kind);
        let ghost dv = d@;
        self.diagnostics.push(d);
        proof {
            assert(self.diagnostics@.map_values(|d: Diagnostic| d@) =~= old(
                self,
            ).diagnostics@.map_values(|d: Diagnostic| d@).push(dv));
        }
    }

    /// Scans the whole source, once, left to right.  The tokens and
    /// diagnostics this leaves behind are exactly `scan_from(source@, 0, 1)`:
    /// every character is accounted for, every lexical error is reported and
    /// scanned past, and the output ends in the end-of-input token.
    ///
    /// The length bound keeps the 1-based line counter within `usize`.
    pub fn scan_tokens(&mut self, source: &str)
        requires
            old(self).fresh(),
            source@.len() < usize::MAX,
        ensures
            final(self)@ == scan_from(source@, 0, 1),
    {
        let ghost s = source@;
        let n: usize = source.unicode_len();
        let mut i: usize = 0;
        proof {
            assert(self@.tokens =~= Seq::<SpecToken>::empty());
            assert(self@.diagnostics =~= Seq::<SpecDiagnostic>::empty());
            assert(scan_from(s, 0, 1).tokens =~= self@.tokens + scan_from(s, 0, 1).tokens);
            assert(scan_from(s, 0, 1).diagnostics =~= self@.diagnostics + scan_from(
                s,
                0,
                1,
            ).diagnostics);
        }
        while i < n
            invariant
                source@ == s,
                n == s.len(),
                i <= n,
                n < usize::MAX,
                1 <= self.line,
                self.line as int <= 1 + i as int,
                scan_from(s, 0, 1).tokens == self@.tokens + scan_from(
                    s,
                    i as int,
                    self.line as nat,
                ).tokens,
                scan_from(s, 0, 1).diagnostics == self@.diagnostics + scan_from(
                    s,
                    i as int,
                    self.line as nat,
                ).diagnostics,
            decreases n - i,
        {
            let ghost i0 = i as int;
            let ghost line0 = self.line as nat;
            let ghost pre = self@;
            let ghost cur = scan_from(s, i0, line0);
            let ghost scan0 = scan_from(s, 0, 1);
            let c = source.get_char(i);
            if c == '(' {
                let lex = lexeme_of(source, i, i + 1);
                self.add_token(TokenType::LeftParen, lex);
                i = i + 1;
                proof {
                    lemma_step_token(
                        scan0,
                        pre,
                        self@,
                        single(SpecTokenType::LeftParen, s.subrange(i0, i0 + 1), line0),
                        cur,
                        scan_from(s, i as int, self.line as nat),
                    );
                }
            } else if c == ')' {
                let lex = lexeme_of(source, i, i + 1);
                self.add_token(TokenType::RightParen, lex);
                i = i + 1;
                proof {
                    lemma_step_token(
                        scan0,
                        pre,
                        self@,
                        single(SpecTokenType::RightParen, s.subrange(i0, i0 + 1), line0),
                        cur,
                        scan_from(s, i as int, self.line as nat),
                    );
                }
            } else if c == '{' {
                let lex = lexeme_of(source, i, i + 1);
                self.add_token(TokenType::LeftBrace, lex);
                i = i + 1;
                proof {
                    lemma_step_token(
                        scan0,
                        pre,
                        self@,
                        single(SpecTokenType::LeftBrace, s.subrange(i0, i0 + 1), line0),
                        cur,
                        scan_from(s, i as int, self.line as nat),
                    );
                }
            } else if c == '}' {
                let lex = lexeme_of(source, i, i + 1);
                self.add_token(TokenType::RightBrace, lex);
                i = i + 1;
                proof {
                    lemma_step_token(
                        scan0,
                        pre,
                        self@,
                        single(SpecTokenType::RightBrace, s.subrange(i0, i0 + 1), line0),
                        cur,
                        scan_from(s, i as int, self.line as nat),
                    );
                }
            } else if c == ',' {
                let lex = lexeme_of(source, i, i + 1);
                self.add_token(TokenType::Comma, lex);
                i = i + 1;
                proof {
                    lemma_step_token(
                        scan0,
                        pre,
                        self@,
                        single(SpecTokenType::Comma, s.subrange(i0, i0 + 1), line0),
                        cur,
                        scan_from(s, i as int, self.line as nat),
                    );
                }
            } else if c == '.' {
                let lex = lexeme_of(source, i, i + 1);
                self.add_token(TokenType::Dot, lex);
                i = i + 1;
                proof {
                    lemma_step_token(
                        scan0,
                        pre,
                        self@,
                        single(SpecTokenType::Dot, s.subrange(i0, i0 + 1), line0),
                        cur,
                        scan_from(s, i as int, self.line as nat),
                    );
                }
            } else if c == '-' {
                let lex = lexeme_of(source, i, i + 1);
                self.add_token(TokenType::Minus, lex);
                i = i + 1;
                proof {
                    lemma_step_token(
                        scan0,
                        pre,
                        self@,
                        single(SpecTokenType::Minus, s.subrange(i0, i0 + 1), line0),
                        cur,
                        scan_from(s, i as int, self.line as nat),
                    );
                }
            } else if c == '+' {
                let lex = lexeme_of(source, i, i + 1);
                self.add_token(TokenType::Plus, lex);
                i = i + 1;
                proof {
                    lemma_step_token(
                        scan0,
                        pre,
                        self@,
                        single(SpecTokenType::Plus, s.subrange(i0, i0 + 1), line0),
                        cur,
                        scan_from(s, i as int, self.line as nat),
                    );
                }
            } else if c == ';' {
                let lex = lexeme_of(source, i, i + 1);
                self.add_token(TokenType::Semicolon, lex);
                i = i + 1;
                proof {
                    lemma_step_token(
                        scan0,
                        pre,
                        self@,
                        single(SpecTokenType::Semicolon, s.subrange(i0, i0 + 1), line0),
                        cur,
                        scan_from(s, i as int, self.line as nat),
                    );
                }
            } else if c == '*' {
                let lex = lexeme_of(source, i, i + 1);
                self.add_token(TokenType::Star, lex);
                i = i + 1;
                proof {
                    lemma_step_token(
                        scan0,
                        pre,
                        self@,
                        single(SpecTokenType::Star, s.subrange(i0, i0 + 1), line0),
                        cur,
                        scan_from(s, i as int, self.line as nat),
                    );
                }
            } else if c == '!' {
                if i + 1 < n && source.get_char(i + 1) == '=' {
                    let lex = lexeme_of(source, i, i + 2);
                    self.add_token(TokenType::BangEqual, lex);
                    i = i + 2;
                    proof {
                        lemma_step_token(
                            scan0,
                            pre,
                            self@,
                            single(SpecTokenType::BangEqual, s.subrange(i0, i0 + 2), line0),
                            cur,
                            scan_from(s, i as int, self.line as nat),
                        );
                    }
                } else {
                    let lex = lexeme_of(source, i, i + 1);
                    self.add_token(TokenType::Bang, lex);
                    i = i + 1;
                    proof {
                        lemma_step_token(
                            scan0,
                            pre,
                            self@,
                            single(SpecTokenType::Bang, s.subrange(i0, i0 + 1), line0),
                            cur,
                            scan_from(s, i as int, self.line as nat),
                        );
                    }
                }
            } else if c == '=' {
                if i + 1 < n && source.get_char(i + 1) == '=' {
                    let lex = lexeme_of(source, i, i + 2);
                    self.add_token(TokenType::EqualEqual, lex);
                    i = i + 2;
                    proof {
                        lemma_step_token(
                            scan0,
                            pre,
                            self@,
                            single(SpecTokenType::EqualEqual, s.subrange(i0, i0 + 2), line0),
                            cur,
                            scan_from(s, i as int, self.line as nat),
                        );
                    }
                } else {
                    let lex = lexeme_of(source, i, i + 1);
                    self.add_token(TokenType::Equal, lex);
                    i = i + 1;
                    proof {
                        lemma_step_token(
                            scan0,
                            pre,
                            self@,
                            single(SpecTokenType::Equal, s.subrange(i0, i0 + 1), line0),
                            cur,
                            scan_from(s, i as int, self.line as nat),
                        );
                    }
                }
            } else if c == '<' {
                if i + 1 < n && source.get_char(i + 1) == '=' {
                    let lex = lexeme_of(source, i, i + 2);
                    self.add_token(TokenType::LessEqual, lex);
                    i = i + 2;
                    proof {
                        lemma_step_token(
                            scan0,
                            pre,
                            self@,
                            single(SpecTokenType::LessEqual, s.subrange(i0, i0 + 2), line0),
                            cur,
                            scan_from(s, i as int, self.line as nat),
                        );
                    }
                } else {
                    let lex = lexeme_of(source, i, i + 1);
                    self.add_token(TokenType::Less, lex);
                    i = i + 1;
                    proof {
                        lemma_step_token(
                            scan0,
                            pre,
                            self@,
                            single(SpecTokenType::Less, s.subrange(i0, i0 + 1), line0),
                            cur,
                            scan_from(s, i as int, self.line as nat),
                        );
                    }
                }
            } else if c == '>' {
                if i + 1 < n && source.get_char(i + 1) == '=' {
                    let lex = lexeme_of(source, i, i + 2);
                    self.add_token(TokenType::GreaterEqual, lex);
                    i = i + 2;
                    proof {
                        lemma_step_token(
                            scan0,
                            pre,
                            self@,
                            single(SpecTokenType::GreaterEqual, s.subrange(i0, i0 + 2), line0),
                            cur,
                            scan_from(s, i as int, self.line as nat),
                        );
                    }
                } else {
                    let lex = lexeme_of(source, i, i + 1);
                    self.add_token(TokenType::Greater, lex);
                    i = i + 1;
                    proof {
                        lemma_step_token(
                            scan0,
                            pre,
                            self@,
                            single(SpecTokenType::Greater, s.subrange(i0, i0 + 1), line0),
                            cur,
                            scan_from(s, i as int, self.line as nat),
                        );
                    }
                }
            } else if c == '/' {
                if i + 1 < n && source.get_char(i + 1) == '/' {
                    // A comment: skip to the next newline without consuming
                    // it; it produces no token.
                    let mut j: usize = i + 2;
                    proof {
                        lemma_find_char(s, i0 + 2, '\n');
                    }
                    while j < n && source.get_char(j) != '\n'
                        invariant
                            source@ == s,
                            n == s.len(),
                            i0 + 2 <= j as int <= n as int,
                            find_char(s, i0 + 2, '\n') == find_char(s, j as int, '\n'),
                        decreases n - j,
                    {
                        j = j + 1;
                    }
                    proof {
                        assert(find_char(s, j as int, '\n') == j as int);
                    }
                    i = j;
                    proof {
                        assert(cur == scan_from(s, i as int, self.line as nat));
                    }
                } else {
                    let lex = lexeme_of(source, i, i + 1);
                    self.add_token(TokenType::Slash, lex);
                    i = i + 1;
                    proof {
                        lemma_step_token(
                            scan0,
                            pre,
                            self@,
                            single(SpecTokenType::Slash, s.subrange(i0, i0 + 1), line0),
                            cur,
                            scan_from(s, i as int, self.line as nat),
                        );
                    }
                }
            } else if c == ' ' || c == '\r' || c == '\t' {
                i = i + 1;
                proof {
                    assert(cur == scan_from(s, i as int, self.line as nat));
                }
            } else if c == '\n' {
                self.line = self.line + 1;
                i = i + 1;
                proof {
                    assert(cur == scan_from(s, i as int, self.line as nat));
                }
            } else if c == '"' {
                proof {
                    lemma_find_char(s, i0 + 1, '"');
                }
                let ghost close = find_char(s, i0 + 1, '"');
                let mut j: usize = i + 1;
                let mut newlines: usize = 0;
                while j < n && source.get_char(j) != '"'
                    invariant
                        source@ == s,
                        n == s.len(),
                        0 <= i0,
                        i0 + 1 <= j as int <= n as int,
                        close == find_char(s, j as int, '"'),
                        newlines == newline_count(s, i0 + 1, j as int),
                        newlines as int <= j as int - (i0 + 1),
                    decreases n - j,
                {
                    proof {
                        lemma_newline_count_extend(s, i0 + 1, j as int);
                    }
                    if source.get_char(j) == '\n' {
                        newlines = newlines + 1;
                    }
                    j = j + 1;
                }
                proof {
                    assert(find_char(s, j as int, '"') == j as int);
                }
                if j < n {
                    // The closing quote stands at `j`; the literal text is
                    // everything between the quotes, newlines included.
                    let text = lexeme_of(source, i + 1, j);
                    let lex = lexeme_of(source, i, j + 1);
                    self.add_token(TokenType::Literal(LiteralType::String(text)), lex);
                    self.line = self.line + newlines;
                    i = j + 1;
                    proof {
                        lemma_step_token(
                            scan0,
                            pre,
                            self@,
                            single(
                                SpecTokenType::Literal(
                                    SpecLiteral::String(s.subrange(i0 + 1, close)),
                                ),
                                s.subrange(i0, close + 1),
                                line0,
                            ),
                            cur,
                            scan_from(s, i as int, self.line as nat),
                        );
                    }
                } else {
                    // No closing quote before the input ended: report at the
                    // line the string began on.
                    self.add_diagnostic(DiagnosticKind::UnterminatedString);
                    self.line = self.line + newlines;
                    i = n;
                    proof {
                        lemma_step_diag(
                            scan0,
                            pre,
                            self@,
                            SpecDiagnostic { kind: DiagnosticKind::UnterminatedString, line: line0 },
                            cur,
                            scan_from(s, i as int, self.line as nat),
                        );
                    }
                }
            } else if is_digit(c) {
                proof {
                    lemma_digit_run_end(s, i0);
                    assert(digit_run_end(s, i0) == digit_run_end(s, i0 + 1));
                }
                let mut j: usize = i + 1;
                while j < n && is_digit(source.get_char(j))
                    invariant
                        source@ == s,
                        n == s.len(),
                        i0 + 1 <= j as int <= n as int,
                        digit_run_end(s, i0) == digit_run_end(s, j as int),
                    decreases n - j,
                {
                    j = j + 1;
                }
                proof {
                    assert(digit_run_end(s, j as int) == j as int);
                }
                if j < n && source.get_char(j) == '.' {
                    if j + 1 < n && is_digit(source.get_char(j + 1)) {
                        proof {
                            lemma_digit_run_end(s, j as int + 1);
                            assert(digit_run_end(s, j as int + 1) == digit_run_end(
                                s,
                                j as int + 2,
                            ));
                        }
                        let mut k: usize = j + 2;
                        while k < n && is_digit(source.get_char(k))
                            invariant
                                source@ == s,
                                n == s.len(),
                                j as int + 2 <= k as int <= n as int,
                                digit_run_end(s, j as int + 1) == digit_run_end(s, k as int),
                            decreases n - k,
                        {
                            k = k + 1;
                        }
                        proof {
                            assert(digit_run_end(s, k as int) == k as int);
                        }
                        let lex = lexeme_of(source, i, k);
                        let number_literal = lex.clone();
                        self.add_token(
                            TokenType::Literal(LiteralType::Number(number_literal)),
                            lex,
                        );
                        i = k;
                        proof {
                            lemma_step_token(
                                scan0,
                                pre,
                                self@,
                                single(
                                    SpecTokenType::Literal(
                                        SpecLiteral::Number(s.subrange(i0, i as int)),
                                    ),
                                    s.subrange(i0, i as int),
                                    line0,
                                ),
                                cur,
                                scan_from(s, i as int, self.line as nat),
                            );
                        }
                    } else {
                        // A decimal point with no digit after it: the digits
                        // and the point are consumed, no token comes of them.
                        self.add_diagnostic(DiagnosticKind::InvalidNumberFormat);
                        i = j + 1;
                        proof {
                            lemma_step_diag(
                                scan0,
                                pre,
                                self@,
                                SpecDiagnostic {
                                    kind: DiagnosticKind::InvalidNumberFormat,
                                    line: line0,
                                },
                                cur,
                                scan_from(s, i as int, self.line as nat),
                            );
                        }
                    }
                } else {
                    let lex = lexeme_of(source, i, j);
                    let number_literal = lex.clone();
                    self.add_token(TokenType::Literal(LiteralType::Number(number_literal)), lex);
                    i = j;
                    proof {
                        lemma_step_token(
                            scan0,
                            pre,
                            self@,
                            single(
                                SpecTokenType::Literal(
                                    SpecLiteral::Number(s.subrange(i0, i as int)),
                                ),
                                s.subrange(i0, i as int),
                                line0,
                            ),
                            cur,
                            scan_from(s, i as int, self.line as nat),
                        );
                    }
                }
            } else if is_alpha(c) {
                proof {
                    lemma_ident_run_end(s, i0);
                    assert(ident_run_end(s, i0) == ident_run_end(s, i0 + 1));
                }
                let mut j: usize = i + 1;
                while j < n && is_alnum(source.get_char(j))
                    invariant
                        source@ == s,
                        n == s.len(),
                        i0 + 1 <= j as int <= n as int,
                        ident_run_end(s, i0) == ident_run_end(s, j as int),
                    decreases n - j,
                {
                    j = j + 1;
                }
                proof {
                    assert(ident_run_end(s, j as int) == j as int);
                }
                let word = lexeme_of(source, i, j);
                match reserved_to_tokentype(&word) {
                    Some(keyword) => {
                        let ghost kv = keyword@;
                        self.add_token(keyword, word);
                        i = j;
                        proof {
                            lemma_step_token(
                                scan0,
                                pre,
                                self@,
                                single(kv, s.subrange(i0, i as int), line0),
                                cur,
                                scan_from(s, i as int, self.line as nat),
                            );
                        }
                    },
                    None => {
                        let id = word.clone();
                        self.add_token(TokenType::Literal(LiteralType::Identifier(id)), word);
                        i = j;
                        proof {
                            lemma_step_token(
                                scan0,
                                pre,
                                self@,
                                single(
                                    SpecTokenType::Literal(
                                        SpecLiteral::Identifier(s.subrange(i0, i as int)),
                                    ),
                                    s.subrange(i0, i as int),
                                    line0,
                                ),
                                cur,
                                scan_from(s, i as int, self.line as nat),
                            );
                        }
                    },
                }
            } else {
                // No rule matches this character: report it and scan on with
                // the next one.
                self.add_diagnostic(DiagnosticKind::UnexpectedCharacter(c));
                i = i + 1;
                proof {
                    lemma_step_diag(
                        scan0,
                        pre,
                        self@,
                        SpecDiagnostic { kind: DiagnosticKind::UnexpectedCharacter(c), line: line0 },
                        cur,
                        scan_from(s, i as int, self.line as nat),
                    );
                }
            }
        }
        let ghost pre_end = self@;
        let ghost line_end = self.line as nat;
        let eof_lexeme = String::new();
        self.add_token(TokenType::EOF, eof_lexeme);
        proof {
            let t = single(SpecTokenType::EOF, Seq::empty(), line_end);
            assert(pre_end.tokens + seq![t] =~= pre_end.tokens.push(t));
            assert(pre_end.diagnostics + Seq::<SpecDiagnostic>::empty() =~= pre_end.diagnostics);
            assert(self@ =~= scan_from(s, 0, 1));
        }
    }
}

#[via_fn]
proof fn scan_from_decreases(s: Seq<char>, i: int, line: nat) {
    if 0 <= i < s.len() {
        lemma_find_char(s, i + 1, '"');
        if i + 2 <= s.len() {
            lemma_find_char(s, i + 2, '\n');
        }
        lemma_digit_run_end(s, i);
        lemma_digit_run_end(s, i + 1);
        lemma_ident_run_end(s, i + 1);
        let d_end = digit_run_end(s, i);
        if d_end + 1 <= s.len() {
            lemma_digit_run_end(s, d_end + 1);
        }
        lemma_ident_run_end(s, i);
    }
}

// ---------------------------------------------------------------------------
// Laws of the scan
// ---------------------------------------------------------------------------

/// The token sequence is non-empty, its last element is an end-of-input
/// token, and no other element is one.
pub open spec fn ends_in_eof(ts: Seq<SpecToken>) -> bool {
    &&& ts.len() >= 1
    &&& ts.last().token_type == SpecTokenType::EOF
    &&& forall|j: int| 0 <= j < ts.len() - 1 ==> ts[j].token_type != SpecTokenType::EOF
}

/// Every token's line is at least `line`, and the lines are non-decreasing
/// along the sequence.
pub open spec fn lines_from(ts: Seq<SpecToken>, line: nat) -> bool {
    &&& forall|j: int| 0 <= j < ts.len() ==> line <= ts[j].line
    &&& forall|j: int, k: int| 0 <= j <= k < ts.len() ==> ts[j].line <= ts[k].line
}

/// `w` stands somewhere in `s` as a contiguous substring.
pub open spec fn lexeme_in(w: Seq<char>, s: Seq<char>) -> bool {
    exists|a: int|
        0 <= a && a + w.len() <= s.len() && w == #[trigger] s.subrange(a, a + w.len())
}

/// The round-trip a literal token owes to its source: an identifier's or
/// number's payload is its lexeme itself, a string's lexeme is its payload
/// between the two quotes, and the lexeme stands in the source verbatim.
pub open spec fn token_from_source(t: SpecToken, s: Seq<char>) -> bool {
    match t.token_type {
        SpecTokenType::Literal(SpecLiteral::Identifier(x)) => x == t.lexeme && lexeme_in(
            t.lexeme,
            s,
        ),
        SpecTokenType::Literal(SpecLiteral::Number(x)) => x == t.lexeme && lexeme_in(t.lexeme, s),
        SpecTokenType::Literal(SpecLiteral::String(x)) => t.lexeme == seq!['"'] + x + seq!['"']
            && lexeme_in(t.lexeme, s),
        _ => true,
    }
}

/// Every token of the sequence satisfies [`token_from_source`].
pub open spec fn all_from_source(ts: Seq<SpecToken>, s: Seq<char>) -> bool {
    forall|j: int| 0 <= j < ts.len() ==> token_from_source(#[trigger] ts[j], s)
}

proof fn lemma_with_token_eof(t: SpecToken, rest: SpecScan)
    requires
        ends_in_eof(rest.tokens),
        t.token_type != SpecTokenType::EOF,
    ensures
        ends_in_eof(with_token(t, rest).tokens),
{
    let out = with_token(t, rest).tokens;
    assert(out.last() == rest.tokens.last());
    assert forall|j: int| 0 <= j < out.len() - 1 implies out[j].token_type != SpecTokenType::EOF by {
        if j > 0 {
            assert(out[j] == rest.tokens[j - 1]);
        }
    }
}

proof fn lemma_with_token_lines(t: SpecToken, rest: SpecScan, line: nat, next: nat)
    requires
        lines_from(rest.tokens, next),
        t.line == line,
        line <= next,
    ensures
        lines_from(with_token(t, rest).tokens, line),
{
    let out = with_token(t, rest).tokens;
    assert forall|j: int| 0 <= j < out.len() implies line <= out[j].line by {
        if j > 0 {
            assert(out[j] == rest.tokens[j - 1]);
        }
    }
    assert forall|j: int, k: int| 0 <= j <= k < out.len() implies out[j].line <= out[k].line by {
        if j > 0 {
            assert(out[j] == rest.tokens[j - 1]);
        }
        if k > 0 {
            assert(out[k] == rest.tokens[k - 1]);
        }
    }
}

proof fn lemma_lines_weaken(ts: Seq<SpecToken>, lower: nat, higher: nat)
    requires
        lines_from(ts, higher),
        lower <= higher,
    ensures
        lines_from(ts, lower),
{
}

proof fn lemma_with_token_source(t: SpecToken, rest: SpecScan, s: Seq<char>)
    requires
        token_from_source(t, s),
        all_from_source(rest.tokens, s),
    ensures
        all_from_source(with_token(t, rest).tokens, s),
{
    let out = with_token(t, rest).tokens;
    assert forall|j: int| 0 <= j < out.len() implies token_from_source(#[trigger] out[j], s) by {
        if j > 0 {
            assert(out[j] == rest.tokens[j - 1]);
        }
    }
}

proof fn lemma_scan_from_laws(s: Seq<char>, i: int, line: nat)
    requires
        0 <= i <= s.len(),
    ensures
        ends_in_eof(scan_from(s, i, line).tokens),
        lines_from(scan_from(s, i, line).tokens, line),
        all_from_source(scan_from(s, i, line).tokens, s),
    decreases s.len() - i,
{
    if i >= s.len() {
    } else {
        let c = s[i];
        if c == '(' || c == ')' || c == '{' || c == '}' || c == ',' || c == '.' || c == '-' || c
            == '+' || c == ';' || c == '*' {
            lemma_scan_from_laws(s, i + 1, line);
            let rest = scan_from(s, i + 1, line);
            let t = scan_from(s, i, line).tokens[0];
            lemma_with_token_eof(t, rest);
            lemma_with_token_lines(t, rest, line, line);
            assert(lexeme_in(t.lexeme, s)) by {
                assert(t.lexeme == s.subrange(i, i + t.lexeme.len()));
            }
            lemma_with_token_source(t, rest, s);
        } else if c == '!' || c == '=' || c == '<' || c == '>' {
            if i + 1 < s.len() && s[i + 1] == '=' {
                lemma_scan_from_laws(s, i + 2, line);
                let rest = scan_from(s, i + 2, line);
                let t = scan_from(s, i, line).tokens[0];
                lemma_with_token_eof(t, rest);
                lemma_with_token_lines(t, rest, line, line);
                lemma_with_token_source(t, rest, s);
            } else {
                lemma_scan_from_laws(s, i + 1, line);
                let rest = scan_from(s, i + 1, line);
                let t = scan_from(s, i, line).tokens[0];
                lemma_with_token_eof(t, rest);
                lemma_with_token_lines(t, rest, line, line);
                lemma_with_token_source(t, rest, s);
            }
        } else if c == '/' {
            if i + 1 < s.len() && s[i + 1] == '/' {
                lemma_find_char(s, i + 2, '\n');
                lemma_scan_from_laws(s, find_char(s, i + 2, '\n'), line);
            } else {
                lemma_scan_from_laws(s, i + 1, line);
                let rest = scan_from(s, i + 1, line);
                let t = scan_from(s, i, line).tokens[0];
                lemma_with_token_eof(t, rest);
                lemma_with_token_lines(t, rest, line, line);
                lemma_with_token_source(t, rest, s);
            }
        } else if c == ' ' || c == '\r' || c == '\t' {
            lemma_scan_from_laws(s, i + 1, line);
        } else if c == '\n' {
            lemma_scan_from_laws(s, i + 1, line + 1);
            lemma_lines_weaken(scan_from(s, i + 1, line + 1).tokens, line, line + 1);
        } else if c == '"' {
            lemma_find_char(s, i + 1, '"');
            let close = find_char(s, i + 1, '"');
            if close < s.len() {
                let next = line + newline_count(s, i + 1, close);
                lemma_scan_from_laws(s, close + 1, next);
                let rest = scan_from(s, close + 1, next);
                let t = scan_from(s, i, line).tokens[0];
                lemma_with_token_eof(t, rest);
                lemma_with_token_lines(t, rest, line, next);
                assert(t.lexeme == s.subrange(i, i + t.lexeme.len()));
                assert(t.lexeme =~= seq!['"'] + s.subrange(i + 1, close) + seq!['"']);
                lemma_with_token_source(t, rest, s);
            } else {
                let next = line + newline_count(s, i + 1, s.len() as int);
                lemma_scan_from_laws(s, s.len() as int, next);
                lemma_lines_weaken(
                    scan_from(s, s.len() as int, next).tokens,
                    line,
                    next,
                );
            }
        } else if digit(c) {
            lemma_digit_run_end(s, i);
            let d_end = digit_run_end(s, i);
            if d_end < s.len() && s[d_end] == '.' {
                if d_end + 1 < s.len() && digit(s[d_end + 1]) {
                    lemma_digit_run_end(s, d_end + 1);
                    let f_end = digit_run_end(s, d_end + 1);
                    lemma_scan_from_laws(s, f_end, line);
                    let rest = scan_from(s, f_end, line);
                    let t = scan_from(s, i, line).tokens[0];
                    lemma_with_token_eof(t, rest);
                    lemma_with_token_lines(t, rest, line, line);
                    assert(lexeme_in(t.lexeme, s)) by {
                        assert(t.lexeme == s.subrange(i, i + t.lexeme.len()));
                    }
                    lemma_with_token_source(t, rest, s);
                } else {
                    lemma_scan_from_laws(s, d_end + 1, line);
                }
            } else {
                lemma_scan_from_laws(s, d_end, line);
                let rest = scan_from(s, d_end, line);
                let t = scan_from(s, i, line).tokens[0];
                lemma_with_token_eof(t, rest);
                lemma_with_token_lines(t, rest, line, line);
                assert(lexeme_in(t.lexeme, s)) by {
                    assert(t.lexeme == s.subrange(i, i + t.lexeme.len()));
                }
                lemma_with_token_source(t, rest, s);
            }
        } else if alpha(c) {
            lemma_ident_run_end(s, i);
            let e = ident_run_end(s, i);
            lemma_scan_from_laws(s, e, line);
            let rest = scan_from(s, e, line);
            let t = scan_from(s, i, line).tokens[0];
            lemma_with_token_eof(t, rest);
            lemma_with_token_lines(t, rest, line, line);
            assert(lexeme_in(t.lexeme, s)) by {
                assert(t.lexeme == s.subrange(i, i + t.lexeme.len()));
            }
            lemma_with_token_source(t, rest, s);
        } else {
            lemma_scan_from_laws(s, i + 1, line);
        }
    }
}

/// Law: for every source, the scanned token sequence is non-empty, its last
/// token is the end-of-input token, and no earlier token is one.
pub proof fn lemma_scan_ends_in_eof(s: Seq<char>)
    ensures
        ends_in_eof(scan_from(s, 0, 1).tokens),
{
    lemma_scan_from_laws(s, 0, 1);
}

/// Law: for every source, the `line` values across the scanned token
/// sequence are non-decreasing.
pub proof fn lemma_token_lines_nondecreasing(s: Seq<char>)
    ensures
        forall|j: int, k: int|
            0 <= j <= k < scan_from(s, 0, 1).tokens.len() ==> scan_from(s, 0, 1).tokens[j].line
                <= scan_from(s, 0, 1).tokens[k].line,
{
    lemma_scan_from_laws(s, 0, 1);
}

/// Law: every identifier, string and number token of a scan round-trips
/// with the source: its payload and lexeme are the exact substring of the
/// input that produced it.
pub proof fn lemma_literal_round_trip(s: Seq<char>)
    ensures
        all_from_source(scan_from(s, 0, 1).tokens, s),
{
    lemma_scan_from_laws(s, 0, 1);
}

/// Law: scanning is deterministic.  Two scans of the same source meet the
/// same description `scan_from(s, 0, 1)`, so they emit identical token
/// sequences and identical diagnostics.
pub proof fn lemma_scan_deterministic(s: Seq<char>, first: SpecScan, second: SpecScan)
    requires
        first == scan_from(s, 0, 1),
        second == scan_from(s, 0, 1),
    ensures
        first == second,
{
}

} // verus!
