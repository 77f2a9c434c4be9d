//! Lexer: bytes in, tokens out.
//!
//! The cursor walks the UTF-8 bytes of the source. Whitespace is
//! skipped and `#` starts a line comment; every token records the line,
//! column and byte offset of its first character. An unrecognized byte
//! is a typed lexical error for the current statement.

use vstd::prelude::*;

verus! {

/// The kind of a token.
#[derive(Clone, Copy, Debug, PartialEq, Eq, Structural)]
pub enum TokenKind {
    LeftParen,
    RightParen,
    Subtract,
    Add,
    AddSubtract,
    Divide,
    Multiply,
    Power,
    Assign,
    Comma,
    Semicolon,
    Command,
    Identifier,
    Number,
    EOF,
}

/// The human-readable part of a source position (1-based).
#[derive(Clone, Copy, Debug, PartialEq, Eq, Structural)]
pub struct HumanPosition {
    pub line: usize,
    pub column: usize,
}

/// A source position: human line and column plus the byte offset.
#[derive(Clone, Copy, Debug, PartialEq, Eq, Structural)]
pub struct Position {
    pub human: HumanPosition,
    pub machine: usize,
}

/// A token with its text and the position of its first character.
#[derive(Clone, Debug)]
pub struct Token {
    pub kind: TokenKind,
    pub value: String,
    pub position: Position,
}

/// The model of a token.
pub struct TokenV {
    pub kind: TokenKind,
    pub value: Seq<char>,
    pub line: int,
    pub col: int,
    pub machine: int,
}

impl Token {
    /// The model of this token.
    pub open spec fn model(self) -> TokenV {
        TokenV {
            kind: self.kind,
            value: self.value@,
            line: self.position.human.line as int,
            col: self.position.human.column as int,
            machine: self.position.machine as int,
        }
    }

    /// Builds a token from its parts.
    pub fn new(kind: TokenKind, value: &str, position: Position) -> (t: Token)
        ensures
            t.kind == kind,
            t.value@ == value@,
            t.position == position,
    {
        Token { kind, value: value.to_owned(), position }
    }
}

/// An unrecognized character, with its position.
#[derive(Clone, Copy, Debug, PartialEq, Eq, Structural)]
pub struct LexError {
    pub ch: char,
    pub line: usize,
    pub column: usize,
}

/// The model of a lexical error.
pub struct LexErrV {
    pub ch: char,
    pub line: int,
    pub col: int,
}

impl LexError {
    /// The model of this error.
    pub open spec fn model(self) -> LexErrV {
        LexErrV { ch: self.ch, line: self.line as int, col: self.column as int }
    }
}

/// The cursor state of the lexer: the input bytes, the next unread
/// offset, and the 1-based human position of that offset.
pub struct LexState {
    pub bytes: Seq<u8>,
    pub i: int,
    pub line: int,
    pub col: int,
}

/// The UTF-8 bytes of a character sequence.
pub open spec fn spec_str_bytes(s: Seq<char>) -> Seq<u8> {
    vstd::utf8::encode_utf8(s)
}

pub open spec fn spec_is_ws(b: u8) -> bool {
    b == 32 || b == 9 || b == 10 || b == 13
}

pub open spec fn spec_is_digit(b: u8) -> bool {
    48 <= b <= 57
}

pub open spec fn spec_is_alpha(b: u8) -> bool {
    (65 <= b <= 90) || (97 <= b <= 122)
}

/// A counter bumped by one, saturating at the machine limit.
pub open spec fn spec_inc(c: int) -> int {
    if c < usize::MAX {
        c + 1
    } else {
        c
    }
}

/// One byte consumed: offset forward, human position updated.
pub open spec fn spec_advance(st: LexState) -> LexState {
    if st.i < st.bytes.len() {
        if st.bytes[st.i] == 10 {
            LexState { bytes: st.bytes, i: st.i + 1, line: spec_inc(st.line), col: 1 }
        } else {
            LexState { bytes: st.bytes, i: st.i + 1, line: st.line, col: spec_inc(st.col) }
        }
    } else {
        st
    }
}

/// Skips whitespace and `#` line comments. While `in_comment`, every
/// byte up to (but not including) the newline is consumed.
pub open spec fn spec_skip(st: LexState, in_comment: bool) -> LexState
    decreases st.bytes.len() - st.i, (if in_comment { 1int } else { 0int }),
{
    if st.i < 0 || st.i >= st.bytes.len() {
        st
    } else if in_comment {
        if st.bytes[st.i] == 10 {
            spec_skip(st, false)
        } else {
            spec_skip(spec_advance(st), true)
        }
    } else if st.bytes[st.i] == 35 {
        spec_skip(spec_advance(st), true)
    } else if spec_is_ws(st.bytes[st.i]) {
        spec_skip(spec_advance(st), false)
    } else {
        st
    }
}

/// Consumes a run of decimal digits.
pub open spec fn spec_run_digits(st: LexState) -> LexState
    decreases st.bytes.len() - st.i,
{
    if 0 <= st.i < st.bytes.len() && spec_is_digit(st.bytes[st.i]) {
        spec_run_digits(spec_advance(st))
    } else {
        st
    }
}

/// Consumes a run of ASCII letters.
pub open spec fn spec_run_alpha(st: LexState) -> LexState
    decreases st.bytes.len() - st.i,
{
    if 0 <= st.i < st.bytes.len() && spec_is_alpha(st.bytes[st.i]) {
        spec_run_alpha(spec_advance(st))
    } else {
        st
    }
}

/// The characters of a byte range, one character per byte.
pub open spec fn chars_of(b: Seq<u8>, i: int, j: int) -> Seq<char>
    decreases j - i,
{
    if i < 0 || i >= j || j > b.len() {
        Seq::empty()
    } else {
        seq![b[i] as char] + chars_of(b, i + 1, j)
    }
}

/// A token model at the current position.
pub open spec fn spec_tok(kind: TokenKind, value: Seq<char>, st: LexState) -> TokenV {
    TokenV { kind, value, line: st.line, col: st.col, machine: st.i }
}

/// The next token of the input, and the state after it; or the
/// unrecognized character. The scanner skips blanks and comments, then
/// dispatches on the first byte: a digit run (with an optional fraction)
/// is a number, a letter run an identifier, and the operator characters
/// map to their kinds, with `+-` fused when `-` directly follows `+`.
pub open spec fn spec_next_token(st0: LexState) -> Result<(TokenV, LexState), LexErrV> {
    let s = spec_skip(st0, false);
    if s.i >= s.bytes.len() {
        Ok((spec_tok(TokenKind::EOF, "EOF"@, s), s))
    } else {
        let b = s.bytes[s.i];
        if spec_is_digit(b) {
            let sd = spec_run_digits(s);
            let se = if sd.i < sd.bytes.len() && sd.bytes[sd.i] == 46 {
                spec_run_digits(spec_advance(sd))
            } else {
                sd
            };
            Ok((spec_tok(TokenKind::Number, chars_of(s.bytes, s.i, se.i), s), se))
        } else if spec_is_alpha(b) {
            let sa = spec_run_alpha(s);
            Ok((spec_tok(TokenKind::Identifier, chars_of(s.bytes, s.i, sa.i), s), sa))
        } else if b == 64 {
            Ok((spec_tok(TokenKind::Command, "@"@, s), spec_advance(s)))
        } else if b == 61 {
            Ok((spec_tok(TokenKind::Assign, "="@, s), spec_advance(s)))
        } else if b == 59 {
            Ok((spec_tok(TokenKind::Semicolon, ";"@, s), spec_advance(s)))
        } else if b == 44 {
            Ok((spec_tok(TokenKind::Comma, ","@, s), spec_advance(s)))
        } else if b == 43 {
            if s.i + 1 < s.bytes.len() && s.bytes[s.i + 1] == 45 {
                Ok((spec_tok(TokenKind::AddSubtract, "+-"@, s), spec_advance(spec_advance(s))))
            } else {
                Ok((spec_tok(TokenKind::Add, "+"@, s), spec_advance(s)))
            }
        } else if b == 45 {
            Ok((spec_tok(TokenKind::Subtract, "-"@, s), spec_advance(s)))
        } else if b == 42 {
            Ok((spec_tok(TokenKind::Multiply, "*"@, s), spec_advance(s)))
        } else if b == 94 {
            Ok((spec_tok(TokenKind::Power, "^"@, s), spec_advance(s)))
        } else if b == 47 {
            Ok((spec_tok(TokenKind::Divide, "/"@, s), spec_advance(s)))
        } else if b == 40 {
            Ok((spec_tok(TokenKind::LeftParen, "("@, s), spec_advance(s)))
        } else if b == 41 {
            Ok((spec_tok(TokenKind::RightParen, ")"@, s), spec_advance(s)))
        } else {
            Err(LexErrV { ch: b as char, line: s.line, col: s.col })
        }
    }
}

/// The incremental lexer.
pub struct Lexer {
    bytes: Vec<u8>,
    i: usize,
    line: usize,
    col: usize,
}

impl Lexer {
    /// The model of the cursor state.
    pub closed spec fn model(self) -> LexState {
        LexState {
            bytes: self.bytes@,
            i: self.i as int,
            line: self.line as int,
            col: self.col as int,
        }
    }

    /// The cursor is inside the input and the human position is sane.
    pub closed spec fn wf(self) -> bool {
        self.i <= self.bytes@.len() && 1 <= self.line && 1 <= self.col
    }

    /// A fresh lexer over the UTF-8 bytes of the input, at line 1,
    /// column 1.
    pub fn new(input: String) -> (l: Lexer)
        ensures
            l.wf(),
            l.model() == (LexState {
                bytes: spec_str_bytes(input@),
                i: 0int,
                line: 1int,
                col: 1int,
            }),
    {
        let bytes = input.as_str().as_bytes_vec();
        Lexer { bytes, i: 0, line: 1, col: 1 }
    }

    /// Consumes one byte.
    fn advance(&mut self)
        requires
            old(self).wf(),
        ensures
            final(self).wf(),
            final(self).model() == spec_advance(old(self).model()),
    {
        if self.i < self.bytes.len() {
            if self.bytes[self.i] == 10 {
                self.line = if self.line < usize::MAX {
                    self.line + 1
                } else {
                    self.line
                };
                self.col = 1;
            } else {
                self.col = if self.col < usize::MAX {
                    self.col + 1
                } else {
                    self.col
                };
            }
            self.i = self.i + 1;
        }
    }

    /// Skips whitespace and comments.
    fn skip(&mut self, in_comment: bool)
        requires
            old(self).wf(),
        ensures
            final(self).wf(),
            final(self).model() == spec_skip(old(self).model(), in_comment),
        decreases old(self).bytes@.len() - old(self).i, (if in_comment { 1int } else { 0int }),
    {
        if self.i >= self.bytes.len() {
            return ;
        }
        if in_comment {
            if self.bytes[self.i] == 10 {
                self.skip(false);
            } else {
                self.advance();
                self.skip(true);
            }
        } else if self.bytes[self.i] == 35 {
            self.advance();
            self.skip(true);
        } else {
            let b = self.bytes[self.i];
            if b == 32 || b == 9 || b == 10 || b == 13 {
                self.advance();
                self.skip(false);
            }
        }
    }

    /// Consumes a digit run, appending its text.
    fn take_digits(&mut self, out: &mut String)
        requires
            old(self).wf(),
        ensures
            final(self).wf(),
            final(self).model() == spec_run_digits(old(self).model()),
            final(out)@ == old(out)@ + chars_of(
                old(self).model().bytes,
                old(self).model().i,
                final(self).model().i,
            ),
        decreases old(self).bytes@.len() - old(self).i,
    {
        let ghost s0 = self.model();
        if self.i < self.bytes.len() {
            let b = self.bytes[self.i];
            if 48 <= b && b <= 57 {
                push_byte_str(out, b);
                self.advance();
                self.take_digits(out);
                proof {
                    lemma_run_digits_props(spec_advance(s0));
                    lemma_chars_of_unfold(s0.bytes, s0.i, self.model().i);
                }
                return ;
            }
        }
        proof {
            assert(chars_of(s0.bytes, s0.i, self.model().i) =~= Seq::<char>::empty());
        }
    }

    /// Consumes a letter run, appending its text.
    fn take_alpha(&mut self, out: &mut String)
        requires
            old(self).wf(),
        ensures
            final(self).wf(),
            final(self).model() == spec_run_alpha(old(self).model()),
            final(out)@ == old(out)@ + chars_of(
                old(self).model().bytes,
                old(self).model().i,
                final(self).model().i,
            ),
        decreases old(self).bytes@.len() - old(self).i,
    {
        let ghost s0 = self.model();
        if self.i < self.bytes.len() {
            let b = self.bytes[self.i];
            if (65 <= b && b <= 90) || (97 <= b && b <= 122) {
                push_byte_str(out, b);
                self.advance();
                self.take_alpha(out);
                proof {
                    lemma_run_alpha_props(spec_advance(s0));
                    lemma_chars_of_unfold(s0.bytes, s0.i, self.model().i);
                }
                return ;
            }
        }
        proof {
            assert(chars_of(s0.bytes, s0.i, self.model().i) =~= Seq::<char>::empty());
        }
    }

    /// The position of the next unread byte.
    fn here(&self) -> (p: Position)
        ensures
            p.human.line as int == self.model().line,
            p.human.column as int == self.model().col,
            p.machine as int == self.model().i,
    {
        Position { human: HumanPosition { line: self.line, column: self.col }, machine: self.i }
    }

    /// Scans the next token, or reports the unrecognized character.
    /// On an error the cursor rests where the scan stopped.
    pub fn get_next_token(&mut self) -> (r: Result<Token, LexError>)
        requires
            old(self).wf(),
        ensures
            final(self).wf(),
            final(self).model().bytes == old(self).model().bytes,
            match r {
                Ok(t) => {
                    let m = spec_next_token(old(self).model());
                    m is Ok && t.model() == m->Ok_0.0 && final(self).model() == m->Ok_0.1
                },
                Err(e) => {
                    let m = spec_next_token(old(self).model());
                    m is Err && e.model() == m->Err_0
                },
            },
    {
        let ghost st0 = self.model();
        self.skip(false);
        proof {
            lemma_skip_props(st0, false);
        }
        let ghost s = self.model();
        let pos = self.here();
        if self.i >= self.bytes.len() {
            return Ok(Token::new(TokenKind::EOF, "EOF", pos));
        }
        let b = self.bytes[self.i];
        if 48 <= b && b <= 57 {
            let mut value = String::new();
            self.take_digits(&mut value);
            proof {
                lemma_run_digits_props(s);
            }
            let ghost mid = self.model().i;
            if self.i < self.bytes.len() && self.bytes[self.i] == 46 {
                proof {
                    reveal_strlit(".");
                    assert("."@ =~= seq!['.']);
                    assert(self.model().bytes[mid] as char == '.');
                }
                value.append(".");
                self.advance();
                let ghost mid2 = self.model().i;
                let ghost smid = self.model();
                self.take_digits(&mut value);
                proof {
                    lemma_run_digits_props(smid);
                    lemma_chars_of_unfold(self.model().bytes, mid, mid2);
                    assert(chars_of(self.model().bytes, mid, mid2) =~= seq!['.']);
                    lemma_chars_of_split(self.model().bytes, mid, mid2, self.model().i);
                    lemma_chars_of_split(
                        self.model().bytes,
                        pos.machine as int,
                        mid,
                        self.model().i,
                    );
                    assert(value@ =~= chars_of(
                        self.model().bytes,
                        pos.machine as int,
                        self.model().i,
                    ));
                }
            }
            proof {
                lemma_chars_of_split(self.model().bytes, pos.machine as int, mid, self.model().i);
                assert(value@ =~= chars_of(
                    self.model().bytes,
                    pos.machine as int,
                    self.model().i,
                ));
            }
            return Ok(Token { kind: TokenKind::Number, value, position: pos });
        }
        if (65 <= b && b <= 90) || (97 <= b && b <= 122) {
            let mut value = String::new();
            self.take_alpha(&mut value);
            proof {
                lemma_run_alpha_props(s);
            }
            return Ok(Token { kind: TokenKind::Identifier, value, position: pos });
        }
        if b == 64 {
            self.advance();
            return Ok(Token::new(TokenKind::Command, "@", pos));
        }
        if b == 61 {
            self.advance();
            return Ok(Token::new(TokenKind::Assign, "=", pos));
        }
        if b == 59 {
            self.advance();
            return Ok(Token::new(TokenKind::Semicolon, ";", pos));
        }
        if b == 44 {
            self.advance();
            return Ok(Token::new(TokenKind::Comma, ",", pos));
        }
        if b == 43 {
            if self.i + 1 < self.bytes.len() && self.bytes[self.i + 1] == 45 {
                self.advance();
                self.advance();
                return Ok(Token::new(TokenKind::AddSubtract, "+-", pos));
            }
            self.advance();
            return Ok(Token::new(TokenKind::Add, "+", pos));
        }
        if b == 45 {
            self.advance();
            return Ok(Token::new(TokenKind::Subtract, "-", pos));
        }
        if b == 42 {
            self.advance();
            return Ok(Token::new(TokenKind::Multiply, "*", pos));
        }
        if b == 94 {
            self.advance();
            return Ok(Token::new(TokenKind::Power, "^", pos));
        }
        if b == 47 {
            self.advance();
            return Ok(Token::new(TokenKind::Divide, "/", pos));
        }
        if b == 40 {
            self.advance();
            return Ok(Token::new(TokenKind::LeftParen, "(", pos));
        }
        if b == 41 {
            self.advance();
            return Ok(Token::new(TokenKind::RightParen, ")", pos));
        }
        Err(LexError { ch: b as char, line: self.line, column: self.col })
    }
}

/// `chars_of` unfolds one character at the front.
pub proof fn lemma_chars_of_unfold(b: Seq<u8>, i: int, j: int)
    requires
        0 <= i,
        j <= b.len(),
    ensures
        i < j ==> chars_of(b, i, j) == seq![b[i] as char] + chars_of(b, i + 1, j),
        i >= j ==> chars_of(b, i, j) == Seq::<char>::empty(),
{
    if i >= j {
        assert(chars_of(b, i, j) =~= Seq::<char>::empty());
    }
}

/// A byte range's characters split at any interior point.
pub proof fn lemma_chars_of_split(b: Seq<u8>, i: int, m: int, j: int)
    requires
        0 <= i <= m <= j <= b.len(),
    ensures
        chars_of(b, i, j) == chars_of(b, i, m) + chars_of(b, m, j),
    decreases m - i,
{
    if i < m {
        lemma_chars_of_split(b, i + 1, m, j);
        assert(chars_of(b, i, j) =~= chars_of(b, i, m) + chars_of(b, m, j));
    } else {
        assert(chars_of(b, i, m) =~= Seq::<char>::empty());
        assert(chars_of(b, i, j) =~= chars_of(b, i, m) + chars_of(b, m, j));
    }
}

/// `spec_skip` keeps the bytes and never moves the cursor backwards
/// or past the end.
pub proof fn lemma_skip_props(st: LexState, c: bool)
    requires
        0 <= st.i <= st.bytes.len(),
    ensures
        ({
            let r = spec_skip(st, c);
            r.bytes == st.bytes && st.i <= r.i <= st.bytes.len() && (1 <= st.line ==> 1 <= r.line)
                && (1 <= st.col ==> 1 <= r.col)
        }),
    decreases st.bytes.len() - st.i, (if c { 1int } else { 0int }),
{
    if st.i < st.bytes.len() {
        if c {
            if st.bytes[st.i] == 10 {
                lemma_skip_props(st, false);
            } else {
                lemma_skip_props(spec_advance(st), true);
            }
        } else if st.bytes[st.i] == 35 {
            lemma_skip_props(spec_advance(st), true);
        } else if spec_is_ws(st.bytes[st.i]) {
            lemma_skip_props(spec_advance(st), false);
        }
    }
}

/// `spec_run_digits` keeps the bytes and moves forward within bounds.
pub proof fn lemma_run_digits_props(st: LexState)
    requires
        0 <= st.i <= st.bytes.len(),
    ensures
        ({
            let r = spec_run_digits(st);
            r.bytes == st.bytes && st.i <= r.i <= st.bytes.len() && (1 <= st.line ==> 1 <= r.line)
                && (1 <= st.col ==> 1 <= r.col)
        }),
    decreases st.bytes.len() - st.i,
{
    if st.i < st.bytes.len() && spec_is_digit(st.bytes[st.i]) {
        lemma_run_digits_props(spec_advance(st));
    }
}

/// `spec_run_alpha` keeps the bytes and moves forward within bounds.
pub proof fn lemma_run_alpha_props(st: LexState)
    requires
        0 <= st.i <= st.bytes.len(),
    ensures
        ({
            let r = spec_run_alpha(st);
            r.bytes == st.bytes && st.i <= r.i <= st.bytes.len() && (1 <= st.line ==> 1 <= r.line)
                && (1 <= st.col ==> 1 <= r.col)
        }),
    decreases st.bytes.len() - st.i,
{
    if st.i < st.bytes.len() && spec_is_alpha(st.bytes[st.i]) {
        lemma_run_alpha_props(spec_advance(st));
    }
}

/// Appends the single character a source byte stands for.
fn push_byte_str(out: &mut String, b: u8)
    requires
        spec_is_digit(b) || spec_is_alpha(b) || b == 46,
    ensures
        final(out)@ == old(out)@ + seq![b as char],
{
    if b == 48 {
        proof {
            reveal_strlit("0");
        }
        out.append("0");
    } else if b == 49 {
        proof {
            reveal_strlit("1");
        }
        out.append("1");
    } else if b == 50 {
        proof {
            reveal_strlit("2");
        }
        out.append("2");
    } else if b == 51 {
        proof {
            reveal_strlit("3");
        }
        out.append("3");
    } else if b == 52 {
        proof {
            reveal_strlit("4");
        }
        out.append("4");
    } else if b == 53 {
        proof {
            reveal_strlit("5");
        }
        out.append("5");
    } else if b == 54 {
        proof {
            reveal_strlit("6");
        }
        out.append("6");
    } else if b == 55 {
        proof {
            reveal_strlit("7");
        }
        out.append("7");
    } else if b == 56 {
        proof {
            reveal_strlit("8");
        }
        out.append("8");
    } else if b == 57 {
        proof {
            reveal_strlit("9");
        }
        out.append("9");
    } else if b == 46 {
        proof {
            reveal_strlit(".");
        }
        out.append(".");
    } else if b == 65 {
        proof {
            reveal_strlit("A");
        }
        out.append("A");
    } else if b == 66 {
        proof {
            reveal_strlit("B");
        }
        out.append("B");
    } else if b == 67 {
        proof {
            reveal_strlit("C");
        }
        out.append("C");
    } else if b == 68 {
        proof {
            reveal_strlit("D");
        }
        out.append("D");
    } else if b == 69 {
        proof {
            reveal_strlit("E");
        }
        out.append("E");
    } else if b == 70 {
        proof {
            reveal_strlit("F");
        }
        out.append("F");
    } else if b == 71 {
        proof {
            reveal_strlit("G");
        }
        out.append("G");
    } else if b == 72 {
        proof {
            reveal_strlit("H");
        }
        out.append("H");
    } else if b == 73 {
        proof {
            reveal_strlit("I");
        }
        out.append("I");
    } else if b == 74 {
        proof {
            reveal_strlit("J");
        }
        out.append("J");
    } else if b == 75 {
        proof {
            reveal_strlit("K");
        }
        out.append("K");
    } else if b == 76 {
        proof {
            reveal_strlit("L");
        }
        out.append("L");
    } else if b == 77 {
        proof {
            reveal_strlit("M");
        }
        out.append("M");
    } else if b == 78 {
        proof {
            reveal_strlit("N");
        }
        out.append("N");
    } else if b == 79 {
        proof {
            reveal_strlit("O");
        }
        out.append("O");
    } else if b == 80 {
        proof {
            reveal_strlit("P");
        }
        out.append("P");
    } else if b == 81 {
        proof {
            reveal_strlit("Q");
        }
        out.append("Q");
    } else if b == 82 {
        proof {
            reveal_strlit("R");
        }
        out.append("R");
    } else if b == 83 {
        proof {
            reveal_strlit("S");
        }
        out.append("S");
    } else if b == 84 {
        proof {
            reveal_strlit("T");
        }
        out.append("T");
    } else if b == 85 {
        proof {
            reveal_strlit("U");
        }
        out.append("U");
    } else if b == 86 {
        proof {
            reveal_strlit("V");
        }
        out.append("V");
    } else if b == 87 {
        proof {
            reveal_strlit("W");
        }
        out.append("W");
    } else if b == 88 {
        proof {
            reveal_strlit("X");
        }
        out.append("X");
    } else if b == 89 {
        proof {
            reveal_strlit("Y");
        }
        out.append("Y");
    } else if b == 90 {
        proof {
            reveal_strlit("Z");
        }
        out.append("Z");
    } else if b == 97 {
        proof {
            reveal_strlit("a");
        }
        out.append("a");
    } else if b == 98 {
        proof {
            reveal_strlit("b");
        }
        out.append("b");
    } else if b == 99 {
        proof {
            reveal_strlit("c");
        }
        out.append("c");
    } else if b == 100 {
        proof {
            reveal_strlit("d");
        }
        out.append("d");
    } else if b == 101 {
        proof {
            reveal_strlit("e");
        }
        out.append("e");
    } else if b == 102 {
        proof {
            reveal_strlit("f");
        }
        out.append("f");
    } else if b == 103 {
        proof {
            reveal_strlit("g");
        }
        out.append("g");
    } else if b == 104 {
        proof {
            reveal_strlit("h");
        }
        out.append("h");
    } else if b == 105 {
        proof {
            reveal_strlit("i");
        }
        out.append("i");
    } else if b == 106 {
        proof {
            reveal_strlit("j");
        }
        out.append("j");
    } else if b == 107 {
        proof {
            reveal_strlit("k");
        }
        out.append("k");
    } else if b == 108 {
        proof {
            reveal_strlit("l");
        }
        out.append("l");
    } else if b == 109 {
        proof {
            reveal_strlit("m");
        }
        out.append("m");
    } else if b == 110 {
        proof {
            reveal_strlit("n");
        }
        out.append("n");
    } else if b == 111 {
        proof {
            reveal_strlit("o");
        }
        out.append("o");
    } else if b == 112 {
        proof {
            reveal_strlit("p");
        }
        out.append("p");
    } else if b == 113 {
        proof {
            reveal_strlit("q");
        }
        out.append("q");
    } else if b == 114 {
        proof {
            reveal_strlit("r");
        }
        out.append("r");
    } else if b == 115 {
        proof {
            reveal_strlit("s");
        }
        out.append("s");
    } else if b == 116 {
        proof {
            reveal_strlit("t");
        }
        out.append("t");
    } else if b == 117 {
        proof {
            reveal_strlit("u");
        }
        out.append("u");
    } else if b == 118 {
        proof {
            reveal_strlit("v");
        }
        out.append("v");
    } else if b == 119 {
        proof {
            reveal_strlit("w");
        }
        out.append("w");
    } else if b == 120 {
        proof {
            reveal_strlit("x");
        }
        out.append("x");
    } else if b == 121 {
        proof {
            reveal_strlit("y");
        }
        out.append("y");
    } else {
        proof {
            reveal_strlit("z");
        }
        out.append("z");
    }
}

} // verus!
