use vstd::prelude::*;

use crate::error::{Error, ErrorKind};

verus! {

/// The binary operators; `Add` and `Sub` also stand as signs.
#[derive(Debug, Clone, Copy, PartialEq, Eq, Structural)]
pub enum Ops {
    Add,
    Sub,
    Mul,
    Div,
    Pow,
}

/// A token of an expression.
#[derive(Debug)]
pub enum Token {
    Number(i32),
    Identifier(String),
    OpenParen,
    CloseParen,
    Operator(Ops),
    EOF,
}

/// A token as a mathematical value.
pub enum TokenView {
    Number(i32),
    Identifier(Seq<char>),
    OpenParen,
    CloseParen,
    Operator(Ops),
    EOF,
}

impl View for Token {
    type V = TokenView;

    open spec fn view(&self) -> TokenView {
        match self {
            Token::Number(n) => TokenView::Number(*n),
            Token::Identifier(s) => TokenView::Identifier(s@),
            Token::OpenParen => TokenView::OpenParen,
            Token::CloseParen => TokenView::CloseParen,
            Token::Operator(op) => TokenView::Operator(*op),
            Token::EOF => TokenView::EOF,
        }
    }
}

pub open spec fn is_space(c: char) -> bool {
    c == ' ' || c == '\t' || c == '\r' || c == '\n'
}

pub open spec fn is_digit(c: char) -> bool {
    '0' <= c <= '9'
}

pub open spec fn is_letter(c: char) -> bool {
    ('A' <= c <= 'Z') || ('a' <= c <= 'z')
}

/// The token that a single character stands for, if it stands for one alone.
pub open spec fn single_char_token(c: char) -> Option<TokenView> {
    if c == '(' {
        Some(TokenView::OpenParen)
    } else if c == ')' {
        Some(TokenView::CloseParen)
    } else if c == '+' {
        Some(TokenView::Operator(Ops::Add))
    } else if c == '-' {
        Some(TokenView::Operator(Ops::Sub))
    } else if c == '*' {
        Some(TokenView::Operator(Ops::Mul))
    } else if c == '/' {
        Some(TokenView::Operator(Ops::Div))
    } else if c == '^' {
        Some(TokenView::Operator(Ops::Pow))
    } else {
        None
    }
}

/// The first index from `i` on that does not hold whitespace.
pub open spec fn space_end(s: Seq<char>, i: int) -> int
    decreases s.len() - i,
{
    if 0 <= i < s.len() && is_space(s[i]) {
        space_end(s, i + 1)
    } else {
        i
    }
}

/// The first index from `i` on that does not hold a digit.
pub open spec fn digits_end(s: Seq<char>, i: int) -> int
    decreases s.len() - i,
{
    if 0 <= i < s.len() && is_digit(s[i]) {
        digits_end(s, i + 1)
    } else {
        i
    }
}

/// The first index from `i` on that does not hold a letter.
pub open spec fn letters_end(s: Seq<char>, i: int) -> int
    decreases s.len() - i,
{
    if 0 <= i < s.len() && is_letter(s[i]) {
        letters_end(s, i + 1)
    } else {
        i
    }
}

pub open spec fn digit_value(c: char) -> int {
    c as int - '0' as int
}

/// The decimal value of the digits `s[i..j]`.
pub open spec fn number_value(s: Seq<char>, i: int, j: int) -> int
    decreases j - i,
{
    if j <= i {
        0
    } else {
        10 * number_value(s, i, j - 1) + digit_value(s[j - 1])
    }
}

/// How many line feeds stand before index `p`.
pub open spec fn newlines_before(s: Seq<char>, p: int) -> nat
    decreases p,
{
    if p <= 0 {
        0
    } else {
        newlines_before(s, p - 1) + if s[p - 1] == '\n' {
            1nat
        } else {
            0nat
        }
    }
}

/// The index of the last line feed before index `p`, or 0 if there is none.
pub open spec fn last_newline(s: Seq<char>, p: int) -> int
    decreases p,
{
    if p <= 0 {
        0
    } else if s[p - 1] == '\n' {
        p - 1
    } else {
        last_newline(s, p - 1)
    }
}

/// The line of index `p`, counted from 1.
pub open spec fn line_at(s: Seq<char>, p: int) -> int {
    1 + newlines_before(s, p) as int
}

/// The column of index `p`: its offset from the last line feed before it.
pub open spec fn column_at(s: Seq<char>, p: int) -> int {
    p - last_newline(s, p)
}

/// The error of the given kind, placed at index `p` of `s`.
pub open spec fn error_at(kind: ErrorKind, s: Seq<char>, p: int) -> Error {
    Error { kind, line: line_at(s, p) as usize, column: column_at(s, p) as usize }
}

/// What scanning from an index finds.
pub enum Scan {
    /// A token and the index just past it.
    Token(TokenView, int),
    /// A failure of the given kind at the given index.
    Fail(ErrorKind, int),
}

/// The next token of `s` from index `pos` on: whitespace is skipped, digits
/// and letters are taken in maximal runs, and each of `( ) + - * / ^` is a
/// token of its own.
pub open spec fn scan(s: Seq<char>, pos: int) -> Scan {
    let j = space_end(s, pos);
    if j >= s.len() {
        Scan::Token(TokenView::EOF, j)
    } else if is_digit(s[j]) {
        let e = digits_end(s, j);
        let v = number_value(s, j, e);
        if v <= i32::MAX {
            Scan::Token(TokenView::Number(v as i32), e)
        } else {
            Scan::Fail(ErrorKind::NumberTooLarge, j)
        }
    } else if is_letter(s[j]) {
        let e = letters_end(s, j);
        Scan::Token(TokenView::Identifier(s.subrange(j, e)), e)
    } else {
        match single_char_token(s[j]) {
            Some(t) => Scan::Token(t, j + 1),
            None => Scan::Fail(ErrorKind::UnexpectedCharacter, j),
        }
    }
}

proof fn lemma_newlines_bound(s: Seq<char>, p: int)
    requires
        0 <= p,
    ensures
        newlines_before(s, p) <= p,
    decreases p,
{
    if p > 0 {
        lemma_newlines_bound(s, p - 1);
    }
}

proof fn lemma_last_newline_bound(s: Seq<char>, p: int)
    requires
        0 <= p,
    ensures
        0 <= last_newline(s, p) <= p,
    decreases p,
{
    if p > 0 {
        lemma_last_newline_bound(s, p - 1);
    }
}

proof fn lemma_digits_run(s: Seq<char>, i: int)
    requires
        0 <= i <= s.len(),
    ensures
        i <= digits_end(s, i) <= s.len(),
        forall|t: int| i <= t < digits_end(s, i) ==> is_digit(#[trigger] s[t]),
    decreases s.len() - i,
{
    if i < s.len() && is_digit(s[i]) {
        lemma_digits_run(s, i + 1);
    }
}

proof fn lemma_letters_run(s: Seq<char>, i: int)
    requires
        0 <= i <= s.len(),
    ensures
        i <= letters_end(s, i) <= s.len(),
    decreases s.len() - i,
{
    if i < s.len() && is_letter(s[i]) {
        lemma_letters_run(s, i + 1);
    }
}

proof fn lemma_spaces_run(s: Seq<char>, i: int)
    requires
        0 <= i <= s.len(),
    ensures
        i <= space_end(s, i) <= s.len(),
    decreases s.len() - i,
{
    if i < s.len() && is_space(s[i]) {
        lemma_spaces_run(s, i + 1);
    }
}

/// A longer run of digits has a value at least as large.
proof fn lemma_number_value_grows(s: Seq<char>, i: int, k: int, m: int)
    requires
        i <= k <= m,
        forall|t: int| i <= t < m ==> is_digit(#[trigger] s[t]),
    ensures
        0 <= number_value(s, i, k) <= number_value(s, i, m),
    decreases m - i,
{
    if m > i {
        if k < m {
            lemma_number_value_grows(s, i, k, m - 1);
        } else {
            lemma_number_value_grows(s, i, k - 1, m - 1);
        }
    }
}

/// Scanning never moves back, stays within the input, and moves forward
/// past every token but `EOF`.
pub proof fn lemma_scan_bounds(s: Seq<char>, pos: int)
    requires
        0 <= pos <= s.len(),
    ensures
        match scan(s, pos) {
            Scan::Token(t, e) => pos <= e <= s.len() && (!(t is EOF) ==> pos < e),
            Scan::Fail(_, at) => pos <= at < s.len(),
        },
{
    lemma_spaces_run(s, pos);
    let j = space_end(s, pos);
    if j < s.len() {
        lemma_digits_run(s, j + 1);
        lemma_letters_run(s, j + 1);
    }
}

/// Once scanning reaches the end of input it stays there: scanning again
/// from the end of an `EOF` token finds `EOF` at the same place.
pub proof fn lemma_eof_repeats(s: Seq<char>, pos: int)
    requires
        0 <= pos <= s.len(),
        scan(s, pos) matches Scan::Token(TokenView::EOF, _),
    ensures
        scan(s, pos) == scan(s, scan(s, pos)->Token_1),
{
    lemma_spaces_run(s, pos);
}

/// Scans an expression's text into tokens, one at a time.
pub struct Lexer<'a> {
    text: &'a str,
    chars: Vec<char>,
    pos: usize,
    last_newline: usize,
    line: usize,
}

impl<'a> Lexer<'a> {
    /// The characters being scanned.
    pub closed spec fn source(&self) -> Seq<char> {
        self.chars@
    }

    /// The index of the next character to scan.
    pub closed spec fn position(&self) -> int {
        self.pos as int
    }

    pub closed spec fn wf(&self) -> bool {
        &&& self.chars@ == self.text@
        &&& self.pos <= self.chars.len() < usize::MAX
        &&& self.line == line_at(self.chars@, self.pos as int)
        &&& self.last_newline == last_newline(self.chars@, self.pos as int)
    }

    /// The scan position of a well-formed lexer lies within its input.
    pub proof fn lemma_bounds(&self)
        requires
            self.wf(),
        ensures
            0 <= self.position() <= self.source().len() < usize::MAX,
    {
    }

    /// A lexer at the start of `text`.
    pub fn new(text: &'a str) -> (r: Self)
        requires
            text@.len() < usize::MAX,
        ensures
            r.wf(),
            r.source() == text@,
            r.position() == 0,
    {
        let n = text.unicode_len();
        let mut chars: Vec<char> = Vec::new();
        let mut i: usize = 0;
        while i < n
            invariant
                n == text@.len(),
                i <= n,
                chars@ == text@.subrange(0, i as int),
            decreases n - i,
        {
            chars.push(text.get_char(i));
            i = i + 1;
        }
        assert(chars@ == text@);
        Lexer { text, chars, pos: 0, last_newline: 0, line: 1 }
    }

    /// The character at the scan position, if any is left.
    #[inline]
    fn current_char(&self) -> (r: Option<char>)
        requires
            self.wf(),
        ensures
            r == if self.pos < self.chars.len() {
                Some(self.chars@[self.pos as int])
            } else {
                None::<char>
            },
    {
        if self.pos < self.chars.len() {
            Some(self.chars[self.pos])
        } else {
            None
        }
    }

    /// Moves past the current character and returns it, keeping the line and
    /// the last line feed up to date.
    fn advance(&mut self) -> (r: Option<char>)
        requires
            old(self).wf(),
        ensures
            final(self).wf(),
            final(self).chars@ == old(self).chars@,
            final(self).text == old(self).text,
            old(self).pos < old(self).chars.len() ==> final(self).pos == old(self).pos + 1 && r
                == Some(old(self).chars@[old(self).pos as int]),
            old(self).pos >= old(self).chars.len() ==> final(self).pos == old(self).pos && r
                == None::<char>,
    {
        if self.pos < self.chars.len() {
            let c = self.chars[self.pos];
            proof {
                lemma_newlines_bound(self.chars@, self.pos + 1);
            }
            if c == '\n' {
                self.last_newline = self.pos;
                self.line = self.line + 1;
            }
            self.pos = self.pos + 1;
            Some(c)
        } else {
            None
        }
    }

    /// Skips consecutive whitespace characters.
    fn skip_whitespace(&mut self)
        requires
            old(self).wf(),
        ensures
            final(self).wf(),
            final(self).chars@ == old(self).chars@,
            final(self).text == old(self).text,
            final(self).pos == space_end(old(self).chars@, old(self).pos as int),
    {
        let ghost s = self.chars@;
        let ghost p0 = self.pos as int;
        loop
            invariant
                self.wf(),
                self.chars@ == s,
                self.text == old(self).text,
                space_end(s, self.pos as int) == space_end(s, p0),
            ensures
                self.wf(),
                self.chars@ == s,
                self.text == old(self).text,
                self.pos == space_end(s, p0),
            decreases s.len() - self.pos,
        {
            match self.current_char() {
                Some(c) => {
                    if c == ' ' || c == '\n' || c == '\r' || c == '\t' {
                        self.advance();
                    } else {
                        break;
                    }
                },
                None => break,
            }
        }
    }

    /// Reads a maximal run of digits; `None` where its value exceeds `i32::MAX`.
    fn read_number(&mut self) -> (r: Option<i32>)
        requires
            old(self).wf(),
        ensures
            final(self).wf(),
            final(self).chars@ == old(self).chars@,
            final(self).text == old(self).text,
            ({
                let s = old(self).chars@;
                let p = old(self).pos as int;
                let v = number_value(s, p, digits_end(s, p));
                if v <= i32::MAX {
                    r == Some(v as i32) && final(self).pos == digits_end(s, p)
                } else {
                    r == None::<i32>
                }
            }),
    {
        let ghost s = self.chars@;
        let ghost p0 = self.pos as int;
        proof {
            lemma_digits_run(s, p0);
        }
        let mut value: i32 = 0;
        let mut fits = true;
        loop
            invariant_except_break
                self.wf(),
                self.chars@ == s,
                self.text == old(self).text,
                p0 <= self.pos <= digits_end(s, p0),
                digits_end(s, self.pos as int) == digits_end(s, p0),
                value == number_value(s, p0, self.pos as int),
                0 <= value,
                fits,
            invariant
                forall|t: int| p0 <= t < digits_end(s, p0) ==> is_digit(#[trigger] s[t]),
                digits_end(s, p0) <= s.len(),
            ensures
                self.wf(),
                self.chars@ == s,
                self.text == old(self).text,
                fits ==> self.pos == digits_end(s, p0) && value == number_value(
                    s,
                    p0,
                    digits_end(s, p0),
                ),
                !fits ==> number_value(s, p0, digits_end(s, p0)) > i32::MAX,
            decreases s.len() - self.pos,
        {
            match self.current_char() {
                Some(c) => {
                    if '0' <= c && c <= '9' {
                        let d: i32 = (c as u32 - '0' as u32) as i32;
                        proof {
                            lemma_digits_run(s, self.pos + 1);
                        }
                        if value > 214748364 || (value == 214748364 && d > 7) {
                            proof {
                                lemma_number_value_grows(
                                    s,
                                    p0,
                                    self.pos + 1,
                                    digits_end(s, p0),
                                );
                            }
                            fits = false;
                            break;
                        }
                        value = value * 10 + d;
                        self.advance();
                    } else {
                        break;
                    }
                },
                None => break,
            }
        }
        if fits {
            Some(value)
        } else {
            None
        }
    }

    /// Reads a maximal run of letters.
    fn read_identifier(&mut self) -> (r: String)
        requires
            old(self).wf(),
        ensures
            final(self).wf(),
            final(self).chars@ == old(self).chars@,
            final(self).text == old(self).text,
            final(self).pos == letters_end(old(self).chars@, old(self).pos as int),
            r@ == old(self).chars@.subrange(old(self).pos as int, final(self).pos as int),
    {
        let ghost s = self.chars@;
        let ghost p0 = self.pos as int;
        let start = self.pos;
        loop
            invariant
                self.wf(),
                self.chars@ == s,
                self.text == old(self).text,
                p0 <= self.pos,
                letters_end(s, self.pos as int) == letters_end(s, p0),
            ensures
                self.wf(),
                self.chars@ == s,
                self.text == old(self).text,
                p0 <= self.pos,
                self.pos == letters_end(s, p0),
            decreases s.len() - self.pos,
        {
            match self.current_char() {
                Some(c) => {
                    if ('A' <= c && c <= 'Z') || ('a' <= c && c <= 'z') {
                        self.advance();
                    } else {
                        break;
                    }
                },
                None => break,
            }
        }
        self.text.substring_char(start, self.pos).to_owned()
    }

    /// The column of the scan position.
    fn column(&self) -> (r: usize)
        requires
            self.wf(),
        ensures
            r == column_at(self.chars@, self.pos as int),
    {
        proof {
            lemma_last_newline_bound(self.chars@, self.pos as int);
        }
        self.pos - self.last_newline
    }

    /// Returns the next token with the line and column of its end, or
    /// `Token::EOF` once the input is used up.
    pub fn next_token(&mut self) -> (r: Result<(Token, usize, usize), Error>)
        requires
            old(self).wf(),
        ensures
            final(self).wf(),
            final(self).source() == old(self).source(),
            match scan(old(self).source(), old(self).position()) {
                Scan::Token(t, e) => match r {
                    Ok((tok, line, col)) => {
                        &&& tok@ == t
                        &&& final(self).position() == e
                        &&& line == line_at(old(self).source(), e)
                        &&& col == column_at(old(self).source(), e)
                    },
                    Err(_) => false,
                },
                Scan::Fail(kind, at) => r == Err::<(Token, usize, usize), Error>(
                    error_at(kind, old(self).source(), at),
                ),
            },
    {
        self.skip_whitespace();
        let ghost s = self.chars@;
        let line = self.line;
        let col = self.column();
        let c = match self.current_char() {
            Some(c) => c,
            None => return Ok((Token::EOF, line, col)),
        };
        let token = if '0' <= c && c <= '9' {
            match self.read_number() {
                Some(n) => Token::Number(n),
                None => {
                    return Err(Error { kind: ErrorKind::NumberTooLarge, line, column: col });
                },
            }
        } else if ('A' <= c && c <= 'Z') || ('a' <= c && c <= 'z') {
            Token::Identifier(self.read_identifier())
        } else {
            let t = if c == '(' {
                Token::OpenParen
            } else if c == ')' {
                Token::CloseParen
            } else if c == '+' {
                Token::Operator(Ops::Add)
            } else if c == '-' {
                Token::Operator(Ops::Sub)
            } else if c == '*' {
                Token::Operator(Ops::Mul)
            } else if c == '/' {
                Token::Operator(Ops::Div)
            } else if c == '^' {
                Token::Operator(Ops::Pow)
            } else {
                return Err(Error { kind: ErrorKind::UnexpectedCharacter, line, column: col });
            };
            self.advance();
            t
        };
        let end_col = self.column();
        Ok((token, self.line, end_col))
    }
}

} // verus!
