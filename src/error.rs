use vstd::prelude::*;

verus! {

/// What went wrong while scanning or parsing an expression.
#[derive(Debug, Clone, Copy, PartialEq, Eq, Structural)]
pub enum ErrorKind {
    /// A character outside the accepted set.
    UnexpectedCharacter,
    /// A run of digits whose value does not fit in an `i32`.
    NumberTooLarge,
    /// A token where the grammar does not allow it.
    UnexpectedToken,
    /// The end of input while a parenthesis is still open.
    UnclosedParen,
    /// A closing parenthesis without a matching open one.
    MismatchedParen,
    /// An operator that has too few operands to take.
    MissingOperand,
    /// `*`, `/` or `^` where only a sign may stand.
    InvalidUnaryOperator,
}

/// A diagnostic: the kind of failure and the position it was detected at.
///
/// The line counts from 1; the column is the offset from the most recent
/// line feed, or from the start of the input on the first line.
#[derive(Debug, Clone, Copy, PartialEq, Eq, Structural)]
pub struct Error {
    pub kind: ErrorKind,
    pub line: usize,
    pub column: usize,
}

/// The heading of each kind of error.
pub open spec fn title_text(kind: ErrorKind) -> Seq<char> {
    match kind {
        ErrorKind::UnexpectedCharacter => "Unexpected character"@,
        ErrorKind::NumberTooLarge => "Number too large"@,
        ErrorKind::UnexpectedToken => "Unexpected token"@,
        ErrorKind::UnclosedParen => "Unclosed parenthesis"@,
        ErrorKind::MismatchedParen => "Mismatched closing parenthesis"@,
        ErrorKind::MissingOperand => "Missing argument for operator"@,
        ErrorKind::InvalidUnaryOperator => "Invalid unary operator"@,
    }
}

/// The explanation of each kind of error.
pub open spec fn description_text(kind: ErrorKind) -> Seq<char> {
    match kind {
        ErrorKind::UnexpectedCharacter => "The lexer does not know how to handle this"@,
        ErrorKind::NumberTooLarge => "The number does not fit in a 32-bit signed integer"@,
        ErrorKind::UnexpectedToken => "This token is not allowed at this point of the expression"@,
        ErrorKind::UnclosedParen => "EOF occurred while some parentheses were unclosed"@,
        ErrorKind::MismatchedParen => "Closing parenthesis without matching opening was detected"@,
        ErrorKind::MissingOperand => "Node stack was empty when looking for argument"@,
        ErrorKind::InvalidUnaryOperator => "Only + and - can be used as unary operators"@,
    }
}

impl ErrorKind {
    /// A short heading for this kind of error.
    pub fn title(&self) -> (r: &'static str)
        ensures
            r@ == title_text(*self),
    {
        match self {
            ErrorKind::UnexpectedCharacter => "Unexpected character",
            ErrorKind::NumberTooLarge => "Number too large",
            ErrorKind::UnexpectedToken => "Unexpected token",
            ErrorKind::UnclosedParen => "Unclosed parenthesis",
            ErrorKind::MismatchedParen => "Mismatched closing parenthesis",
            ErrorKind::MissingOperand => "Missing argument for operator",
            ErrorKind::InvalidUnaryOperator => "Invalid unary operator",
        }
    }

    /// A sentence that explains this kind of error.
    pub fn description(&self) -> (r: &'static str)
        ensures
            r@ == description_text(*self),
    {
        match self {
            ErrorKind::UnexpectedCharacter => "The lexer does not know how to handle this",
            ErrorKind::NumberTooLarge => "The number does not fit in a 32-bit signed integer",
            ErrorKind::UnexpectedToken => "This token is not allowed at this point of the expression",
            ErrorKind::UnclosedParen => "EOF occurred while some parentheses were unclosed",
            ErrorKind::MismatchedParen => "Closing parenthesis without matching opening was detected",
            ErrorKind::MissingOperand => "Node stack was empty when looking for argument",
            ErrorKind::InvalidUnaryOperator => "Only + and - can be used as unary operators",
        }
    }
}

impl Error {
    pub fn kind(&self) -> (r: ErrorKind)
        ensures
            r == self.kind,
    {
        self.kind
    }

    pub fn line(&self) -> (r: usize)
        ensures
            r == self.line,
    {
        self.line
    }

    pub fn column(&self) -> (r: usize)
        ensures
            r == self.column,
    {
        self.column
    }

    /// The heading of this error, by its kind.
    pub fn title(&self) -> (r: &'static str)
        ensures
            r@ == title_text(self.kind),
    {
        self.kind.title()
    }

    /// The explanation of this error, by its kind.
    pub fn description(&self) -> (r: &'static str)
        ensures
            r@ == description_text(self.kind),
    {
        self.kind.description()
    }
}

} // verus!
