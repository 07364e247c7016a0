use vstd::prelude::*;

verus! {

/// A failure while turning source text into tokens or while parsing.
///
/// The tokenizer recovers from `ParseFloat` and `ParseInt` (it records the
/// error and keeps lexing); the parser treats every `SyntaxError` as fatal
/// for the expression being parsed.
#[derive(Clone, Copy, Debug, PartialEq, Eq, Structural)]
pub enum SyntaxError {
    /// A character that is neither a digit, an operator, a parenthesis nor
    /// whitespace, or a numeric run that could not be read as a literal.
    UnrecognizedToken(char),
    /// A numeric run with a decimal point that does not denote a float
    /// (for example two decimal points).
    ParseFloat,
    /// A run of digits whose value does not fit in a 64-bit signed integer.
    ParseInt,
    /// A `(` whose matching `)` is missing or misplaced.
    UnclosedParenthesis,
    /// An operator with no expression after it, or an empty input.
    MissingOperand,
}

/// A failure while applying an arithmetic operator to integer operands.
///
/// Floating-point operations never fail: they follow IEEE 754 and produce
/// infinities or NaN instead.
#[derive(Clone, Copy, Debug, PartialEq, Eq, Structural)]
pub enum OperatorError {
    /// The mathematical result does not fit in a 64-bit signed integer.
    Overflow,
    /// An integer base was raised to a negative integer exponent.
    NegativeExponent,
}

/// Any failure of the pipeline.
///
/// `Io` is never produced by the library itself: it is reserved for callers
/// that feed the pipeline from a fallible byte source.
#[derive(Clone, Copy, Debug, PartialEq, Eq, Structural)]
pub enum Error {
    /// The byte source failed before tokenization could finish.
    Io,
    /// The input does not form a grammatical expression.
    SyntaxError(SyntaxError),
    /// An operator was applied to operands it is not defined on.
    OperatorError(OperatorError),
}

} // verus!
