use vstd::prelude::*;

verus! {

/// A recoverable failure while decoding an asset from text.
///
/// Decoding is ordinary data validation: malformed input is reported to the
/// caller as a value, never as a panic. The offending token is carried so the
/// caller can point at it.
#[derive(Debug, PartialEq, Eq)]
pub enum ParseError {
    /// The input did not consist of exactly two space-separated tokens.
    BadFormat,
    /// The numeric token, with its decimal point removed, was not a signed
    /// 64-bit integer. Carries the numeric token.
    BadAmount(String),
    /// The symbol token was not a valid symbol code. Carries the symbol token.
    BadSymbolCode(String),
}

/// An invariant breach in construction, arithmetic or comparison.
///
/// These mark programming errors (mixing units, overflowing the amount range,
/// dividing by zero), reported as a tagged failure so that no operation ever
/// silently misrepresents a computation.
#[derive(Debug, Clone, Copy, PartialEq, Eq, Structural)]
pub enum AssetError {
    /// The two operands carry different symbols (code or precision differ).
    SymbolMismatch,
    /// The resulting amount would exceed the maximum allowed amount.
    Overflow,
    /// The resulting amount would fall below the negated maximum amount.
    Underflow,
    /// The divisor was zero.
    DivideByZero,
    /// Dividing the minimum representable amount by minus one, whose exact
    /// quotient is not representable.
    DivisionOverflow,
}

} // verus!
