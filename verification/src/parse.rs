//! What the two parsers share: the outcome of one grammar rule, and the error type.

use vstd::prelude::*;

verus! {

/// Why a piece of input could not be parsed.
#[derive(Debug, Clone, Copy, PartialEq, Eq)]
pub enum ParseError {
    /// The input does not begin with what was asked for: nothing of it was read.
    NoMatch,
    /// The input begins like what was asked for and goes wrong further on.
    Malformed,
    /// The input was to be read to its end, and after `offset` characters comes something
    /// that cannot be read.
    Trailing { offset: usize },
}

/// The outcome of applying one grammar rule at one position of the input.
pub enum Parsed<T> {
    /// The rule matched: its value, and the position behind what it read.
    Done { value: T, next: int },
    /// The rule does not apply here; nothing was read, and an alternative may be tried.
    Miss,
    /// The rule applied and the input went wrong after something had been read.
    Fail,
}

impl<T> Parsed<T> {
    /// The error that stands for an outcome that is not `Done`.
    pub open spec fn error(self) -> ParseError {
        match self {
            Parsed::Miss => ParseError::NoMatch,
            _ => ParseError::Malformed,
        }
    }
}

/// The outcome `p` of reading a list, with the items `acc` that were read before it put
/// in front.
pub open spec fn prepend<T>(acc: Seq<T>, p: Parsed<Seq<T>>) -> Parsed<Seq<T>> {
    match p {
        Parsed::Done { value, next } => Parsed::Done { value: acc + value, next },
        Parsed::Miss => Parsed::Miss,
        Parsed::Fail => Parsed::Fail,
    }
}

/// What is left of `input` behind its first `from` characters.
pub fn rest_of<'a>(input: &'a str, from: usize) -> (r: &'a str)
    requires
        from <= input@.len(),
    ensures
        r@ == input@.subrange(from as int, input@.len() as int),
{
    input.substring_char(from, input.unicode_len())
}

} // verus!
