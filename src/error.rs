use vstd::prelude::*;

verus! {

/// Why a script could not be compiled.
#[derive(Debug, PartialEq, Eq)]
pub enum Error {
    /// A delimiter that the grammar needs never came.
    Missing(char),
    /// A character that no rule of the grammar allows at this place.
    Unexpected(char),
    /// A backslash stands at the very end of the script.
    MissingEscape,
    /// A line address is `0`, or a range of line numbers runs backwards.
    InvalidAddress,
    /// A character index of `k` is `0`, or its range runs backwards.
    InvalidIndex,
    /// A number does not fit the type that holds it.
    NumberTooLarge,
    /// A substitution has an empty regular expression.
    EmptyRegex,
    /// The regular expression engine refused this pattern text.
    InvalidRegex(String),
    /// A string literal holds an escape sequence that is not recognised.
    InvalidEscape(String),
    /// A `?` address is not followed by a substitution.
    DeferredWithoutSubstitution,
    /// The finalize block holds a loop.
    LoopInFinal,
}

/// An `Error` as contracts describe it, with the texts of the two errors
/// that carry one.
pub enum Fault {
    Plain(Error),
    BadRegex(Seq<char>),
    BadEscape(Seq<char>),
}

pub open spec fn fault_of(e: Error) -> Fault {
    match e {
        Error::InvalidRegex(t) => Fault::BadRegex(t@),
        Error::InvalidEscape(t) => Fault::BadEscape(t@),
        _ => Fault::Plain(e),
    }
}

} // verus!
