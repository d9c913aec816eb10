//! Errors of the library.

use vstd::prelude::*;

verus! {

/// Why a request was refused.
#[derive(Clone, Debug, PartialEq, Eq)]
pub enum PrismError {
    /// A caller-supplied value breaks a documented requirement.
    InvalidInput(String),
    /// Persisted parts are inconsistent with each other.
    InvalidFormat(String),
    /// A size or count does not fit its representation.
    Overflow(String),
}

pub type PrismResult<T> = Result<T, PrismError>;

impl PrismError {
    /// What kind of error this is, as it is shown in front of the text.
    pub open spec fn prefix(&self) -> Seq<char> {
        match self {
            PrismError::InvalidInput(_) => "invalid input: "@,
            PrismError::InvalidFormat(_) => "invalid format: "@,
            PrismError::Overflow(_) => "overflow: "@,
        }
    }

    /// The explanation that the error carries.
    pub open spec fn text(&self) -> Seq<char> {
        match self {
            PrismError::InvalidInput(text) => text@,
            PrismError::InvalidFormat(text) => text@,
            PrismError::Overflow(text) => text@,
        }
    }

    /// The error as one line of text: its kind, then its explanation.
    pub fn message(&self) -> (line: String)
        ensures
            line@ == self.prefix() + self.text(),
    {
        match self {
            PrismError::InvalidInput(text) => joined("invalid input: ", text.as_str()),
            PrismError::InvalidFormat(text) => joined("invalid format: ", text.as_str()),
            PrismError::Overflow(text) => joined("overflow: ", text.as_str()),
        }
    }
}

impl PrismError {
    /// An error of the same kind that explains itself by the line of this one and
    /// more behind it.
    pub fn and_also(self, more: &str) -> (error: PrismError)
        ensures
            error is InvalidInput <==> self is InvalidInput,
            error is InvalidFormat <==> self is InvalidFormat,
            error is Overflow <==> self is Overflow,
            error.text() == self.prefix() + self.text() + more@,
    {
        let line = joined(self.message().as_str(), more);
        match self {
            PrismError::InvalidInput(_) => PrismError::InvalidInput(line),
            PrismError::InvalidFormat(_) => PrismError::InvalidFormat(line),
            PrismError::Overflow(_) => PrismError::Overflow(line),
        }
    }
}

/// One text behind another.
fn joined(first: &str, second: &str) -> (line: String)
    ensures
        line@ == first@ + second@,
{
    let mut line = first.to_owned();
    line.append(second);
    line
}

/// An error for a refused argument.
pub fn invalid_input(text: &str) -> (error: PrismError)
    ensures
        error is InvalidInput,
        error.text() == text@,
{
    PrismError::InvalidInput(text.to_owned())
}

/// An error for parts that do not fit together.
pub fn invalid_format(text: &str) -> (error: PrismError)
    ensures
        error is InvalidFormat,
        error.text() == text@,
{
    PrismError::InvalidFormat(text.to_owned())
}

/// An error for a size that does not fit.
pub fn overflow(text: &str) -> (error: PrismError)
    ensures
        error is Overflow,
        error.text() == text@,
{
    PrismError::Overflow(text.to_owned())
}

/// The call failed because of a caller-supplied value.
pub open spec fn refused_input<T>(result: PrismResult<T>) -> bool {
    result matches Err(error) && error is InvalidInput
}

/// The call failed because persisted parts are inconsistent.
pub open spec fn refused_format<T>(result: PrismResult<T>) -> bool {
    result matches Err(error) && error is InvalidFormat
}

/// The call failed because something does not fit its representation.
pub open spec fn refused_size<T>(result: PrismResult<T>) -> bool {
    result matches Err(error) && error is Overflow
}

/// How a call with several reasons for refusal has to end.
pub enum Verdict {
    Accepted,
    InvalidInput,
    InvalidFormat,
    Overflow,
}

/// The call ended that way.
pub open spec fn ends<T>(result: PrismResult<T>, verdict: Verdict) -> bool {
    match verdict {
        Verdict::Accepted => result is Ok,
        Verdict::InvalidInput => refused_input(result),
        Verdict::InvalidFormat => refused_format(result),
        Verdict::Overflow => refused_size(result),
    }
}

} // verus!
