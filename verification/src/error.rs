//! What can go wrong while the dependencies of a test are worked out.

use vstd::prelude::*;

verus! {

/// An error; the text is what the failed operation said of itself.
#[derive(Clone, Debug, PartialEq, Eq)]
pub enum Error {
    /// A file is not the fingerprint of a library that was built.
    Fingerprint,
    /// A file could not be read.
    Io(String),
    /// The description of the packages could not be had.
    Metadata(String),
    /// Anything else.
    Msg(String),
}

/// An error as a mathematical value.
pub enum ErrorView {
    Fingerprint,
    Io(Seq<char>),
    Metadata(Seq<char>),
    Msg(Seq<char>),
}

impl DeepView for Error {
    type V = ErrorView;

    open spec fn deep_view(&self) -> ErrorView {
        match *self {
            Error::Fingerprint => ErrorView::Fingerprint,
            Error::Io(m) => ErrorView::Io(m@),
            Error::Metadata(m) => ErrorView::Metadata(m@),
            Error::Msg(m) => ErrorView::Msg(m@),
        }
    }
}

/// What a computation comes to, as a mathematical value.
pub open spec fn outcome<T: DeepView>(res: Result<T, Error>) -> Result<T::V, ErrorView> {
    match res {
        Ok(value) => Ok(value.deep_view()),
        Err(error) => Err(error.deep_view()),
    }
}

/// An error stands for what it is, with what the failed operation said.
pub proof fn law_error_stands_for_what_was_said(message: String)
    ensures
        Error::Fingerprint.deep_view() == ErrorView::Fingerprint,
        Error::Io(message).deep_view() == ErrorView::Io(message@),
        Error::Metadata(message).deep_view() == ErrorView::Metadata(message@),
        Error::Msg(message).deep_view() == ErrorView::Msg(message@),
{
}

/// A computation comes to its value or to its error.
pub proof fn law_outcome_is_value_or_error<T: DeepView>(value: T, error: Error)
    ensures
        outcome(Ok::<T, Error>(value)) == Ok::<T::V, ErrorView>(value.deep_view()),
        outcome(Err::<T, Error>(error)) == Err::<T::V, ErrorView>(error.deep_view()),
{
}

} // verus!
