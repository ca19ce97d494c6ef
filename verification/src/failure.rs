//! The one error type of the library: a kind, and the words for the user.
use vstd::prelude::*;

verus! {

/// What kind of failure it is. The names are those of `std::io::ErrorKind`.
#[derive(Clone, Copy, Debug, PartialEq, Eq, Structural)]
pub enum ErrorKind {
    NotFound,
    AlreadyExists,
    WouldBlock,
    InvalidInput,
    InvalidData,
    TimedOut,
    Other,
}

/// A failure: its kind, and the words in which it is reported.
#[derive(Debug)]
pub struct Failure {
    pub kind: ErrorKind,
    pub message: String,
}

/// What a [`Failure`] holds.
pub struct FailureView {
    pub kind: ErrorKind,
    pub message: Seq<char>,
}

impl DeepView for Failure {
    type V = FailureView;

    open spec fn deep_view(&self) -> FailureView {
        FailureView { kind: self.kind, message: self.message@ }
    }
}

impl Failure {
    /// A failure of the given kind with the given words.
    pub fn new(kind: ErrorKind, message: String) -> (r: Failure)
        ensures
            r.deep_view() == (FailureView { kind, message: message@ }),
    {
        Failure { kind, message }
    }

    /// The kind of the failure.
    pub fn kind(&self) -> (r: ErrorKind)
        ensures
            r == self.deep_view().kind,
    {
        self.kind
    }
}

impl Clone for Failure {
    fn clone(&self) -> (r: Failure)
        ensures
            r.deep_view() == self.deep_view(),
    {
        Failure { kind: self.kind, message: self.message.clone() }
    }
}

/// What a result holds, where the values of both sides are taken by what they
/// hold.
pub open spec fn outcome<T: DeepView>(r: Result<T, Failure>) -> Result<T::V, FailureView> {
    match r {
        Ok(value) => Ok(value.deep_view()),
        Err(failure) => Err(failure.deep_view()),
    }
}

} // verus!
