//! The error type shared by every part of the engine.

use vstd::prelude::*;
use vstd::string::*;
use crate::text::{join2, join4};

verus! {

/// The error type for every fallible operation of the engine.
///
/// Frontends map the variants onto their own exceptions
/// (see [`crate::frontend::exception_class`]).
#[derive(Debug, PartialEq, Eq)]
pub enum OxitorchError {
    /// Tensor shapes do not agree (e.g. for a binary op).
    ShapeMismatch {
        /// Shape of the left-hand operand.
        lhs: String,
        /// Shape of the right-hand operand.
        rhs: String,
    },
    /// An argument was structurally wrong (bad dtype name, negative dim...).
    InvalidArgument(String),
    /// The feature is planned but not implemented yet (e.g. GPU devices).
    NotImplemented(String),
    /// The op would access memory outside a tensor's storage.
    OutOfBounds(String),
    /// Anything else that does not fit a specific variant.
    Other(String),
}

/// What an [`OxitorchError`] says: its variant and its texts.
pub enum ErrorText {
    ShapeMismatch { lhs: Seq<char>, rhs: Seq<char> },
    InvalidArgument(Seq<char>),
    NotImplemented(Seq<char>),
    OutOfBounds(Seq<char>),
    Other(Seq<char>),
}

impl View for OxitorchError {
    type V = ErrorText;

    open spec fn view(&self) -> ErrorText {
        match self {
            OxitorchError::ShapeMismatch { lhs, rhs } => ErrorText::ShapeMismatch {
                lhs: lhs@,
                rhs: rhs@,
            },
            OxitorchError::InvalidArgument(m) => ErrorText::InvalidArgument(m@),
            OxitorchError::NotImplemented(m) => ErrorText::NotImplemented(m@),
            OxitorchError::OutOfBounds(m) => ErrorText::OutOfBounds(m@),
            OxitorchError::Other(m) => ErrorText::Other(m@),
        }
    }
}

/// Convenient `Result` alias used across the crate.
pub type OxitorchResult<T> = Result<T, OxitorchError>;

impl ErrorText {
    /// The message shown to a user.
    pub open spec fn message(self) -> Seq<char> {
        match self {
            ErrorText::ShapeMismatch { lhs, rhs } => "shape mismatch: "@ + lhs + " vs "@ + rhs,
            ErrorText::InvalidArgument(m) => "invalid argument: "@ + m,
            ErrorText::NotImplemented(m) => "not implemented: "@ + m,
            ErrorText::OutOfBounds(m) => "out of bounds: "@ + m,
            ErrorText::Other(m) => m,
        }
    }
}

impl OxitorchError {
    /// The message shown to a user.
    pub fn to_string(&self) -> (r: String)
        ensures
            r@ == self@.message(),
    {
        match self {
            OxitorchError::ShapeMismatch { lhs, rhs } => join4(
                "shape mismatch: ",
                lhs.as_str(),
                " vs ",
                rhs.as_str(),
            ),
            OxitorchError::InvalidArgument(m) => join2("invalid argument: ", m.as_str()),
            OxitorchError::NotImplemented(m) => join2("not implemented: ", m.as_str()),
            OxitorchError::OutOfBounds(m) => join2("out of bounds: ", m.as_str()),
            OxitorchError::Other(m) => m.clone(),
        }
    }
}

impl Clone for OxitorchError {
    fn clone(&self) -> (r: Self)
        ensures
            r@ == self@,
    {
        match self {
            OxitorchError::ShapeMismatch { lhs, rhs } => OxitorchError::ShapeMismatch {
                lhs: lhs.clone(),
                rhs: rhs.clone(),
            },
            OxitorchError::InvalidArgument(m) => OxitorchError::InvalidArgument(m.clone()),
            OxitorchError::NotImplemented(m) => OxitorchError::NotImplemented(m.clone()),
            OxitorchError::OutOfBounds(m) => OxitorchError::OutOfBounds(m.clone()),
            OxitorchError::Other(m) => OxitorchError::Other(m.clone()),
        }
    }
}

/// Messages of different kinds of error begin differently, so that the kind
/// can be told.
pub proof fn law_messages_tell_kinds(a: ErrorText, b: ErrorText)
    requires
        !(a is Other),
        !(b is Other),
        a.message() == b.message(),
    ensures
        a is ShapeMismatch <==> b is ShapeMismatch,
        a is InvalidArgument <==> b is InvalidArgument,
        a is NotImplemented <==> b is NotImplemented,
        a is OutOfBounds <==> b is OutOfBounds,
{
    reveal_strlit("shape mismatch: ");
    reveal_strlit(" vs ");
    reveal_strlit("invalid argument: ");
    reveal_strlit("not implemented: ");
    reveal_strlit("out of bounds: ");
    lemma_first_letter(a);
    lemma_first_letter(b);
}

/// The letter that a message begins with.
proof fn lemma_first_letter(a: ErrorText)
    ensures
        a is ShapeMismatch ==> a.message()[0] == 's',
        a is InvalidArgument ==> a.message()[0] == 'i',
        a is NotImplemented ==> a.message()[0] == 'n',
        a is OutOfBounds ==> a.message()[0] == 'o',
{
    reveal_strlit("shape mismatch: ");
    reveal_strlit(" vs ");
    reveal_strlit("invalid argument: ");
    reveal_strlit("not implemented: ");
    reveal_strlit("out of bounds: ");
}

} // verus!
