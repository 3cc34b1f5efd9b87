//! The failures that the library reports.

use crate::text::push_str;
use vstd::prelude::*;

verus! {

/// Every failure carries two texts: where it arose and what went wrong.
#[derive(Debug, PartialEq, Eq)]
pub enum Error {
    /// The text is not JSON.
    ParseFail(String, String),
    /// The two values cannot be added.
    AddFail(String, String),
    /// The two values cannot be subtracted.
    SubFail(String, String),
    /// The two values cannot be multiplied.
    MulFail(String, String),
    /// The two values cannot be divided.
    DivFail(String, String),
    /// No remainder is defined for the two values.
    RemFail(String, String),
    /// The value cannot be negated.
    NegFail(String, String),
    /// The two values cannot be shifted left.
    ShlFail(String, String),
    /// The two values cannot be shifted right.
    ShrFail(String, String),
    /// An array index lies outside the array.
    IndexOutofBound(String, String),
    /// A path fragment that addresses an array is not an integer.
    InvalidIndex(String, String),
    /// An array operation met a value that is no array.
    NotAnArray(String, String),
    /// A lookup met a value that is neither array nor object.
    InvalidContainer(String, String),
    /// A value has another type than the one asked for.
    InvalidType(String, String),
    /// An object has no member under the key.
    PropertyNotFound(String, String),
    /// Something other than a string was appended to a string.
    AppendString(String, String),
    /// A number's text does not denote a number.
    InvalidNumber(String, String),
    /// A JSON pointer is malformed.
    JptrFail(String, String),
    /// The source of a stream of documents failed.
    IoError(String, String),
}

/// Which failure an [`Error`] is, without its texts.
#[derive(Clone, Copy, Debug, PartialEq, Eq, Structural)]
pub enum ErrorKind {
    ParseFail,
    AddFail,
    SubFail,
    MulFail,
    DivFail,
    RemFail,
    NegFail,
    ShlFail,
    ShrFail,
    IndexOutofBound,
    InvalidIndex,
    NotAnArray,
    InvalidContainer,
    InvalidType,
    PropertyNotFound,
    AppendString,
    InvalidNumber,
    JptrFail,
    IoError,
}

/// An error as plain data: its kind and the characters of its two texts.
pub struct ErrorView {
    pub kind: ErrorKind,
    pub origin: Seq<char>,
    pub message: Seq<char>,
}

impl ErrorKind {
    /// The name under which the kind appears in a rendered error.
    pub open spec fn spec_name(self) -> Seq<char> {
        match self {
            ErrorKind::ParseFail => "ParseFail"@,
            ErrorKind::AddFail => "AddFail"@,
            ErrorKind::SubFail => "SubFail"@,
            ErrorKind::MulFail => "MulFail"@,
            ErrorKind::DivFail => "DivFail"@,
            ErrorKind::RemFail => "RemFail"@,
            ErrorKind::NegFail => "NegFail"@,
            ErrorKind::ShlFail => "ShlFail"@,
            ErrorKind::ShrFail => "ShrFail"@,
            ErrorKind::IndexOutofBound => "IndexOutofBound"@,
            ErrorKind::InvalidIndex => "InvalidIndex"@,
            ErrorKind::NotAnArray => "NotAnArray"@,
            ErrorKind::InvalidContainer => "InvalidContainer"@,
            ErrorKind::InvalidType => "InvalidType"@,
            ErrorKind::PropertyNotFound => "PropertyNotFound"@,
            ErrorKind::AppendString => "AppendString"@,
            ErrorKind::InvalidNumber => "InvalidNumber"@,
            ErrorKind::JptrFail => "JptrFail"@,
            ErrorKind::IoError => "IoError"@,
        }
    }

    /// The name of the kind.
    pub fn name(self) -> (r: &'static str)
        ensures
            r@ == self.spec_name(),
    {
        match self {
            ErrorKind::ParseFail => "ParseFail",
            ErrorKind::AddFail => "AddFail",
            ErrorKind::SubFail => "SubFail",
            ErrorKind::MulFail => "MulFail",
            ErrorKind::DivFail => "DivFail",
            ErrorKind::RemFail => "RemFail",
            ErrorKind::NegFail => "NegFail",
            ErrorKind::ShlFail => "ShlFail",
            ErrorKind::ShrFail => "ShrFail",
            ErrorKind::IndexOutofBound => "IndexOutofBound",
            ErrorKind::InvalidIndex => "InvalidIndex",
            ErrorKind::NotAnArray => "NotAnArray",
            ErrorKind::InvalidContainer => "InvalidContainer",
            ErrorKind::InvalidType => "InvalidType",
            ErrorKind::PropertyNotFound => "PropertyNotFound",
            ErrorKind::AppendString => "AppendString",
            ErrorKind::InvalidNumber => "InvalidNumber",
            ErrorKind::JptrFail => "JptrFail",
            ErrorKind::IoError => "IoError",
        }
    }
}

impl View for Error {
    type V = ErrorView;

    open spec fn view(&self) -> ErrorView {
        match self {
            Error::ParseFail(p, m) => ErrorView {
                kind: ErrorKind::ParseFail,
                origin: p@,
                message: m@,
            },
            Error::AddFail(p, m) => ErrorView { kind: ErrorKind::AddFail, origin: p@, message: m@ },
            Error::SubFail(p, m) => ErrorView { kind: ErrorKind::SubFail, origin: p@, message: m@ },
            Error::MulFail(p, m) => ErrorView { kind: ErrorKind::MulFail, origin: p@, message: m@ },
            Error::DivFail(p, m) => ErrorView { kind: ErrorKind::DivFail, origin: p@, message: m@ },
            Error::RemFail(p, m) => ErrorView { kind: ErrorKind::RemFail, origin: p@, message: m@ },
            Error::NegFail(p, m) => ErrorView { kind: ErrorKind::NegFail, origin: p@, message: m@ },
            Error::ShlFail(p, m) => ErrorView { kind: ErrorKind::ShlFail, origin: p@, message: m@ },
            Error::ShrFail(p, m) => ErrorView { kind: ErrorKind::ShrFail, origin: p@, message: m@ },
            Error::IndexOutofBound(p, m) => ErrorView {
                kind: ErrorKind::IndexOutofBound,
                origin: p@,
                message: m@,
            },
            Error::InvalidIndex(p, m) => ErrorView {
                kind: ErrorKind::InvalidIndex,
                origin: p@,
                message: m@,
            },
            Error::NotAnArray(p, m) => ErrorView {
                kind: ErrorKind::NotAnArray,
                origin: p@,
                message: m@,
            },
            Error::InvalidContainer(p, m) => ErrorView {
                kind: ErrorKind::InvalidContainer,
                origin: p@,
                message: m@,
            },
            Error::InvalidType(p, m) => ErrorView {
                kind: ErrorKind::InvalidType,
                origin: p@,
                message: m@,
            },
            Error::PropertyNotFound(p, m) => ErrorView {
                kind: ErrorKind::PropertyNotFound,
                origin: p@,
                message: m@,
            },
            Error::AppendString(p, m) => ErrorView {
                kind: ErrorKind::AppendString,
                origin: p@,
                message: m@,
            },
            Error::InvalidNumber(p, m) => ErrorView {
                kind: ErrorKind::InvalidNumber,
                origin: p@,
                message: m@,
            },
            Error::JptrFail(p, m) => ErrorView {
                kind: ErrorKind::JptrFail,
                origin: p@,
                message: m@,
            },
            Error::IoError(p, m) => ErrorView { kind: ErrorKind::IoError, origin: p@, message: m@ },
        }
    }
}

impl Clone for Error {
    fn clone(&self) -> (r: Error)
        ensures
            r@ == self@,
    {
        Error::make(self.kind(), self.origin(), self.message())
    }
}

impl Error {
    /// Builds the error of the given kind from its two texts.
    pub fn make(kind: ErrorKind, origin: &str, message: &str) -> (r: Error)
        ensures
            r@ == (ErrorView { kind, origin: origin@, message: message@ }),
    {
        let p = origin.to_owned();
        let m = message.to_owned();
        match kind {
            ErrorKind::ParseFail => Error::ParseFail(p, m),
            ErrorKind::AddFail => Error::AddFail(p, m),
            ErrorKind::SubFail => Error::SubFail(p, m),
            ErrorKind::MulFail => Error::MulFail(p, m),
            ErrorKind::DivFail => Error::DivFail(p, m),
            ErrorKind::RemFail => Error::RemFail(p, m),
            ErrorKind::NegFail => Error::NegFail(p, m),
            ErrorKind::ShlFail => Error::ShlFail(p, m),
            ErrorKind::ShrFail => Error::ShrFail(p, m),
            ErrorKind::IndexOutofBound => Error::IndexOutofBound(p, m),
            ErrorKind::InvalidIndex => Error::InvalidIndex(p, m),
            ErrorKind::NotAnArray => Error::NotAnArray(p, m),
            ErrorKind::InvalidContainer => Error::InvalidContainer(p, m),
            ErrorKind::InvalidType => Error::InvalidType(p, m),
            ErrorKind::PropertyNotFound => Error::PropertyNotFound(p, m),
            ErrorKind::AppendString => Error::AppendString(p, m),
            ErrorKind::InvalidNumber => Error::InvalidNumber(p, m),
            ErrorKind::JptrFail => Error::JptrFail(p, m),
            ErrorKind::IoError => Error::IoError(p, m),
        }
    }

    /// Which failure it is.
    pub fn kind(&self) -> (r: ErrorKind)
        ensures
            r == self@.kind,
    {
        match self {
            Error::ParseFail(_, _) => ErrorKind::ParseFail,
            Error::AddFail(_, _) => ErrorKind::AddFail,
            Error::SubFail(_, _) => ErrorKind::SubFail,
            Error::MulFail(_, _) => ErrorKind::MulFail,
            Error::DivFail(_, _) => ErrorKind::DivFail,
            Error::RemFail(_, _) => ErrorKind::RemFail,
            Error::NegFail(_, _) => ErrorKind::NegFail,
            Error::ShlFail(_, _) => ErrorKind::ShlFail,
            Error::ShrFail(_, _) => ErrorKind::ShrFail,
            Error::IndexOutofBound(_, _) => ErrorKind::IndexOutofBound,
            Error::InvalidIndex(_, _) => ErrorKind::InvalidIndex,
            Error::NotAnArray(_, _) => ErrorKind::NotAnArray,
            Error::InvalidContainer(_, _) => ErrorKind::InvalidContainer,
            Error::InvalidType(_, _) => ErrorKind::InvalidType,
            Error::PropertyNotFound(_, _) => ErrorKind::PropertyNotFound,
            Error::AppendString(_, _) => ErrorKind::AppendString,
            Error::InvalidNumber(_, _) => ErrorKind::InvalidNumber,
            Error::JptrFail(_, _) => ErrorKind::JptrFail,
            Error::IoError(_, _) => ErrorKind::IoError,
        }
    }

    /// Where the failure arose.
    pub fn origin(&self) -> (r: &str)
        ensures
            r@ == self@.origin,
    {
        match self {
            Error::ParseFail(p, _) => p.as_str(),
            Error::AddFail(p, _) => p.as_str(),
            Error::SubFail(p, _) => p.as_str(),
            Error::MulFail(p, _) => p.as_str(),
            Error::DivFail(p, _) => p.as_str(),
            Error::RemFail(p, _) => p.as_str(),
            Error::NegFail(p, _) => p.as_str(),
            Error::ShlFail(p, _) => p.as_str(),
            Error::ShrFail(p, _) => p.as_str(),
            Error::IndexOutofBound(p, _) => p.as_str(),
            Error::InvalidIndex(p, _) => p.as_str(),
            Error::NotAnArray(p, _) => p.as_str(),
            Error::InvalidContainer(p, _) => p.as_str(),
            Error::InvalidType(p, _) => p.as_str(),
            Error::PropertyNotFound(p, _) => p.as_str(),
            Error::AppendString(p, _) => p.as_str(),
            Error::InvalidNumber(p, _) => p.as_str(),
            Error::JptrFail(p, _) => p.as_str(),
            Error::IoError(p, _) => p.as_str(),
        }
    }

    /// What went wrong.
    pub fn message(&self) -> (r: &str)
        ensures
            r@ == self@.message,
    {
        match self {
            Error::ParseFail(_, m) => m.as_str(),
            Error::AddFail(_, m) => m.as_str(),
            Error::SubFail(_, m) => m.as_str(),
            Error::MulFail(_, m) => m.as_str(),
            Error::DivFail(_, m) => m.as_str(),
            Error::RemFail(_, m) => m.as_str(),
            Error::NegFail(_, m) => m.as_str(),
            Error::ShlFail(_, m) => m.as_str(),
            Error::ShrFail(_, m) => m.as_str(),
            Error::IndexOutofBound(_, m) => m.as_str(),
            Error::InvalidIndex(_, m) => m.as_str(),
            Error::NotAnArray(_, m) => m.as_str(),
            Error::InvalidContainer(_, m) => m.as_str(),
            Error::InvalidType(_, m) => m.as_str(),
            Error::PropertyNotFound(_, m) => m.as_str(),
            Error::AppendString(_, m) => m.as_str(),
            Error::InvalidNumber(_, m) => m.as_str(),
            Error::JptrFail(_, m) => m.as_str(),
            Error::IoError(_, m) => m.as_str(),
        }
    }

    /// The rendering of an error: origin, a space, the kind's name, a colon
    /// and the message.
    pub open spec fn spec_text(e: ErrorView) -> Seq<char> {
        e.origin + " "@ + e.kind.spec_name() + ":"@ + e.message
    }

    /// Renders the error on one line.
    pub fn to_text(&self) -> (r: String)
        ensures
            r@ == Self::spec_text(self@),
    {
        let mut out = String::new();
        push_str(&mut out, self.origin());
        push_str(&mut out, " ");
        push_str(&mut out, self.kind().name());
        push_str(&mut out, ":");
        push_str(&mut out, self.message());
        assert(out@ =~= Self::spec_text(self@));
        out
    }
}

} // verus!
