//! The error the library reports: a kind, at times a message given at
//! construction, at times the description of an underlying cause.

use vstd::prelude::*;

verus! {

/// The class of a failure: a value that could not be resolved, a storage
/// failure underneath, or anything else.
#[derive(Clone, Debug, PartialEq, Eq, Structural)]
pub enum ErrorKind {
    InvalidData,
    Io,
    Other,
}

impl ErrorKind {
    /// The kind's name, as displaying it shows.
    pub open spec fn describe_spec(&self) -> Seq<char> {
        match *self {
            ErrorKind::InvalidData => "InvalidData"@,
            ErrorKind::Io => "Io"@,
            ErrorKind::Other => "Other"@,
        }
    }

    /// Renders the kind's name.
    pub fn describe(&self) -> (r: String)
        ensures
            r@ == self.describe_spec(),
    {
        match *self {
            ErrorKind::InvalidData => String::from_str("InvalidData"),
            ErrorKind::Io => String::from_str("Io"),
            ErrorKind::Other => String::from_str("Other"),
        }
    }
}

#[derive(Debug)]
enum Repr {
    Simple(ErrorKind),
    SimpleMessage(ErrorKind, String),
    Custom(ErrorKind, String),
    #[allow(dead_code)]
    CustomMessage(ErrorKind, String, String),
}

/// A failure: its kind, and how it came about.
#[derive(Debug)]
pub struct Error {
    repr: Repr,
}

impl Error {
    /// The kind this error was constructed with.
    pub closed spec fn kind_spec(&self) -> ErrorKind {
        match self.repr {
            Repr::Simple(kind) => kind,
            Repr::SimpleMessage(kind, _) => kind,
            Repr::Custom(kind, _) => kind,
            Repr::CustomMessage(kind, _, _) => kind,
        }
    }

    /// The message given when this error was constructed, if any. An error
    /// built over a cause alone carries none.
    pub closed spec fn message_spec(&self) -> Option<Seq<char>> {
        match self.repr {
            Repr::SimpleMessage(_, message) => Some(message@),
            Repr::CustomMessage(_, _, message) => Some(message@),
            _ => None,
        }
    }

    /// What displaying the error shows: its message, or its cause's
    /// description, or — bare — its kind's name.
    pub closed spec fn describe_spec(&self) -> Seq<char> {
        match self.repr {
            Repr::Simple(kind) => kind.describe_spec(),
            Repr::SimpleMessage(_, message) => message@,
            Repr::Custom(_, cause) => cause@,
            Repr::CustomMessage(_, _, message) => message@,
        }
    }

    /// The description of the underlying cause, if this error was built
    /// over one.
    pub closed spec fn cause_spec(&self) -> Option<Seq<char>> {
        match self.repr {
            Repr::Custom(_, cause) => Some(cause@),
            Repr::CustomMessage(_, cause, _) => Some(cause@),
            _ => None,
        }
    }

    /// Constructs a new `Error` recording the description of an underlying
    /// cause.
    pub fn new(kind: ErrorKind, error: String) -> (r: Self)
        ensures
            r.kind_spec() == kind,
            r.message_spec() is None,
            r.cause_spec() == Some(error@),
            r.describe_spec() == error@,
    {
        Self { repr: Repr::Custom(kind, error) }
    }

    /// The [`ErrorKind`] of this `Error`.
    pub fn kind(&self) -> (r: &ErrorKind)
        ensures
            *r == self.kind_spec(),
    {
        match &self.repr {
            Repr::Simple(kind) => kind,
            Repr::SimpleMessage(kind, _) => kind,
            Repr::Custom(kind, _) => kind,
            Repr::CustomMessage(kind, _, _) => kind,
        }
    }

    /// The message provided when this `Error` was constructed, or `None`.
    pub fn message(&self) -> (r: Option<&str>)
        ensures
            (match r {
                Some(message) => self.message_spec() == Some(message@),
                None => self.message_spec() is None,
            }),
    {
        match &self.repr {
            Repr::SimpleMessage(_, message) => Some(message.as_str()),
            Repr::CustomMessage(_, _, message) => Some(message.as_str()),
            _ => None,
        }
    }

    /// Constructs an `Error` carrying a message.
    #[must_use]
    pub fn with_message(kind: ErrorKind, message: String) -> (r: Self)
        ensures
            r.kind_spec() == kind,
            r.message_spec() == Some(message@),
            r.cause_spec() is None,
            r.describe_spec() == message@,
    {
        Self { repr: Repr::SimpleMessage(kind, message) }
    }

    /// Constructs an `Error` whose message is produced on demand.
    #[must_use]
    pub fn with_message_fn<F: FnOnce() -> String>(kind: ErrorKind, message: F) -> (r: Self)
        requires
            call_requires(message, ()),
        ensures
            r.kind_spec() == kind,
            r.cause_spec() is None,
            exists|s: String|
                #[trigger] call_ensures(message, (), s) && r.message_spec() == Some(s@)
                    && r.describe_spec() == s@,
    {
        let s = message();
        Self { repr: Repr::SimpleMessage(kind, s) }
    }

    /// The description of the underlying cause of this `Error`, or `None`
    /// for an error that was not built over one.
    pub fn source(&self) -> (r: Option<&str>)
        ensures
            (match r {
                Some(cause) => self.cause_spec() == Some(cause@),
                None => self.cause_spec() is None,
            }),
    {
        match &self.repr {
            Repr::Custom(_, cause) => Some(cause.as_str()),
            Repr::CustomMessage(_, cause, _) => Some(cause.as_str()),
            _ => None,
        }
    }

    /// Renders what displaying the error shows.
    pub fn describe(&self) -> (r: String)
        ensures
            r@ == self.describe_spec(),
    {
        match &self.repr {
            Repr::Simple(kind) => kind.describe(),
            Repr::SimpleMessage(_, message) => message.clone(),
            Repr::Custom(_, cause) => cause.clone(),
            Repr::CustomMessage(_, _, message) => message.clone(),
        }
    }
}

impl From<ErrorKind> for Error {
    /// A bare error of the given kind, without message or cause.
    fn from(kind: ErrorKind) -> (r: Self) {
        Self { repr: Repr::Simple(kind) }
    }
}

impl vstd::std_specs::convert::FromSpecImpl<ErrorKind> for Error {
    open spec fn obeys_from_spec() -> bool {
        true
    }

    closed spec fn from_spec(kind: ErrorKind) -> Error {
        Error { repr: Repr::Simple(kind) }
    }
}

/// What converting a bare kind yields: an error of that kind, with no
/// message and no cause, displayed as the kind's name.
pub proof fn lemma_from_kind(kind: ErrorKind)
    ensures
        ({
            let e = <Error as vstd::std_specs::convert::FromSpec<ErrorKind>>::from_spec(kind);
            e.kind_spec() == kind && e.message_spec() is None && e.cause_spec() is None
                && e.describe_spec() == kind.describe_spec()
        }),
{
}

} // verus!
