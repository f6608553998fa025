//! Errors surfaced by the library.

use vstd::prelude::*;
use vstd::string::StringExecFns;

verus! {

/// What went wrong.
#[derive(Debug, Clone, Copy, PartialEq, Eq, Structural)]
pub enum ClachelessErrorKind {
    /// General failure. See message for details.
    Unspecified,
    /// Connectivity related problem. See message for details.
    Connection,
    /// The object could not be found.
    NotFound,
    /// The object is not in the expected format.
    Malformed,
}

/// Name of a kind, as it is shown in messages.
pub open spec fn kind_name(kind: ClachelessErrorKind) -> Seq<char> {
    match kind {
        ClachelessErrorKind::Unspecified => "Unspecified"@,
        ClachelessErrorKind::Connection => "Connection"@,
        ClachelessErrorKind::NotFound => "NotFound"@,
        ClachelessErrorKind::Malformed => "Malformed"@,
    }
}

impl ClachelessErrorKind {
    /// Create a new error of this kind with a message.
    pub fn error_with_msg(self, msg: &str) -> (r: ClachelessError)
        ensures
            r.kind == self,
            r.msg matches Some(m) && m@ == msg@,
    {
        ClachelessError { kind: self, msg: Some(String::from_str(msg)) }
    }

    /// Create a new error of this kind without a message.
    pub fn error(self) -> (r: ClachelessError)
        ensures
            r.kind == self,
            r.msg is None,
    {
        ClachelessError { kind: self, msg: None }
    }

    /// The name of this kind.
    pub fn name(&self) -> (r: &'static str)
        ensures
            r@ == kind_name(*self),
    {
        match self {
            ClachelessErrorKind::Unspecified => "Unspecified",
            ClachelessErrorKind::Connection => "Connection",
            ClachelessErrorKind::NotFound => "NotFound",
            ClachelessErrorKind::Malformed => "Malformed",
        }
    }
}

/// Library error: a kind and an optional message.
#[derive(Debug)]
pub struct ClachelessError {
    pub kind: ClachelessErrorKind,
    pub msg: Option<String>,
}

impl ClachelessError {
    /// Return the kind of error.
    pub fn kind(&self) -> (r: &ClachelessErrorKind)
        ensures
            *r == self.kind,
    {
        &self.kind
    }

    /// The text of this error: the kind's name, then the message if there is one.
    pub fn to_string(&self) -> (r: String)
        ensures
            r@ == match self.msg {
                Some(m) => kind_name(self.kind) + " "@ + m@,
                None => kind_name(self.kind),
            },
    {
        let name = String::from_str(self.kind.name());
        match &self.msg {
            Some(m) => name.concat(" ").concat(m.as_str()),
            None => name,
        }
    }
}

/// The HTTP status a client is answered with for an error of `kind`.
pub open spec fn http_status(kind: ClachelessErrorKind) -> u16 {
    match kind {
        ClachelessErrorKind::Malformed => 400,
        ClachelessErrorKind::NotFound => 404,
        _ => 500,
    }
}

/// Maps library errors to the status of the answer to a client.
pub struct ApiErrorMapper {}

impl ApiErrorMapper {
    /// The HTTP status for an error: 400 for malformed input, 404 for a
    /// missing entry, 500 otherwise.
    pub fn status_code(e: &ClachelessError) -> (r: u16)
        ensures
            r == http_status(e.kind),
    {
        match e.kind {
            ClachelessErrorKind::Malformed => 400,
            ClachelessErrorKind::NotFound => 404,
            _ => 500,
        }
    }
}

} // verus!
