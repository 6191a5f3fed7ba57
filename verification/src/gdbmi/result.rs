//! Error and result types returned by operations on GDB.

use crate::text::{debug_quoted, debug_text, push_str, string_from_chars};
use vstd::prelude::*;

verus! {

/// Describes an error in communication with GDB.
#[derive(Debug)]
pub enum Error {
    /// Input or output failed; holds the description of the failure.
    IOError(String),
    /// GDB has responded with an error.
    ErrorResponse(ErrorResponse),
    /// GDB has returned a malformed or unexpected response, or no response at all.
    BadResponse(BadResponse),
}

/// Describes an error in processing a response returned by GDB.
#[derive(Clone, PartialEq, Eq, Debug)]
pub enum BadResponse {
    /// Response was not a valid GDB/MI output.
    SyntaxError(String),
    /// Response should have contained a result record, but it did not.
    MissingResultRecord,
    /// Result record of the response has an unexpected result class.
    UnexpectedResultClass(String),
    /// Response payload was missing an expected property.
    MissingKey(String),
    /// A property in a response payload had a different type than expected.
    BadValueType,
    /// A property in a response payload did not have the correct value.
    BadValue(String),
}

/// Result record from GDB that indicates an error.
#[derive(Clone, PartialEq, Eq, Debug)]
pub struct ErrorResponse {
    /// Message that describes the error, if provided.
    pub msg: Option<String>,
}

/// Model of a [`BadResponse`].
pub enum SpecBadResponse {
    SyntaxError(Seq<char>),
    MissingResultRecord,
    UnexpectedResultClass(Seq<char>),
    MissingKey(Seq<char>),
    BadValueType,
    BadValue(Seq<char>),
}

impl View for BadResponse {
    type V = SpecBadResponse;

    open spec fn view(&self) -> SpecBadResponse {
        match self {
            BadResponse::SyntaxError(s) => SpecBadResponse::SyntaxError(s@),
            BadResponse::MissingResultRecord => SpecBadResponse::MissingResultRecord,
            BadResponse::UnexpectedResultClass(s) => SpecBadResponse::UnexpectedResultClass(s@),
            BadResponse::MissingKey(s) => SpecBadResponse::MissingKey(s@),
            BadResponse::BadValueType => SpecBadResponse::BadValueType,
            BadResponse::BadValue(s) => SpecBadResponse::BadValue(s@),
        }
    }
}

/// Model of an [`Error`] that GDB's responses can cause.
pub enum SpecError {
    IOError(Seq<char>),
    ErrorResponse(Option<Seq<char>>),
    BadResponse(SpecBadResponse),
}

impl View for Error {
    type V = SpecError;

    open spec fn view(&self) -> SpecError {
        match self {
            Error::IOError(s) => SpecError::IOError(s@),
            Error::ErrorResponse(e) => SpecError::ErrorResponse(
                match e.msg {
                    Some(m) => Some(m@),
                    None => None,
                },
            ),
            Error::BadResponse(b) => SpecError::BadResponse(b@),
        }
    }
}

/// Text that describes a bad response; a response or value that could not
/// be read is shown as `Debug` formatting writes a string.
pub open spec fn bad_response_message(b: BadResponse) -> Seq<char> {
    match b {
        BadResponse::SyntaxError(s) => "failed to parse record: "@ + debug_text(s@),
        BadResponse::MissingResultRecord => "response did not contain a result record"@,
        BadResponse::UnexpectedResultClass(c) => "unexpected result class: "@ + c@,
        BadResponse::MissingKey(k) => "missing property: "@ + k@,
        BadResponse::BadValueType => "property does not have the expected type"@,
        BadResponse::BadValue(v) => "property has unexpected value "@ + debug_text(v@),
    }
}

impl BadResponse {
    /// Text that describes the bad response.
    pub fn message(&self) -> (r: String)
        ensures
            r@ == bad_response_message(*self),
    {
        let mut out: Vec<char> = Vec::new();
        match self {
            BadResponse::SyntaxError(s) => {
                push_str(&mut out, "failed to parse record: ");
                push_str(&mut out, debug_quoted(s.as_str()).as_str());
            },
            BadResponse::MissingResultRecord => push_str(&mut out, "response did not contain a result record"),
            BadResponse::UnexpectedResultClass(c) => {
                push_str(&mut out, "unexpected result class: ");
                push_str(&mut out, c.as_str());
            },
            BadResponse::MissingKey(k) => {
                push_str(&mut out, "missing property: ");
                push_str(&mut out, k.as_str());
            },
            BadResponse::BadValueType => push_str(&mut out, "property does not have the expected type"),
            BadResponse::BadValue(v) => {
                push_str(&mut out, "property has unexpected value ");
                push_str(&mut out, debug_quoted(v.as_str()).as_str());
            },
        }
        string_from_chars(&out)
    }
}

impl Error {
    /// Text that describes the error.
    pub fn message(&self) -> (r: String)
        ensures
            self matches Error::IOError(d) ==> r@ == "io error: "@ + d@,
            self matches Error::ErrorResponse(e) ==> r@ == "error response from gdb: "@ + match e.msg {
                Some(m) => m@,
                None => "(no description provided)"@,
            },
            self matches Error::BadResponse(b) ==> r@ == "gdb returned unexpected response: "@
                + bad_response_message(*b),
    {
        let mut out: Vec<char> = Vec::new();
        match self {
            Error::IOError(d) => {
                push_str(&mut out, "io error: ");
                push_str(&mut out, d.as_str());
            },
            Error::ErrorResponse(e) => {
                push_str(&mut out, "error response from gdb: ");
                push_str(&mut out, e.description().as_str());
            },
            Error::BadResponse(b) => {
                push_str(&mut out, "gdb returned unexpected response: ");
                push_str(&mut out, b.message().as_str());
            },
        }
        string_from_chars(&out)
    }
}

impl ErrorResponse {
    /// Text that describes the error: its message, or a placeholder if GDB gave none.
    pub fn description(&self) -> (r: String)
        ensures
            self.msg matches Some(m) ==> r@ == m@,
            self.msg is None ==> r@ == "(no description provided)"@,
    {
        match &self.msg {
            Some(m) => m.clone(),
            None => String::from_str("(no description provided)"),
        }
    }
}

} // verus!
