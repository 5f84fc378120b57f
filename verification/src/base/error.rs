//! The error type shared by every stage of the generator.
use vstd::prelude::*;
use crate::base::text::{chars_of, dec, push_chars, push_radix, push_str, string_of};

verus! {

#[derive(Debug, Clone)]
pub enum Error {
    Parse { message: String, line: usize, col: usize },
    Io(String),
    Config(String),
    Internal(String),
    Other(String),
}

pub type Result<T> = std::result::Result<T, Error>;

/// The text that `Error::to_string` renders for `e`.
pub open spec fn display(e: Error) -> Seq<char> {
    match e {
        Error::Parse { message, line, col } => "Parse error at line "@ + dec(line as nat)
            + ", col "@ + dec(col as nat) + ": "@ + message@,
        Error::Io(msg) => "IO error: "@ + msg@,
        Error::Config(msg) => "Configuration error: "@ + msg@,
        Error::Internal(msg) => "Internal error: "@ + msg@,
        Error::Other(msg) => "Error: "@ + msg@,
    }
}

impl Error {
    pub fn parse(message: String, line: usize, col: usize) -> (e: Self)
        ensures
            e == (Error::Parse { message, line, col }),
    {
        Error::Parse { message, line, col }
    }

    pub fn io(message: String) -> (e: Self)
        ensures
            e == Error::Io(message),
    {
        Error::Io(message)
    }

    pub fn config(message: String) -> (e: Self)
        ensures
            e == Error::Config(message),
    {
        Error::Config(message)
    }

    pub fn internal(message: String) -> (e: Self)
        ensures
            e == Error::Internal(message),
    {
        Error::Internal(message)
    }

    pub fn other(message: String) -> (e: Self)
        ensures
            e == Error::Other(message),
    {
        Error::Other(message)
    }

    /// The human-readable rendering of the error.
    pub fn to_string(&self) -> (s: String)
        ensures
            s@ == display(*self),
    {
        let mut out: Vec<char> = Vec::new();
        match self {
            Error::Parse { message, line, col } => {
                push_str(&mut out, "Parse error at line ");
                push_radix(&mut out, *line as u64, 10);
                push_str(&mut out, ", col ");
                push_radix(&mut out, *col as u64, 10);
                push_str(&mut out, ": ");
                push_chars(&mut out, &chars_of(message.as_str()));
            },
            Error::Io(msg) => {
                push_str(&mut out, "IO error: ");
                push_chars(&mut out, &chars_of(msg.as_str()));
            },
            Error::Config(msg) => {
                push_str(&mut out, "Configuration error: ");
                push_chars(&mut out, &chars_of(msg.as_str()));
            },
            Error::Internal(msg) => {
                push_str(&mut out, "Internal error: ");
                push_chars(&mut out, &chars_of(msg.as_str()));
            },
            Error::Other(msg) => {
                push_str(&mut out, "Error: ");
                push_chars(&mut out, &chars_of(msg.as_str()));
            },
        }
        string_of(out.as_slice())
    }
}

} // verus!
