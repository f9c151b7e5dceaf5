//! The library's errors, their messages, and the Python exception class
//! that each of them raises.

use vstd::prelude::*;

verus! {

/// What can go wrong when a model is loaded or run.
#[derive(Debug)]
pub enum AmErr {
    /// An input/output failure, with the text of the underlying error.
    Io(String),
    /// The configuration could not be loaded; the text says why.
    Config(String),
    /// The model computation failed; the text says why.
    Compute(String),
}

/// The Python exception classes that errors are raised as; both derive
/// from the base class `AmError`.
#[derive(Debug, Clone, Copy, PartialEq, Eq, Structural)]
pub enum ExceptionClass {
    /// `ConfigError`: an `.amc` configuration could not be loaded.
    ConfigError,
    /// `ComputeError`: the model computation failed.
    ComputeError,
}

/// `"I/O error: "`, the head of the message of an input/output error.
pub open spec fn io_error_head() -> Seq<char> {
    "I/O error: "@
}

/// The message of an error, as it is displayed.
pub open spec fn message(e: AmErr) -> Seq<char> {
    match e {
        AmErr::Io(m) => io_error_head() + m@,
        AmErr::Config(m) => m@,
        AmErr::Compute(m) => m@,
    }
}

/// The exception class and text that an error is raised with in Python:
/// an input/output error raises `ConfigError` with the underlying error's
/// own text.
pub open spec fn exception(e: AmErr) -> (ExceptionClass, Seq<char>) {
    match e {
        AmErr::Io(m) => (ExceptionClass::ConfigError, m@),
        AmErr::Config(m) => (ExceptionClass::ConfigError, m@),
        AmErr::Compute(m) => (ExceptionClass::ComputeError, m@),
    }
}

impl AmErr {
    /// The message of the error (see `message`).
    pub fn to_string(&self) -> (r: String)
        ensures
            r@ == message(*self),
    {
        match self {
            AmErr::Io(m) => {
                let mut r = String::from_str("I/O error: ");
                r.append(m.as_str());
                r
            },
            AmErr::Config(m) => m.clone(),
            AmErr::Compute(m) => m.clone(),
        }
    }

    /// The exception class and text that the error is raised with in Python
    /// (see `exception`).
    pub fn to_exception(&self) -> (r: (ExceptionClass, String))
        ensures
            r.0 == exception(*self).0,
            r.1@ == exception(*self).1,
    {
        match self {
            AmErr::Io(m) => (ExceptionClass::ConfigError, m.clone()),
            AmErr::Config(m) => (ExceptionClass::ConfigError, m.clone()),
            AmErr::Compute(m) => (ExceptionClass::ComputeError, m.clone()),
        }
    }
}

} // verus!
