//! Failures that stop a run.
//!
//! An [`Error`] means the run could not be carried out: a file could not be
//! read, a document could not be parsed. It never means "the target disagreed
//! with the declaration": disagreement is an ordinary outcome carried by
//! [`Decision::Refuse`](crate::policy::Decision::Refuse), and conflating the two
//! would make a drift check unable to distinguish a difference from a crash.

use crate::text::{concat, IntoText};
use vstd::prelude::*;

verus! {

/// The reason an input or output operation failed.
#[verifier::external_type_specification]
#[verifier::external_body]
pub struct ExIoError(std::io::Error);

/// A failure that prevents the run from completing.
#[derive(Debug)]
pub enum Error {
    /// A file could not be read or written.
    Io {
        /// The file being accessed.
        path: String,
        /// The underlying failure.
        source: std::io::Error,
    },
    /// A document could not be parsed in the format its adapter expects.
    Parse {
        /// The file being parsed.
        path: String,
        /// What the parser reported.
        message: String,
    },
    /// The input is well-formed but cannot be operated on: a declaration naming
    /// a path that does not exist in the fragment, a missing target path where
    /// one is required.
    Invalid(String),
}

/// What an [`Error`] says.
pub enum Failure {
    /// A file could not be read or written.
    Io {
        /// The file being accessed.
        path: Seq<char>,
        /// The underlying failure.
        source: std::io::Error,
    },
    /// A document could not be parsed.
    Parse {
        /// The file being parsed.
        path: Seq<char>,
        /// What the parser reported.
        message: Seq<char>,
    },
    /// An input that cannot be operated on.
    Invalid(Seq<char>),
}

impl View for Error {
    type V = Failure;

    open spec fn view(&self) -> Failure {
        match self {
            Error::Io { path, source } => Failure::Io { path: path@, source: *source },
            Error::Parse { path, message } => Failure::Parse { path: path@, message: message@ },
            Error::Invalid(message) => Failure::Invalid(message@),
        }
    }
}

/// The text [`std::io::Error`] displays, by way of [`ToString::to_string`].
/// Nothing is said of it: where the error comes from the operating system, its
/// wording is the system's own.
#[verifier::external_body]
fn io_error_text(e: &std::io::Error) -> (s: String)
{
    e.to_string()
}

/// A text that names `path`, a colon and a blank, and what went wrong.
pub open spec fn about(path: Seq<char>, what: Seq<char>) -> Seq<char> {
    path + seq![':', ' '] + what
}

impl Error {
    /// Attach a path to an I/O failure.
    pub fn io(path: impl IntoText, source: std::io::Error) -> (e: Self)
        ensures
            e@ == (Failure::Io { path: path.text(), source }),
    {
        Error::Io { path: path.into_text(), source }
    }

    /// Attach a path to a parse failure.
    pub fn parse(path: impl IntoText, message: impl IntoText) -> (e: Self)
        ensures
            e@ == (Failure::Parse { path: path.text(), message: message.text() }),
    {
        Error::Parse { path: path.into_text(), message: message.into_text() }
    }

    /// Report an input this crate cannot act on.
    pub fn invalid(message: impl IntoText) -> (e: Self)
        ensures
            e@ == Failure::Invalid(message.text()),
    {
        Error::Invalid(message.into_text())
    }

    /// The error in words: the path and what went wrong there, or the message
    /// alone.
    pub fn to_string(&self) -> (s: String)
        ensures
            match self@ {
                Failure::Io { path, source } => exists|what: Seq<char>| s@ == #[trigger] about(path, what),
                Failure::Parse { path, message } => s@ == about(path, message),
                Failure::Invalid(message) => s@ == message,
            },
    {
        match self {
            Error::Io { path, source } => {
                let what = io_error_text(source);
                let s = name_path(path, &what);
                assert(s@ == about(self@->Io_path, what@));
                s
            },
            Error::Parse { path, message } => name_path(path, message),
            Error::Invalid(message) => message.clone(),
        }
    }
}

/// A path and what went wrong there, in words.
pub fn name_path(path: &String, what: &String) -> (s: String)
    ensures
        s@ == about(path@, what@),
{
    let mut s = path.clone();
    s.push(':');
    s.push(' ');
    let r = concat(s.as_str(), what.as_str());
    assert(r@ =~= about(path@, what@));
    r
}

/// **Law.** What is said of a failure names the path first and what went wrong there
/// last.
pub proof fn law_a_failure_is_told_with_its_path(path: Seq<char>, what: Seq<char>)
    ensures
        about(path, what).len() == path.len() + 2 + what.len(),
        about(path, what).take(path.len() as int) == path,
        about(path, what)[path.len() as int] == ':',
        about(path, what).skip(path.len() as int + 2) == what,
{
    assert(about(path, what).take(path.len() as int) =~= path);
    assert(about(path, what).skip(path.len() as int + 2) =~= what);
}

} // verus!
