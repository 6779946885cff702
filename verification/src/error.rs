//! What can go wrong while an archive is opened or written out.

use vstd::prelude::*;
use vstd::string::*;

verus! {

/// A failure of the reader, with the relative path it concerns where there is one.
///
/// The two header variants abort an open. The two entry variants are reported
/// per entry: they are warnings of a lenient open and the error of a strict
/// one. `MaterializationFailed` ends an extraction.
#[derive(Debug, Clone, PartialEq, Eq)]
pub enum ArchiveError {
    /// The stream ends before the length prefix or before the header it declares.
    TruncatedHeader,
    /// The header bytes are not a JSON document.
    MalformedHeader,
    /// The leaf at this path is neither a directory nor a file.
    MalformedEntry(String),
    /// The stream holds fewer bytes than the file at this path declares.
    TruncatedPayload(String),
    /// Creating a directory or writing the file for this path failed.
    MaterializationFailed { path: String, cause: String },
}

/// The mathematical value of an [`ArchiveError`].
pub enum Failure {
    TruncatedHeader,
    MalformedHeader,
    MalformedEntry(Seq<char>),
    TruncatedPayload(Seq<char>),
    MaterializationFailed { path: Seq<char>, cause: Seq<char> },
}

impl Failure {
    /// Whether the failure concerns a single entry of the tree.
    pub open spec fn entry_level(self) -> bool {
        self is MalformedEntry || self is TruncatedPayload
    }

    /// The relative path that the failure names, if any.
    pub open spec fn path(self) -> Option<Seq<char>> {
        match self {
            Failure::TruncatedHeader => None,
            Failure::MalformedHeader => None,
            Failure::MalformedEntry(path) => Some(path),
            Failure::TruncatedPayload(path) => Some(path),
            Failure::MaterializationFailed { path, cause } => Some(path),
        }
    }

    /// The text shown to an operator.
    pub open spec fn message(self) -> Seq<char> {
        match self {
            Failure::TruncatedHeader => "truncated header"@,
            Failure::MalformedHeader => "malformed header"@,
            Failure::MalformedEntry(path) => "malformed entry: "@ + path,
            Failure::TruncatedPayload(path) => "truncated payload: "@ + path,
            Failure::MaterializationFailed { path, cause } => "cannot write "@ + path + ": "@
                + cause,
        }
    }
}

impl View for ArchiveError {
    type V = Failure;

    open spec fn view(&self) -> Failure {
        match self {
            ArchiveError::TruncatedHeader => Failure::TruncatedHeader,
            ArchiveError::MalformedHeader => Failure::MalformedHeader,
            ArchiveError::MalformedEntry(path) => Failure::MalformedEntry(path@),
            ArchiveError::TruncatedPayload(path) => Failure::TruncatedPayload(path@),
            ArchiveError::MaterializationFailed { path, cause } => Failure::MaterializationFailed {
                path: path@,
                cause: cause@,
            },
        }
    }
}

impl ArchiveError {
    /// Whether the failure concerns a single entry of the tree.
    pub fn is_entry_level(&self) -> (b: bool)
        ensures
            b == self@.entry_level(),
    {
        match self {
            ArchiveError::MalformedEntry(_) => true,
            ArchiveError::TruncatedPayload(_) => true,
            _ => false,
        }
    }

    /// The relative path that the failure names, if any.
    pub fn path(&self) -> (p: Option<&String>)
        ensures
            match p {
                Some(path) => self@.path() == Some(path@),
                None => self@.path() is None,
            },
    {
        match self {
            ArchiveError::TruncatedHeader => None,
            ArchiveError::MalformedHeader => None,
            ArchiveError::MalformedEntry(path) => Some(path),
            ArchiveError::TruncatedPayload(path) => Some(path),
            ArchiveError::MaterializationFailed { path, cause: _ } => Some(path),
        }
    }

    /// The text shown to an operator.
    pub fn message(&self) -> (text: String)
        ensures
            text@ == self@.message(),
    {
        match self {
            ArchiveError::TruncatedHeader => String::from_str("truncated header"),
            ArchiveError::MalformedHeader => String::from_str("malformed header"),
            ArchiveError::MalformedEntry(path) => {
                let mut text = String::from_str("malformed entry: ");
                text.append(path.as_str());
                text
            },
            ArchiveError::TruncatedPayload(path) => {
                let mut text = String::from_str("truncated payload: ");
                text.append(path.as_str());
                text
            },
            ArchiveError::MaterializationFailed { path, cause } => {
                let mut text = String::from_str("cannot write ");
                text.append(path.as_str());
                text.append(": ");
                text.append(cause.as_str());
                text
            },
        }
    }
}

} // verus!
