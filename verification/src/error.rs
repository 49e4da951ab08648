//! The errors of the library.

use vstd::prelude::*;
use vstd::string::*;

use crate::text;

verus! {

pub type Result<T> = std::result::Result<T, RewindError>;

#[derive(Clone, Debug)]
pub enum RewindError {
    WorkspaceNotInitialized,
    WorkspaceIdentity(String),
    ConditionBlocked(String),
    RecoveryRequired(String),
    Conflict { path: String, expected: String, found: String },
    Unsupported(String),
    PathEscape(String),
    Storage(String),
    Cas(String),
    ScanIncomplete(String),
    Journal(String),
    LockUnavailable(String),
    InvalidCommand(String),
    NotFound(String),
    Serialization(String),
    Database(String),
    Io(String),
}

/// What an error says.
pub enum Fault {
    WorkspaceNotInitialized,
    WorkspaceIdentity(Seq<char>),
    ConditionBlocked(Seq<char>),
    RecoveryRequired(Seq<char>),
    Conflict { path: Seq<char>, expected: Seq<char>, found: Seq<char> },
    Unsupported(Seq<char>),
    PathEscape(Seq<char>),
    Storage(Seq<char>),
    Cas(Seq<char>),
    ScanIncomplete(Seq<char>),
    Journal(Seq<char>),
    LockUnavailable(Seq<char>),
    InvalidCommand(Seq<char>),
    NotFound(Seq<char>),
    Serialization(Seq<char>),
    Database(Seq<char>),
    Io(Seq<char>),
}

impl View for RewindError {
    type V = Fault;

    open spec fn view(&self) -> Fault {
        match self {
            Self::WorkspaceNotInitialized => Fault::WorkspaceNotInitialized,
            Self::WorkspaceIdentity(s) => Fault::WorkspaceIdentity(s@),
            Self::ConditionBlocked(s) => Fault::ConditionBlocked(s@),
            Self::RecoveryRequired(s) => Fault::RecoveryRequired(s@),
            Self::Conflict { path, expected, found } => Fault::Conflict {
                path: path@,
                expected: expected@,
                found: found@,
            },
            Self::Unsupported(s) => Fault::Unsupported(s@),
            Self::PathEscape(s) => Fault::PathEscape(s@),
            Self::Storage(s) => Fault::Storage(s@),
            Self::Cas(s) => Fault::Cas(s@),
            Self::ScanIncomplete(s) => Fault::ScanIncomplete(s@),
            Self::Journal(s) => Fault::Journal(s@),
            Self::LockUnavailable(s) => Fault::LockUnavailable(s@),
            Self::InvalidCommand(s) => Fault::InvalidCommand(s@),
            Self::NotFound(s) => Fault::NotFound(s@),
            Self::Serialization(s) => Fault::Serialization(s@),
            Self::Database(s) => Fault::Database(s@),
            Self::Io(s) => Fault::Io(s@),
        }
    }
}

impl Fault {
    /// The message that stands for an error.
    pub open spec fn message(self) -> Seq<char> {
        match self {
            Fault::WorkspaceNotInitialized => "workspace is not initialized from this path"@,
            Fault::WorkspaceIdentity(s) => "workspace identity conflict: "@ + s,
            Fault::ConditionBlocked(s) => "workspace condition blocks this operation: "@ + s,
            Fault::RecoveryRequired(s) => "workspace recovery is required: "@ + s,
            Fault::Conflict { path, expected, found } => "conflict at "@ + path + ": expected "@
                + expected + ", found "@ + found,
            Fault::Unsupported(s) => "unsupported filesystem object or metadata: "@ + s,
            Fault::PathEscape(s) => "path is outside the workspace: "@ + s,
            Fault::Storage(s) => "storage error: "@ + s,
            Fault::Cas(s) => "CAS error: "@ + s,
            Fault::ScanIncomplete(s) => "scan incomplete: "@ + s,
            Fault::Journal(s) => "journal error: "@ + s,
            Fault::LockUnavailable(s) => "lock unavailable: "@ + s,
            Fault::InvalidCommand(s) => "invalid command: "@ + s,
            Fault::NotFound(s) => "not found: "@ + s,
            Fault::Serialization(s) => "serialization error: "@ + s,
            Fault::Database(s) => "database error: "@ + s,
            Fault::Io(s) => "I/O error: "@ + s,
        }
    }
}

fn prefixed(prefix: &str, detail: &str) -> (r: String)
    ensures
        r@ == prefix@ + detail@,
{
    let mut out = text::copy(prefix);
    out.append(detail);
    out
}

impl RewindError {
    pub fn duplicate(&self) -> (r: Self)
        ensures
            r@ == self@,
    {
        match self {
            Self::WorkspaceNotInitialized => Self::WorkspaceNotInitialized,
            Self::WorkspaceIdentity(s) => Self::WorkspaceIdentity(text::copy(s)),
            Self::ConditionBlocked(s) => Self::ConditionBlocked(text::copy(s)),
            Self::RecoveryRequired(s) => Self::RecoveryRequired(text::copy(s)),
            Self::Conflict { path, expected, found } => Self::Conflict {
                path: text::copy(path),
                expected: text::copy(expected),
                found: text::copy(found),
            },
            Self::Unsupported(s) => Self::Unsupported(text::copy(s)),
            Self::PathEscape(s) => Self::PathEscape(text::copy(s)),
            Self::Storage(s) => Self::Storage(text::copy(s)),
            Self::Cas(s) => Self::Cas(text::copy(s)),
            Self::ScanIncomplete(s) => Self::ScanIncomplete(text::copy(s)),
            Self::Journal(s) => Self::Journal(text::copy(s)),
            Self::LockUnavailable(s) => Self::LockUnavailable(text::copy(s)),
            Self::InvalidCommand(s) => Self::InvalidCommand(text::copy(s)),
            Self::NotFound(s) => Self::NotFound(text::copy(s)),
            Self::Serialization(s) => Self::Serialization(text::copy(s)),
            Self::Database(s) => Self::Database(text::copy(s)),
            Self::Io(s) => Self::Io(text::copy(s)),
        }
    }

    /// The message shown for the error.
    pub fn message(&self) -> (r: String)
        ensures
            r@ == self@.message(),
    {
        match self {
            Self::WorkspaceNotInitialized => text::copy("workspace is not initialized from this path"),
            Self::WorkspaceIdentity(s) => prefixed("workspace identity conflict: ", s),
            Self::ConditionBlocked(s) => prefixed("workspace condition blocks this operation: ", s),
            Self::RecoveryRequired(s) => prefixed("workspace recovery is required: ", s),
            Self::Conflict { path, expected, found } => {
                let mut out = prefixed("conflict at ", path);
                out.append(": expected ");
                out.append(expected);
                out.append(", found ");
                out.append(found);
                out
            },
            Self::Unsupported(s) => prefixed("unsupported filesystem object or metadata: ", s),
            Self::PathEscape(s) => prefixed("path is outside the workspace: ", s),
            Self::Storage(s) => prefixed("storage error: ", s),
            Self::Cas(s) => prefixed("CAS error: ", s),
            Self::ScanIncomplete(s) => prefixed("scan incomplete: ", s),
            Self::Journal(s) => prefixed("journal error: ", s),
            Self::LockUnavailable(s) => prefixed("lock unavailable: ", s),
            Self::InvalidCommand(s) => prefixed("invalid command: ", s),
            Self::NotFound(s) => prefixed("not found: ", s),
            Self::Serialization(s) => prefixed("serialization error: ", s),
            Self::Database(s) => prefixed("database error: ", s),
            Self::Io(s) => prefixed("I/O error: ", s),
        }
    }
}

}
