//! The vocabulary that every layer shares: node, term and index numbers,
//! commands, log entries and errors.
use vstd::prelude::*;

use crate::text;
use crate::text::{decimal_text, join2, join3};

verus! {

pub type NodeId = u64;

pub type Term = u64;

pub type Index = u64;

/// A write to the key/value state.
#[derive(Debug, PartialEq, Eq)]
pub enum Command {
    Put { key: String, value: String },
    Delete { key: String },
}

/// A [`Command`] with its texts as sequences of characters.
pub enum CommandV {
    Put { key: Seq<char>, value: Seq<char> },
    Delete { key: Seq<char> },
}

impl View for Command {
    type V = CommandV;

    open spec fn view(&self) -> CommandV {
        match self {
            Command::Put { key, value } => CommandV::Put { key: key@, value: value@ },
            Command::Delete { key } => CommandV::Delete { key: key@ },
        }
    }
}

impl Clone for Command {
    fn clone(&self) -> (r: Self)
        ensures
            r == *self,
    {
        match self {
            Command::Put { key, value } => Command::Put { key: key.clone(), value: value.clone() },
            Command::Delete { key } => Command::Delete { key: key.clone() },
        }
    }
}

/// A command at its place in the replicated log.
#[derive(Debug, PartialEq, Eq)]
pub struct LogEntry {
    pub term: Term,
    pub index: Index,
    pub command: Command,
}

/// A [`LogEntry`] over the view of its command.
pub struct LogEntryV {
    pub term: Term,
    pub index: Index,
    pub command: CommandV,
}

impl View for LogEntry {
    type V = LogEntryV;

    open spec fn view(&self) -> LogEntryV {
        LogEntryV { term: self.term, index: self.index, command: self.command@ }
    }
}

impl Clone for LogEntry {
    fn clone(&self) -> (r: Self)
        ensures
            r == *self,
    {
        LogEntry { term: self.term, index: self.index, command: self.command.clone() }
    }
}

/// The views of a sequence of entries.
pub open spec fn entry_views(entries: Seq<LogEntry>) -> Seq<LogEntryV> {
    Seq::new(entries.len(), |i: int| entries[i]@)
}

/// Everything that the library refuses to do.
#[derive(Debug, PartialEq, Eq)]
pub enum DbError {
    NodeNotFound(NodeId),
    LeaderMissing(NodeId),
    MissingLogEntry(Index),
    ClusterTooSmall,
    DuplicateNode(NodeId),
    Io(String),
    CorruptWal(String),
}

/// A [`DbError`] with its texts as sequences of characters.
pub enum DbErrorV {
    NodeNotFound(NodeId),
    LeaderMissing(NodeId),
    MissingLogEntry(Index),
    ClusterTooSmall,
    DuplicateNode(NodeId),
    Io(Seq<char>),
    CorruptWal(Seq<char>),
}

pub type DbResult<T> = Result<T, DbError>;

impl View for DbError {
    type V = DbErrorV;

    open spec fn view(&self) -> DbErrorV {
        match self {
            DbError::NodeNotFound(id) => DbErrorV::NodeNotFound(*id),
            DbError::LeaderMissing(id) => DbErrorV::LeaderMissing(*id),
            DbError::MissingLogEntry(index) => DbErrorV::MissingLogEntry(*index),
            DbError::ClusterTooSmall => DbErrorV::ClusterTooSmall,
            DbError::DuplicateNode(id) => DbErrorV::DuplicateNode(*id),
            DbError::Io(message) => DbErrorV::Io(message@),
            DbError::CorruptWal(message) => DbErrorV::CorruptWal(message@),
        }
    }
}

impl DbErrorV {
    /// The text that the error displays.
    pub open spec fn display(self) -> Seq<char> {
        match self {
            DbErrorV::NodeNotFound(id) => "node "@ + text::decimal(id as nat) + " not found"@,
            DbErrorV::LeaderMissing(id) => "leader "@ + text::decimal(id as nat)
                + " missing from cluster"@,
            DbErrorV::MissingLogEntry(index) => "log entry with index "@ + text::decimal(
                index as nat,
            ) + " not found"@,
            DbErrorV::ClusterTooSmall => "invalid cluster: at least 3 nodes required"@,
            DbErrorV::DuplicateNode(id) => "invalid cluster: duplicate node id "@ + text::decimal(
                id as nat,
            ),
            DbErrorV::Io(message) => "io error: "@ + message,
            DbErrorV::CorruptWal(message) => "corrupt wal: "@ + message,
        }
    }
}

impl DbError {
    /// The error as a message for people.
    pub fn to_string(&self) -> (r: String)
        ensures
            r@ == self@.display(),
    {
        match self {
            DbError::NodeNotFound(id) => join3(
                "node ",
                decimal_text(*id as u128).as_str(),
                " not found",
            ),
            DbError::LeaderMissing(id) => join3(
                "leader ",
                decimal_text(*id as u128).as_str(),
                " missing from cluster",
            ),
            DbError::MissingLogEntry(index) => join3(
                "log entry with index ",
                decimal_text(*index as u128).as_str(),
                " not found",
            ),
            DbError::ClusterTooSmall => "invalid cluster: at least 3 nodes required".to_owned(),
            DbError::DuplicateNode(id) => join2(
                "invalid cluster: duplicate node id ",
                decimal_text(*id as u128).as_str(),
            ),
            DbError::Io(message) => join2("io error: ", message.as_str()),
            DbError::CorruptWal(message) => join2("corrupt wal: ", message.as_str()),
        }
    }
}

/// A result over the views of its two sides.
pub open spec fn result_view<T: View>(r: DbResult<T>) -> Result<T::V, DbErrorV> {
    match r {
        Ok(value) => Ok(value@),
        Err(error) => Err(error@),
    }
}

/// What errors display: which node, entry or file they are about.
pub proof fn errors_say_what_went_wrong(id: NodeId, index: Index, message: Seq<char>)
    ensures
        DbErrorV::NodeNotFound(id).display() == "node "@ + text::decimal(id as nat)
            + " not found"@,
        DbErrorV::LeaderMissing(id).display() == "leader "@ + text::decimal(id as nat)
            + " missing from cluster"@,
        DbErrorV::MissingLogEntry(index).display() == "log entry with index "@ + text::decimal(
            index as nat,
        ) + " not found"@,
        DbErrorV::ClusterTooSmall.display() == "invalid cluster: at least 3 nodes required"@,
        DbErrorV::DuplicateNode(id).display() == "invalid cluster: duplicate node id "@
            + text::decimal(id as nat),
        DbErrorV::Io(message).display() == "io error: "@ + message,
        DbErrorV::CorruptWal(message).display() == "corrupt wal: "@ + message,
{
}

} // verus!
