//! A small log monitoring pipeline: a collector that tails the files of a
//! directory, and a store that keeps the lines it finds, sharded and
//! indexed by their metadata.

use vstd::prelude::*;

pub mod api;
pub mod assoc;
pub mod database;
pub mod json;
pub mod loadgen;
pub mod log_collector;
pub mod log_database;
pub mod metadata;
pub mod text;

use crate::metadata::{Label, Metadata};

verus! {

/// A log entry that can be processed by the various parts of this library.
#[derive(Debug)]
pub struct LogEntry {
    /// A line of text in the log.
    pub line: String,
    /// Metadata associated with this log line.
    pub metadata: Metadata,
}

/// A [`LogEntry`] as specifications see it: the characters of its line,
/// and its labels in the order in which their names came in.
pub struct Record {
    pub line: Seq<char>,
    pub labels: Seq<Label>,
}

impl View for LogEntry {
    type V = Record;

    open spec fn view(&self) -> Record {
        Record { line: self.line@, labels: self.metadata.entries() }
    }
}

/// What a vector of entries holds.
pub open spec fn entries_view(v: Seq<LogEntry>) -> Seq<Record> {
    Seq::new(v.len(), |i: int| v[i]@)
}

impl Clone for LogEntry {
    fn clone(&self) -> (r: LogEntry)
        ensures
            r@ == self@,
    {
        LogEntry { line: self.line.clone(), metadata: self.metadata.clone() }
    }
}

impl PartialEq for LogEntry {
    /// Two entries are equal when they hold the same line and the same
    /// labels.
    fn eq(&self, other: &LogEntry) -> (r: bool) {
        self.line == other.line && self.metadata == other.metadata
    }
}

impl vstd::std_specs::cmp::PartialEqSpecImpl for LogEntry {
    open spec fn obeys_eq_spec() -> bool {
        true
    }

    open spec fn eq_spec(&self, other: &LogEntry) -> bool {
        self.line@ == other.line@ && self.metadata@ == other.metadata@
    }
}

} // verus!
