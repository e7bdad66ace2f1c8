//! A time-series-esque database for storing and querying append-only
//! streams of events.

use vstd::prelude::*;
use vstd::string::*;
use crate::metadata::Metadata;
use crate::text::str_eq;

verus! {

/// `std::io::Error`, carried through as it is.
#[verifier::external_type_specification]
#[verifier::external_body]
pub struct ExIoError(std::io::Error);

/// Labels used to identify a stream.
pub type Labels = Metadata;

/// The type used for timestamps: milliseconds.
type Timestamp = u64;

/// An event that can be stored by [`Database`].
#[derive(Debug)]
pub struct Event {
    timestamp: Timestamp,
    data: Vec<u8>,
}

impl View for Event {
    type V = (u64, Seq<u8>);

    closed spec fn view(&self) -> (u64, Seq<u8>) {
        (self.timestamp, self.data@)
    }
}

impl Event {
    /// An event that happened at `timestamp` and carries `data`.
    pub fn new(timestamp: u64, data: Vec<u8>) -> (r: Event)
        ensures
            r@ == (timestamp, data@),
    {
        Event { timestamp, data }
    }

    /// When the event happened.
    pub fn timestamp(&self) -> (r: u64)
        ensures
            r == self@.0,
    {
        self.timestamp
    }

    /// What the event carries.
    pub fn data(&self) -> (r: &Vec<u8>)
        ensures
            r@ == self@.1,
    {
        &self.data
    }

}

impl Clone for Event {
    fn clone(&self) -> (r: Event)
        ensures
            r@ == self@,
    {
        Event { timestamp: self.timestamp, data: self.data.clone() }
    }
}

impl PartialEq for Event {
    fn eq(&self, other: &Event) -> (r: bool) {
        if self.timestamp != other.timestamp || self.data.len() != other.data.len() {
            return false;
        }
        let mut i: usize = 0;
        while i < self.data.len()
            invariant
                self.data@.len() == other.data@.len(),
                i <= self.data@.len(),
                forall|j: int| 0 <= j < i ==> self.data@[j] == other.data@[j],
            decreases self.data@.len() - i,
        {
            if self.data[i] != other.data[i] {
                return false;
            }
            i += 1;
        }
        assert(self.data@ =~= other.data@);
        true
    }
}

impl vstd::std_specs::cmp::PartialEqSpecImpl for Event {
    open spec fn obeys_eq_spec() -> bool {
        true
    }

    open spec fn eq_spec(&self, other: &Event) -> bool {
        self@ == other@
    }
}

/// A structure describing database queries.
pub enum Query {
    /// A query that will find events from streams with a particular label.
    Label {
        /// The label name to match.
        name: String,
        /// The label value to match.
        value: String,
    },
}

/// Possible error situations when restoring a database.
#[derive(Debug)]
pub enum RestoreError {
    /// An I/O error occurred when restoring (e.g. permission denied).
    Io(std::io::Error),
    /// An error occurred when deserializing the database file.
    Deserialize(serde_json::Error),
}

/// Possible error situations when opening a database.
#[derive(Debug)]
pub enum OpenError {
    /// An error occurred when trying to restore from an existing database.
    Restore(RestoreError),
}

impl OpenError {
    /// The message of the error.
    pub fn message(&self) -> (r: String)
        ensures
            r@ == "error opening database"@,
    {
        "error opening database".to_owned()
    }
}

/// The events of a database as specifications see them: each with the
/// labels of its stream, as a map.
pub open spec fn events_view(v: Seq<(Labels, Event)>) -> Seq<(Map<Seq<char>, Seq<char>>, (u64, Seq<u8>))> {
    Seq::new(v.len(), |i: int| (v[i].0@, v[i].1@))
}

/// Whether the labels of a stream carry the label that a query asks for.
pub open spec fn matches_label(labels: Map<Seq<char>, Seq<char>>, name: Seq<char>, value: Seq<char>) -> bool {
    labels.dom().contains(name) && labels[name] == value
}

/// The events whose stream carries the label, in the order in which they
/// were pushed.
pub open spec fn select(
    events: Seq<(Map<Seq<char>, Seq<char>>, (u64, Seq<u8>))>,
    name: Seq<char>,
    value: Seq<char>,
) -> Seq<(u64, Seq<u8>)>
    decreases events.len(),
{
    if events.len() == 0 {
        Seq::empty()
    } else if matches_label(events.last().0, name, value) {
        select(events.drop_last(), name, value).push(events.last().1)
    } else {
        select(events.drop_last(), name, value)
    }
}

/// What a vector of events holds.
pub open spec fn results_view(v: Seq<Event>) -> Seq<(u64, Seq<u8>)> {
    Seq::new(v.len(), |i: int| v[i]@)
}

/// A time-series-esque database for storing and querying append-only
/// stream of events.
pub struct Database {
    path: String,
    events: Vec<(Labels, Event)>,
}

impl View for Database {
    type V = Seq<(Map<Seq<char>, Seq<char>>, (u64, Seq<u8>))>;

    closed spec fn view(&self) -> Self::V {
        events_view(self.events@)
    }
}

impl Database {
    /// The path that the database writes its data to.
    pub closed spec fn location(&self) -> Seq<char> {
        self.path@
    }

    /// Open a database at the given `path`, given what was found there:
    /// nothing, the events that the file holds, or the reason why they
    /// could not be restored.
    pub fn open(path: String, found: Option<Result<Vec<(Labels, Event)>, RestoreError>>) -> (r: Result<
        Database,
        OpenError,
    >)
        ensures
            match found {
                None => r matches Ok(database) && database@.len() == 0 && database.location() == path@,
                Some(Ok(events)) => r matches Ok(database) && database@ == events_view(events@)
                    && database.location() == path@,
                Some(Err(error)) => r matches Err(OpenError::Restore(e)) && e == error,
            },
    {
        match found {
            None => Ok(Database { path, events: Vec::new() }),
            Some(Ok(events)) => Ok(Database { path, events }),
            Some(Err(error)) => Err(OpenError::Restore(error)),
        }
    }

    /// The path that the database writes its data to.
    pub fn path(&self) -> (r: &String)
        ensures
            r@ == self.location(),
    {
        &self.path
    }

    /// The events of the database with the labels of their streams.
    pub fn events(&self) -> (r: &Vec<(Labels, Event)>)
        ensures
            events_view(r@) == self@,
    {
        &self.events
    }

    /// Push a new `event` into the stream identified by `labels`.
    pub fn push(&mut self, labels: &Labels, event: Event)
        ensures
            final(self)@ == old(self)@.push((labels@, event@)),
            final(self).location() == old(self).location(),
    {
        let ghost before = events_view(self.events@);
        self.events.push((labels.clone(), event));
        assert(events_view(self.events@) =~= before.push((labels@, event@)));
    }

    /// Find events in the database matching the given `query`.
    pub fn query(&self, query: &Query) -> (r: Result<Vec<Event>, std::io::Error>)
        ensures
            r matches Ok(events) && results_view(events@) == match query {
                Query::Label { name, value } => select(self@, name@, value@),
            },
    {
        let Query::Label { name, value } = query;
        let mut out: Vec<Event> = Vec::new();
        let mut i: usize = 0;
        assert(results_view(out@) =~= Seq::<(u64, Seq<u8>)>::empty());
        while i < self.events.len()
            invariant
                i <= self.events@.len(),
                results_view(out@) == select(events_view(self.events@).take(i as int), name@, value@),
            decreases self.events@.len() - i,
        {
            proof {
                let s = events_view(self.events@).take(i as int + 1);
                assert(s.drop_last() =~= events_view(self.events@).take(i as int));
                assert(s.last() == events_view(self.events@)[i as int]);
            }
            let found = match self.events[i].0.get(name.as_str()) {
                Some(v) => str_eq(v.as_str(), value.as_str()),
                None => false,
            };
            if found {
                let ghost before = results_view(out@);
                out.push(self.events[i].1.clone());
                assert(results_view(out@) =~= before.push(self.events@[i as int].1@));
            }
            i += 1;
        }
        assert(events_view(self.events@).take(i as int) =~= events_view(self.events@));
        Ok(out)
    }
}

} // verus!
