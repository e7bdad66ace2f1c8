//! A log collector that watches a directory of log files.
//!
//! The collector keeps the tail state of every file under the root and
//! decides what each event of the watcher means. It touches no file
//! itself: a driver lists the directory, opens and reads the files, and
//! tells the collector what it found. The collector answers with what to
//! do next.

use vstd::prelude::*;
use vstd::string::*;
use crate::log_collector::files::{FileState, FileTable, WatchedFile};
use crate::log_collector::lines::{
    drain, drain_spec, lemma_drain_consumed, lemma_drain_in_two_reads,
};
use crate::log_collector::paths::PathTable;
use crate::log_collector::watcher::{Descriptor, WatcherEvent};
use crate::metadata::Metadata;
use crate::text::strings_view;
use crate::{LogEntry, Record, entries_view};

verus! {

/// Configuration for [`initialize`].
pub struct Config {
    /// The root path from which to collect logs.
    pub root_path: String,
}

/// What happened to the files under the root.
#[derive(Debug)]
pub enum Event {
    /// A path under the root is not watched yet.
    Create { path: String, canonical_path: String },
    /// A watched file has grown.
    Append { descriptor: Descriptor },
    /// A watched file has become shorter than what was read of it.
    Truncate { descriptor: Descriptor },
}

impl Event {
    /// The name of the kind of event.
    pub fn name(&self) -> (r: &'static str)
        ensures
            r@ == match self {
                Event::Create { .. } => "Create"@,
                Event::Append { .. } => "Append"@,
                Event::Truncate { .. } => "Truncate"@,
            },
    {
        match self {
            Event::Create { .. } => "Create",
            Event::Append { .. } => "Append",
            Event::Truncate { .. } => "Truncate",
        }
    }
}

/// What an event of the watcher asks of the driver.
#[derive(Clone, Copy, Debug, PartialEq, Eq, Structural)]
pub enum Check {
    /// The root has changed: list it, and report each path that
    /// [`Collector::unwatched`] picks with [`Event::Create`].
    Rescan,
    /// A watched file has changed: find its length, and ask
    /// [`Collector::file_event`] what that means.
    Measure { descriptor: Descriptor },
    /// The descriptor is not known: the event is dropped.
    Unregistered,
}

/// What the driver has to do once an event has been handled.
#[derive(Debug)]
pub enum Action {
    /// Watch the file at `canonical_path`, open it, seek to its end, and
    /// report the descriptor and the position with [`Collector::watch`].
    Open { path: String, canonical_path: String },
    /// Read the file behind `descriptor` from `position` to its end, and
    /// hand the bytes to [`Collector::read_file`].
    Read { descriptor: Descriptor, position: u64 },
    /// Nothing.
    Nothing,
}

/// An [`Action`] as specifications see it.
pub enum Step {
    Open { path: Seq<char>, canonical_path: Seq<char> },
    Read { descriptor: Descriptor, position: nat },
    Nothing,
}

impl View for Action {
    type V = Step;

    open spec fn view(&self) -> Step {
        match self {
            Action::Open { path, canonical_path } => Step::Open {
                path: path@,
                canonical_path: canonical_path@,
            },
            Action::Read { descriptor, position } => Step::Read {
                descriptor: *descriptor,
                position: *position as nat,
            },
            Action::Nothing => Step::Nothing,
        }
    }
}

/// Why the collector refused a read.
#[derive(Clone, Copy, Debug, PartialEq, Eq, Structural)]
pub enum CollectorError {
    /// The descriptor stands for no watched file.
    NotWatched { descriptor: Descriptor },
    /// The file holds bytes that are not UTF-8.
    InvalidData { descriptor: Descriptor },
    /// The position in the file no longer fits its type.
    PositionOverflow { descriptor: Descriptor },
}

/// The state of a collector, as specifications see it.
pub struct CollectorState {
    /// The root path, as it was configured.
    pub root_path: Seq<char>,
    /// The descriptor of the watch on the root.
    pub root_wd: Descriptor,
    /// Whether the first scan of the root is over.
    pub tailing: bool,
    /// The watched files.
    pub files: Map<Descriptor, FileState>,
    /// The watched paths, each with the descriptor of the file behind it.
    pub paths: Map<Seq<char>, Descriptor>,
    /// The records that wait to be handed out.
    pub pending: Seq<Record>,
}

/// What holds of every state that a collector reaches.
pub open spec fn well_formed(s: CollectorState) -> bool {
    &&& forall|p: Seq<char>| #[trigger]
        s.paths.dom().contains(p) ==> s.files.dom().contains(s.paths[p])
    &&& forall|d: Descriptor, i: int|
        s.files.dom().contains(d) && 0 <= i < s.files[d].paths.len() ==> s.paths.dom().contains(
            #[trigger] s.files[d].paths[i],
        )
    &&& forall|d: Descriptor| #[trigger]
        s.files.dom().contains(d) ==> s.paths.dom().contains(s.files[d].canonical_path)
    &&& forall|a: Descriptor, b: Descriptor|
        s.files.dom().contains(a) && s.files.dom().contains(b) && (#[trigger] s.files[a]).canonical_path
            == (#[trigger] s.files[b]).canonical_path ==> a == b
}

/// The state of a collector that has just been set up on a root.
pub open spec fn initial_state(root_path: Seq<char>, root_wd: Descriptor) -> CollectorState {
    CollectorState {
        root_path,
        root_wd,
        tailing: false,
        files: Map::empty(),
        paths: Map::empty(),
        pending: Seq::empty(),
    }
}

/// What an event of the watcher means: the root is rescanned, a watched
/// file is measured, anything else is dropped.
pub open spec fn check_spec(s: CollectorState, descriptor: Descriptor) -> Check {
    if descriptor == s.root_wd {
        Check::Rescan
    } else if s.files.dom().contains(descriptor) {
        Check::Measure { descriptor }
    } else {
        Check::Unregistered
    }
}

/// Those of the listed paths that are not watched, in their order.
pub open spec fn unwatched_spec(paths: Map<Seq<char>, Descriptor>, listing: Seq<Seq<char>>) -> Seq<
    Seq<char>,
>
    decreases listing.len(),
{
    if listing.len() == 0 {
        Seq::empty()
    } else if paths.dom().contains(listing.last()) {
        unwatched_spec(paths, listing.drop_last())
    } else {
        unwatched_spec(paths, listing.drop_last()).push(listing.last())
    }
}

/// What the driver does for a file once it is known: while tailing it
/// reads the file, during the first scan it leaves the file alone.
pub open spec fn follow(s: CollectorState, descriptor: Descriptor) -> Step {
    if s.tailing {
        Step::Read { descriptor, position: s.files[descriptor].position }
    } else {
        Step::Nothing
    }
}

/// The state after `path`, which resolves to `canonical_path`, has been
/// reported, and what the driver does next. Where the canonical path is
/// watched, the path becomes one more name of its file. Otherwise nothing
/// changes until the driver has opened the file.
pub open spec fn create_spec(s: CollectorState, path: Seq<char>, canonical_path: Seq<char>) -> (
    CollectorState,
    Step,
) {
    if s.paths.dom().contains(canonical_path) {
        let d = s.paths[canonical_path];
        let file = s.files[d];
        let after = CollectorState {
            files: s.files.insert(d, FileState { paths: file.paths.push(path), ..file }),
            paths: s.paths.insert(path, d),
            ..s
        };
        (after, follow(after, d))
    } else {
        (s, Step::Open { path, canonical_path })
    }
}

/// The state after the driver has opened `canonical_path` for `path` and
/// got `descriptor` for it, with the file at `position`. The file is
/// reported under `path`, and under its canonical path too where that is
/// another path inside the root. A descriptor that is already known
/// keeps its file. Where the canonical path is watched after all, the file
/// was opened in vain, and the path becomes one more name of the file
/// that is watched.
pub open spec fn watch_spec(
    s: CollectorState,
    path: Seq<char>,
    canonical_path: Seq<char>,
    descriptor: Descriptor,
    position: nat,
    same_path: bool,
    inside_root: bool,
) -> (CollectorState, Step) {
    if s.paths.dom().contains(canonical_path) {
        create_spec(s, path, canonical_path)
    } else {
        let paths = if !same_path && inside_root {
            seq![path, canonical_path]
        } else {
            seq![path]
        };
        let file = FileState { canonical_path, paths, position, buffer: Seq::empty() };
        let after = CollectorState {
            files: if s.files.dom().contains(descriptor) {
                s.files
            } else {
                s.files.insert(descriptor, file)
            },
            paths: s.paths.insert(canonical_path, descriptor).insert(path, descriptor),
            ..s
        };
        (after, follow(after, descriptor))
    }
}

/// What a change of a watched file means, given its length: it was
/// truncated if the collector has read past that length, else it grew.
pub open spec fn file_event_spec(s: CollectorState, descriptor: Descriptor, length: nat) -> Option<
    (bool, Descriptor),
> {
    if !s.files.dom().contains(descriptor) {
        None
    } else if s.files[descriptor].position <= length {
        Some((false, descriptor))
    } else {
        Some((true, descriptor))
    }
}

/// The state after a truncation: the file is read again from its start,
/// and its unfinished line is dropped.
pub open spec fn truncate_spec(s: CollectorState, descriptor: Descriptor) -> (CollectorState, Step) {
    if s.files.dom().contains(descriptor) {
        let file = s.files[descriptor];
        (
            CollectorState {
                files: s.files.insert(
                    descriptor,
                    FileState { position: 0, buffer: Seq::empty(), ..file },
                ),
                ..s
            },
            Step::Read { descriptor, position: 0 },
        )
    } else {
        (s, Step::Nothing)
    }
}

/// The name of the label that says where a line came from.
pub open spec fn path_label() -> Seq<char> {
    "path"@
}

/// The records of one line: one for each path of its file.
pub open spec fn line_records(line: Seq<char>, paths: Seq<Seq<char>>) -> Seq<Record> {
    Seq::new(paths.len(), |i: int| Record { line, labels: seq![(path_label(), paths[i])] })
}

/// The records of lines, line after line.
pub open spec fn records_of(lines: Seq<Seq<char>>, paths: Seq<Seq<char>>) -> Seq<Record>
    decreases lines.len(),
{
    if lines.len() == 0 {
        Seq::empty()
    } else {
        records_of(lines.drop_last(), paths) + line_records(lines.last(), paths)
    }
}

/// The state after bytes of a watched file have been read, and the records
/// that the read completed. The position moves on by what was taken; a
/// read that meets bytes that are not UTF-8 yields no record.
pub open spec fn read_spec(s: CollectorState, descriptor: Descriptor, bytes: Seq<u8>) -> (
    CollectorState,
    Result<Seq<Record>, CollectorError>,
) {
    if !s.files.dom().contains(descriptor) {
        (s, Err(CollectorError::NotWatched { descriptor }))
    } else {
        let file = s.files[descriptor];
        let read = drain_spec(file.buffer, bytes);
        if file.position + bytes.len() > u64::MAX {
            (s, Err(CollectorError::PositionOverflow { descriptor }))
        } else {
            let after = CollectorState {
                files: s.files.insert(
                    descriptor,
                    FileState {
                        position: (file.position + read.consumed) as nat,
                        buffer: read.buffer,
                        ..file
                    },
                ),
                ..s
            };
            if read.valid {
                (after, Ok(records_of(read.lines, file.paths)))
            } else {
                (after, Err(CollectorError::InvalidData { descriptor }))
            }
        }
    }
}

/// Whether `path` lies under `base`, by whole components, as
/// `std::path::Path::starts_with` decides it.
pub uninterp spec fn path_starts_with(path: Seq<char>, base: Seq<char>) -> bool;

/// Whether two paths are the same path, by their components: each lies
/// under the other.
pub open spec fn same_path(a: Seq<char>, b: Seq<char>) -> bool {
    path_starts_with(a, b) && path_starts_with(b, a)
}

/// `std::path::Path::starts_with`: whether `base` is a prefix of `path`,
/// whole components only.
#[verifier::external_body]
fn starts_with(path: &str, base: &str) -> (r: bool)
    ensures
        r == path_starts_with(path@, base@),
{
    std::path::Path::new(path).starts_with(base)
}

/// A collector of the lines that are written to the files of a directory.
#[derive(Debug)]
pub struct Collector {
    root_path: String,
    root_wd: Descriptor,
    tailing: bool,
    watched_files: FileTable,
    watched_paths: PathTable,
    entry_buf: Vec<LogEntry>,
}

impl View for Collector {
    type V = CollectorState;

    closed spec fn view(&self) -> CollectorState {
        CollectorState {
            root_path: self.root_path@,
            root_wd: self.root_wd,
            tailing: self.tailing,
            files: self.watched_files@,
            paths: self.watched_paths@,
            pending: entries_view(self.entry_buf@),
        }
    }
}

/// Initialize a `Collector` that watches a directory of log files.
///
/// The driver has put a watch on the canonical form of `config.root_path`
/// and got `root_wd` for it. The collector starts with no file: the driver
/// lists the root, reports each path that is not watched with
/// [`Collector::handle_event_create`], and then calls [`Collector::start`].
/// Files found by this first scan are followed from their end.
pub fn initialize(config: Config, root_wd: Descriptor) -> (r: Collector)
    ensures
        r@ == initial_state(config.root_path@, root_wd),
        r.wf(),
{
    let r = Collector {
        root_path: config.root_path,
        root_wd,
        tailing: false,
        watched_files: FileTable::new(),
        watched_paths: PathTable::new(),
        entry_buf: Vec::new(),
    };
    assert(entries_view(r.entry_buf@) =~= Seq::<Record>::empty());
    r
}

impl Collector {
    /// What holds of every collector: see [`well_formed`].
    pub open spec fn wf(&self) -> bool {
        well_formed(self@)
    }

    /// Ends the first scan of the root: from now on a file is read as soon
    /// as it is known.
    pub fn start(&mut self)
        ensures
            final(self)@ == (CollectorState { tailing: true, ..old(self)@ }),
            old(self).wf() ==> final(self).wf(),
    {
        self.tailing = true;
    }

    /// The root path, as it was configured.
    pub fn root_path(&self) -> (r: &String)
        ensures
            r@ == self@.root_path,
    {
        &self.root_path
    }

    /// Whether `path` is watched.
    pub fn is_watched(&self, path: &str) -> (r: bool)
        ensures
            r == self@.paths.dom().contains(path@),
    {
        self.watched_paths.contains_key(path)
    }

    /// The position of the next byte to read of a watched file.
    pub fn position(&self, descriptor: Descriptor) -> (r: Option<u64>)
        ensures
            r is Some <==> self@.files.dom().contains(descriptor),
            r matches Some(p) ==> p == self@.files[descriptor].position,
    {
        match self.watched_files.get(descriptor) {
            Some(file) => Some(file.position),
            None => None,
        }
    }

    /// Tells what an event of the watcher asks for.
    pub fn check_event(&self, event: &WatcherEvent) -> (r: Check)
        ensures
            r == check_spec(self@, event.descriptor),
    {
        if event.descriptor == self.root_wd {
            Check::Rescan
        } else if self.watched_files.contains_key(event.descriptor) {
            Check::Measure { descriptor: event.descriptor }
        } else {
            Check::Unregistered
        }
    }

    /// Picks from a listing of the root the paths that are not watched.
    pub fn unwatched(&self, listing: &Vec<String>) -> (r: Vec<String>)
        ensures
            strings_view(r@) == unwatched_spec(self@.paths, strings_view(listing@)),
    {
        let mut out: Vec<String> = Vec::new();
        let mut i: usize = 0;
        assert(strings_view(out@) =~= Seq::<Seq<char>>::empty());
        while i < listing.len()
            invariant
                i <= listing@.len(),
                strings_view(out@) == unwatched_spec(self@.paths, strings_view(listing@).take(i as int)),
            decreases listing@.len() - i,
        {
            proof {
                let s = strings_view(listing@).take(i as int + 1);
                assert(s.drop_last() =~= strings_view(listing@).take(i as int));
                assert(s.last() == listing@[i as int]@);
            }
            if !self.watched_paths.contains_key(listing[i].as_str()) {
                let ghost before = strings_view(out@);
                out.push(listing[i].clone());
                assert(strings_view(out@) =~= before.push(listing@[i as int]@));
            }
            i += 1;
        }
        assert(strings_view(listing@).take(i as int) =~= strings_view(listing@));
        out
    }

    /// Tells what a change of a watched file means, given the length of
    /// the file.
    pub fn file_event(&self, descriptor: Descriptor, length: u64) -> (r: Option<Event>)
        ensures
            match file_event_spec(self@, descriptor, length as nat) {
                None => r is None,
                Some((false, d)) => r matches Some(Event::Append { descriptor }) && descriptor == d,
                Some((true, d)) => r matches Some(Event::Truncate { descriptor }) && descriptor == d,
            },
    {
        match self.watched_files.get(descriptor) {
            None => None,
            Some(file) => {
                if file.position <= length {
                    Some(Event::Append { descriptor })
                } else {
                    Some(Event::Truncate { descriptor })
                }
            },
        }
    }

    fn follow(&self, descriptor: Descriptor) -> (r: Action)
        requires
            self@.files.dom().contains(descriptor),
        ensures
            r@ == follow(self@, descriptor),
    {
        if self.tailing {
            match self.watched_files.get(descriptor) {
                Some(file) => Action::Read { descriptor, position: file.position },
                None => Action::Nothing,
            }
        } else {
            Action::Nothing
        }
    }

    /// Takes in a path under the root that resolves to `canonical_path`.
    pub fn handle_event_create(&mut self, path: String, canonical_path: String) -> (r: Action)
        requires
            old(self).wf(),
        ensures
            final(self).wf(),
            (final(self)@, r@) == create_spec(old(self)@, path@, canonical_path@),
    {
        match self.watched_paths.get(canonical_path.as_str()) {
            Some(descriptor) => {
                let ghost before = self@;
                assert(before.paths.dom().contains(canonical_path@));
                assert(before.files.dom().contains(descriptor));
                let mut file = self.watched_files.take(descriptor).unwrap();
                let ghost names = strings_view(file.paths@);
                file.paths.push(path.clone());
                assert(strings_view(file.paths@) =~= names.push(path@));
                self.watched_files.put(descriptor, file);
                self.watched_paths.insert(path, descriptor);
                proof {
                    assert(self@.files =~= before.files.insert(
                        descriptor,
                        FileState { paths: names.push(path@), ..before.files[descriptor] },
                    ));
                    lemma_create_keeps_well_formed(before, path@, canonical_path@);
                }
                self.follow(descriptor)
            },
            None => Action::Open { path, canonical_path },
        }
    }

    /// Takes in a file that the driver has opened: `canonical_path`, found
    /// under `path`, is watched as `descriptor` and stands at `position`.
    /// `same_path` says whether the two are the same path, and
    /// `inside_root` whether the canonical path lies under the root.
    pub fn watch_opened(
        &mut self,
        path: String,
        canonical_path: String,
        descriptor: Descriptor,
        position: u64,
        same_path: bool,
        inside_root: bool,
    ) -> (r: Action)
        requires
            old(self).wf(),
        ensures
            final(self).wf(),
            (final(self)@, r@) == watch_spec(
                old(self)@,
                path@,
                canonical_path@,
                descriptor,
                position as nat,
                same_path,
                inside_root,
            ),
    {
        if self.watched_paths.contains_key(canonical_path.as_str()) {
            return self.handle_event_create(path, canonical_path);
        }
        let ghost before = self@;
        let mut paths: Vec<String> = Vec::new();
        paths.push(path.clone());
        if !same_path && inside_root {
            paths.push(canonical_path.clone());
        }
        assert(strings_view(paths@) =~= if !same_path && inside_root {
            seq![path@, canonical_path@]
        } else {
            seq![path@]
        });
        self.watched_paths.insert(canonical_path.clone(), descriptor);
        self.watched_paths.insert(path, descriptor);
        if !self.watched_files.contains_key(descriptor) {
            self.watched_files.put(
                descriptor,
                WatchedFile { canonical_path, paths, position, entry_buf: String::new() },
            );
        }
        proof {
            lemma_watch_keeps_well_formed(
                before,
                path@,
                canonical_path@,
                descriptor,
                position as nat,
                same_path,
                inside_root,
            );
        }
        self.follow(descriptor)
    }

    /// Takes in a file that the driver has opened, as [`Self::watch_opened`]
    /// does, and finds out itself, by the components of the paths, whether
    /// the two are the same path and whether the canonical path lies under
    /// the root.
    pub fn watch(&mut self, path: String, canonical_path: String, descriptor: Descriptor, position: u64) -> (r:
        Action)
        requires
            old(self).wf(),
        ensures
            final(self).wf(),
            (final(self)@, r@) == watch_spec(
                old(self)@,
                path@,
                canonical_path@,
                descriptor,
                position as nat,
                same_path(canonical_path@, path@),
                path_starts_with(canonical_path@, old(self)@.root_path),
            ),
    {
        let same = starts_with(canonical_path.as_str(), path.as_str()) && starts_with(
            path.as_str(),
            canonical_path.as_str(),
        );
        let inside_root = starts_with(canonical_path.as_str(), self.root_path.as_str());
        self.watch_opened(path, canonical_path, descriptor, position, same, inside_root)
    }

    /// Takes in the truncation of a watched file.
    pub fn handle_event_truncate(&mut self, descriptor: Descriptor) -> (r: Action)
        requires
            old(self).wf(),
        ensures
            final(self).wf(),
            (final(self)@, r@) == truncate_spec(old(self)@, descriptor),
    {
        let ghost before = self@;
        match self.watched_files.take(descriptor) {
            Some(mut file) => {
                file.position = 0;
                file.entry_buf = String::new();
                self.watched_files.put(descriptor, file);
                proof {
                    assert(self@.files =~= before.files.insert(
                        descriptor,
                        FileState { position: 0, buffer: Seq::empty(), ..before.files[descriptor] },
                    ));
                }
                Action::Read { descriptor, position: 0 }
            },
            None => {
                assert(self@.files =~= before.files);
                Action::Nothing
            },
        }
    }

    /// Takes in an event, and says what the driver has to do for it.
    pub fn handle_event(&mut self, event: Event) -> (r: Action)
        requires
            old(self).wf(),
        ensures
            final(self).wf(),
            (final(self)@, r@) == match event {
                Event::Create { path, canonical_path } => create_spec(
                    old(self)@,
                    path@,
                    canonical_path@,
                ),
                Event::Append { descriptor } => (
                    old(self)@,
                    if old(self)@.files.dom().contains(descriptor) {
                        Step::Read { descriptor, position: old(self)@.files[descriptor].position }
                    } else {
                        Step::Nothing
                    },
                ),
                Event::Truncate { descriptor } => truncate_spec(old(self)@, descriptor),
            },
    {
        match event {
            Event::Create { path, canonical_path } => self.handle_event_create(path, canonical_path),
            Event::Append { descriptor } => match self.position(descriptor) {
                Some(position) => Action::Read { descriptor, position },
                None => Action::Nothing,
            },
            Event::Truncate { descriptor } => self.handle_event_truncate(descriptor),
        }
    }
}

impl Collector {
    /// Takes in bytes that the driver has read from a watched file, from
    /// the position of the file onward, and hands back the records that
    /// they complete: for each line one record for each path of the file,
    /// with the path as its only label.
    pub fn read_file(&mut self, descriptor: Descriptor, bytes: &[u8]) -> (r: Result<
        Vec<LogEntry>,
        CollectorError,
    >)
        requires
            old(self).wf(),
        ensures
            final(self).wf(),
            final(self)@ == read_spec(old(self)@, descriptor, bytes@).0,
            match read_spec(old(self)@, descriptor, bytes@).1 {
                Ok(records) => r matches Ok(entries) && entries_view(entries@) == records,
                Err(e) => r == Err::<Vec<LogEntry>, CollectorError>(e),
            },
    {
        let ghost before = self@;
        let mut file = match self.watched_files.take(descriptor) {
            Some(file) => file,
            None => {
                assert(self@.files =~= before.files);
                return Err(CollectorError::NotWatched { descriptor });
            },
        };
        let ghost state = file@;
        if bytes.len() as u64 > u64::MAX - file.position {
            self.watched_files.put(descriptor, file);
            assert(self@.files =~= before.files);
            return Err(CollectorError::PositionOverflow { descriptor });
        }
        proof {
            lemma_drain_consumed(file.entry_buf@, bytes@);
        }
        let read = drain(&mut file.entry_buf, bytes);
        file.position = file.position + read.consumed as u64;
        let entries = make_entries(&read.lines, &file.paths);
        self.watched_files.put(descriptor, file);
        proof {
            let outcome = drain_spec(state.buffer, bytes@);
            assert(self@.files =~= before.files.insert(
                descriptor,
                FileState {
                    position: (state.position + outcome.consumed) as nat,
                    buffer: outcome.buffer,
                    ..state
                },
            ));
        }
        if read.valid {
            Ok(entries)
        } else {
            Err(CollectorError::InvalidData { descriptor })
        }
    }

    /// Puts records behind those that wait to be handed out.
    pub fn buffer(&mut self, entries: Vec<LogEntry>)
        ensures
            final(self)@ == (CollectorState {
                pending: old(self)@.pending + entries_view(entries@),
                ..old(self)@
            }),
            old(self).wf() ==> final(self).wf(),
    {
        let ghost before = entries_view(self.entry_buf@);
        let ghost added = entries_view(entries@);
        let mut entries = entries;
        self.entry_buf.append(&mut entries);
        assert(entries_view(self.entry_buf@) =~= before + added);
    }

    /// Hands out the record that has waited longest. Where none waits, the
    /// driver has to wait for events of the watcher and take them in.
    pub fn next(&mut self) -> (r: Option<LogEntry>)
        ensures
            old(self)@.pending.len() == 0 ==> r is None && final(self)@ == old(self)@,
            old(self)@.pending.len() > 0 ==> (r matches Some(entry) && entry@ == old(self)@.pending[0]
                && final(self)@ == (CollectorState {
                pending: old(self)@.pending.drop_first(),
                ..old(self)@
            })),
            old(self).wf() ==> final(self).wf(),
    {
        if self.entry_buf.len() == 0 {
            None
        } else {
            let ghost before = entries_view(self.entry_buf@);
            let entry = self.entry_buf.remove(0);
            assert(entries_view(self.entry_buf@) =~= before.drop_first());
            assert(entry@ == before[0]);
            Some(entry)
        }
    }
}

/// The records of lines that were read from a file with the given paths.
fn make_entries(lines: &Vec<String>, paths: &Vec<String>) -> (r: Vec<LogEntry>)
    ensures
        entries_view(r@) == records_of(strings_view(lines@), strings_view(paths@)),
{
    let mut out: Vec<LogEntry> = Vec::new();
    let mut i: usize = 0;
    assert(entries_view(out@) =~= Seq::<Record>::empty());
    while i < lines.len()
        invariant
            i <= lines@.len(),
            entries_view(out@) == records_of(strings_view(lines@).take(i as int), strings_view(paths@)),
        decreases lines@.len() - i,
    {
        proof {
            let s = strings_view(lines@).take(i as int + 1);
            assert(s.drop_last() =~= strings_view(lines@).take(i as int));
            assert(s.last() == lines@[i as int]@);
        }
        let ghost before = entries_view(out@);
        let mut j: usize = 0;
        while j < paths.len()
            invariant
                i < lines@.len(),
                j <= paths@.len(),
                entries_view(out@) == before + line_records(
                    lines@[i as int]@,
                    strings_view(paths@),
                ).take(j as int),
            decreases paths@.len() - j,
        {
            let mut metadata = Metadata::new();
            metadata.insert("path".to_owned(), paths[j].clone());
            let ghost sofar = entries_view(out@);
            out.push(LogEntry { line: lines[i].clone(), metadata });
            proof {
                let all = line_records(lines@[i as int]@, strings_view(paths@));
                assert(out@[out@.len() - 1]@ == all[j as int]) by {
                    assert(out@[out@.len() - 1].metadata.entries() =~= seq![(path_label(), paths@[j as int]@)]);
                }
                assert(entries_view(out@) =~= sofar.push(all[j as int]));
                assert(all.take(j as int + 1) =~= all.take(j as int).push(all[j as int]));
            }
            j += 1;
        }
        proof {
            let all = line_records(lines@[i as int]@, strings_view(paths@));
            assert(all.take(j as int) =~= all);
        }
        i += 1;
    }
    assert(strings_view(lines@).take(i as int) =~= strings_view(lines@));
    out
}

/// One file for each canonical path: in a well-formed state, two watched
/// files with the same canonical path are one file. The driver opens a
/// file only when asked to, and it is asked only for a canonical path that
/// is not watched, so no canonical path is ever open twice.
pub proof fn lemma_one_file_per_canonical_path(s: CollectorState, a: Descriptor, b: Descriptor)
    requires
        well_formed(s),
        s.files.dom().contains(a),
        s.files.dom().contains(b),
        s.files[a].canonical_path == s.files[b].canonical_path,
    ensures
        a == b,
{
}

/// Every path under which a file is reported is a watched path, and leads
/// to a watched file; so does the canonical path of every watched file.
pub proof fn lemma_display_paths_are_watched(s: CollectorState, d: Descriptor, i: int)
    requires
        well_formed(s),
        s.files.dom().contains(d),
        0 <= i < s.files[d].paths.len(),
    ensures
        s.paths.dom().contains(s.files[d].paths[i]),
        s.files.dom().contains(s.paths[s.files[d].paths[i]]),
        s.paths.dom().contains(s.files[d].canonical_path),
        s.files.dom().contains(s.paths[s.files[d].canonical_path]),
{
    assert(s.paths.dom().contains(s.files[d].paths[i]));
}

/// The records of lines laid end to end are the records of both parts.
proof fn lemma_records_add(a: Seq<Seq<char>>, b: Seq<Seq<char>>, paths: Seq<Seq<char>>)
    ensures
        records_of(a + b, paths) == records_of(a, paths) + records_of(b, paths),
    decreases b.len(),
{
    if b.len() == 0 {
        assert(a + b =~= a);
        assert(records_of(a, paths) + records_of(b, paths) =~= records_of(a, paths));
    } else {
        assert((a + b).drop_last() =~= a + b.drop_last());
        assert((a + b).last() == b.last());
        lemma_records_add(a, b.drop_last(), paths);
        assert(records_of(a + b, paths) =~= records_of(a, paths) + records_of(b, paths));
    }
}

/// Tailing loses nothing and repeats nothing: where what was appended to a
/// watched file is read in two reads, and both succeed, the collector ends
/// in the state that one read of all the bytes leaves, and the records of
/// the two reads together are the records of that one read. The position
/// has moved on by the number of bytes that were read.
pub proof fn lemma_read_in_two_reads(s: CollectorState, descriptor: Descriptor, a: Seq<u8>, b: Seq<u8>)
    requires
        read_spec(s, descriptor, a).1 is Ok,
        read_spec(read_spec(s, descriptor, a).0, descriptor, b).1 is Ok,
    ensures
        read_spec(s, descriptor, a + b).0 == read_spec(read_spec(s, descriptor, a).0, descriptor, b).0,
        read_spec(s, descriptor, a + b).1 == Ok::<Seq<Record>, CollectorError>(
            read_spec(s, descriptor, a).1->Ok_0 + read_spec(
                read_spec(s, descriptor, a).0,
                descriptor,
                b,
            ).1->Ok_0,
        ),
        read_spec(s, descriptor, a + b).0.files[descriptor].position == s.files[descriptor].position
            + a.len() + b.len(),
{
    let file = s.files[descriptor];
    let first = drain_spec(file.buffer, a);
    let middle = read_spec(s, descriptor, a).0;
    let second = drain_spec(first.buffer, b);
    lemma_drain_consumed(file.buffer, a);
    lemma_drain_consumed(first.buffer, b);
    lemma_drain_in_two_reads(file.buffer, a, b);
    lemma_records_add(first.lines, second.lines, file.paths);
    assert(middle.files[descriptor].buffer == first.buffer);
    assert(read_spec(s, descriptor, a + b).0.files =~= read_spec(middle, descriptor, b).0.files);
}

/// Taking in a path keeps the state well-formed.
proof fn lemma_create_keeps_well_formed(s: CollectorState, path: Seq<char>, canonical_path: Seq<char>)
    requires
        well_formed(s),
    ensures
        well_formed(create_spec(s, path, canonical_path).0),
{
    if s.paths.dom().contains(canonical_path) {
        let d = s.paths[canonical_path];
        let after = create_spec(s, path, canonical_path).0;
        assert(s.files.dom().contains(d));
        assert forall|e: Descriptor, i: int|
            after.files.dom().contains(e) && 0 <= i < after.files[e].paths.len() implies after.paths.dom().contains(
            #[trigger] after.files[e].paths[i],
        ) by {
            if e == d {
                if i < s.files[d].paths.len() {
                    assert(after.files[e].paths[i] == s.files[d].paths[i]);
                }
            } else {
                assert(after.files[e].paths[i] == s.files[e].paths[i]);
            }
        }
        assert forall|a: Descriptor, b: Descriptor|
            after.files.dom().contains(a) && after.files.dom().contains(b) && (
            #[trigger] after.files[a]).canonical_path == (#[trigger] after.files[b]).canonical_path implies a
            == b by {
            assert(after.files[a].canonical_path == s.files[a].canonical_path);
            assert(after.files[b].canonical_path == s.files[b].canonical_path);
        }
    }
}

/// Taking in an opened file keeps the state well-formed.
proof fn lemma_watch_keeps_well_formed(
    s: CollectorState,
    path: Seq<char>,
    canonical_path: Seq<char>,
    descriptor: Descriptor,
    position: nat,
    same_path: bool,
    inside_root: bool,
)
    requires
        well_formed(s),
        !s.paths.dom().contains(canonical_path),
    ensures
        well_formed(watch_spec(s, path, canonical_path, descriptor, position, same_path, inside_root).0),
{
    let after = watch_spec(s, path, canonical_path, descriptor, position, same_path, inside_root).0;
    assert forall|e: Descriptor, i: int|
        after.files.dom().contains(e) && 0 <= i < after.files[e].paths.len() implies after.paths.dom().contains(
        #[trigger] after.files[e].paths[i],
    ) by {
        if s.files.dom().contains(e) {
            assert(after.files[e].paths[i] == s.files[e].paths[i]);
        }
    }
    assert forall|a: Descriptor, b: Descriptor|
        after.files.dom().contains(a) && after.files.dom().contains(b) && (#[trigger] after.files[a]).canonical_path
            == (#[trigger] after.files[b]).canonical_path implies a == b by {
        if a != b {
            if s.files.dom().contains(a) && s.files.dom().contains(b) {
            } else if s.files.dom().contains(a) {
                assert(s.paths.dom().contains(s.files[a].canonical_path));
            } else if s.files.dom().contains(b) {
                assert(s.paths.dom().contains(s.files[b].canonical_path));
            }
        }
    }
}

} // verus!
