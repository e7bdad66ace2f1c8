//! What the collector sees of the file and directory watcher.
//!
//! The watcher itself lives outside this library. It hands out a descriptor
//! for each directory or file that it is asked to watch, and tags each
//! event with the descriptor of what produced it.

use vstd::prelude::*;
use vstd::string::*;
use crate::text::{str_eq, strings_view};

verus! {

/// An opaque reference to a watched directory or file.
pub type Descriptor = u64;

/// An event of the watcher: something happened to what `descriptor`
/// stands for.
#[derive(Clone, Copy, Debug, PartialEq, Eq, Structural)]
pub struct WatcherEvent {
    /// The descriptor of the watch that produced the event.
    pub descriptor: Descriptor,
}

impl WatcherEvent {
    /// The descriptor of the watch that produced the event.
    pub fn descriptor(&self) -> (r: Descriptor)
        ensures
            r == self.descriptor,
    {
        self.descriptor
    }
}

/// What a vector of events holds.
pub open spec fn descriptors_of(v: Seq<WatcherEvent>) -> Seq<Descriptor> {
    Seq::new(v.len(), |i: int| v[i].descriptor)
}

/// The state of a mock watcher, as specifications see it.
pub struct MockState {
    /// The paths that were watched, in the order of the calls. The
    /// descriptor of a path is its position.
    pub watched_paths: Seq<Seq<char>>,
    /// The descriptors of the events that wait to be read.
    pub pending_events: Seq<Descriptor>,
}

/// The descriptor that a mock watcher gave for `path`: its position among
/// the watched paths, and the only position at which it stands.
pub open spec fn is_descriptor_of(s: MockState, descriptor: Descriptor, path: Seq<char>) -> bool {
    &&& descriptor < s.watched_paths.len()
    &&& s.watched_paths[descriptor as int] == path
    &&& forall|j: int| 0 <= j < s.watched_paths.len() && s.watched_paths[j] == path ==> j == descriptor
}

/// A mock watcher.
///
/// This watches no actual files: it records which paths were watched, and
/// hands out the events that a test prepared.
#[derive(Debug)]
pub struct Watcher {
    watched_paths: Vec<String>,
    pending_events: Vec<WatcherEvent>,
}

impl View for Watcher {
    type V = MockState;

    closed spec fn view(&self) -> MockState {
        MockState {
            watched_paths: strings_view(self.watched_paths@),
            pending_events: descriptors_of(self.pending_events@),
        }
    }
}

impl Watcher {
    #[verifier::type_invariant]
    spec fn inv(&self) -> bool {
        &&& strings_view(self.watched_paths@).no_duplicates()
        &&& self.watched_paths@.len() <= u64::MAX
    }

    /// Create a new instance.
    pub fn new() -> (r: Watcher)
        ensures
            r@.watched_paths.len() == 0,
            r@.pending_events.len() == 0,
    {
        Watcher { watched_paths: Vec::new(), pending_events: Vec::new() }
    }

    fn find(&self, path: &str) -> (r: Option<usize>)
        ensures
            match r {
                Some(i) => is_descriptor_of(self@, i as u64, path@),
                None => !self@.watched_paths.contains(path@),
            },
    {
        proof {
            use_type_invariant(self);
        }
        let mut i: usize = 0;
        while i < self.watched_paths.len()
            invariant
                i <= self.watched_paths@.len(),
                self.watched_paths@.len() <= u64::MAX,
                strings_view(self.watched_paths@).no_duplicates(),
                forall|j: int| 0 <= j < i ==> strings_view(self.watched_paths@)[j] != path@,
            decreases self.watched_paths@.len() - i,
        {
            if str_eq(self.watched_paths[i].as_str(), path) {
                assert(strings_view(self.watched_paths@)[i as int] == path@);
                return Some(i);
            }
            i += 1;
        }
        None
    }

    /// Whether `path` has been watched.
    pub fn is_watched(&self, path: &str) -> (r: bool)
        ensures
            r == self@.watched_paths.contains(path@),
    {
        match self.find(path) {
            Some(i) => {
                assert(self@.watched_paths[i as int] == path@);
                true
            },
            None => false,
        }
    }

    fn watch(&mut self, path: &str) -> (r: Descriptor)
        requires
            !old(self)@.watched_paths.contains(path@),
            old(self)@.watched_paths.len() < u64::MAX,
        ensures
            final(self)@.watched_paths == old(self)@.watched_paths.push(path@),
            final(self)@.pending_events == old(self)@.pending_events,
            is_descriptor_of(final(self)@, r, path@),
    {
        proof {
            use_type_invariant(&*self);
        }
        let ghost before = strings_view(self.watched_paths@);
        let mut watched_paths: Vec<String> = Vec::new();
        let mut pending_events: Vec<WatcherEvent> = Vec::new();
        core::mem::swap(&mut watched_paths, &mut self.watched_paths);
        core::mem::swap(&mut pending_events, &mut self.pending_events);
        let descriptor = watched_paths.len() as u64;
        watched_paths.push(path.to_owned());
        assert(strings_view(watched_paths@) =~= before.push(path@));
        *self = Watcher { watched_paths, pending_events };
        descriptor
    }

    /// Watch a directory for newly created files.
    ///
    /// This records that `path` has been watched, and hands back its
    /// descriptor. A path can be watched only once.
    pub fn watch_directory(&mut self, path: &str) -> (r: Descriptor)
        requires
            !old(self)@.watched_paths.contains(path@),
            old(self)@.watched_paths.len() < u64::MAX,
        ensures
            final(self)@.watched_paths == old(self)@.watched_paths.push(path@),
            final(self)@.pending_events == old(self)@.pending_events,
            is_descriptor_of(final(self)@, r, path@),
    {
        self.watch(path)
    }

    /// Watch a file for writes.
    ///
    /// This records that `path` has been watched, and hands back its
    /// descriptor. A path can be watched only once.
    pub fn watch_file(&mut self, path: &str) -> (r: Descriptor)
        requires
            !old(self)@.watched_paths.contains(path@),
            old(self)@.watched_paths.len() < u64::MAX,
        ensures
            final(self)@.watched_paths == old(self)@.watched_paths.push(path@),
            final(self)@.pending_events == old(self)@.pending_events,
            is_descriptor_of(final(self)@, r, path@),
    {
        self.watch(path)
    }

    fn push_event(&mut self, path: &str)
        requires
            old(self)@.watched_paths.contains(path@),
        ensures
            final(self)@.watched_paths == old(self)@.watched_paths,
            exists|d: Descriptor| #[trigger]
                is_descriptor_of(old(self)@, d, path@) && final(self)@.pending_events == old(
                    self,
                )@.pending_events.push(d),
    {
        let ghost before = descriptors_of(self.pending_events@);
        match self.find(path) {
            Some(i) => {
                let mut watched_paths: Vec<String> = Vec::new();
                let mut pending_events: Vec<WatcherEvent> = Vec::new();
                proof {
                    use_type_invariant(&*self);
                }
                core::mem::swap(&mut watched_paths, &mut self.watched_paths);
                core::mem::swap(&mut pending_events, &mut self.pending_events);
                pending_events.push(WatcherEvent { descriptor: i as u64 });
                assert(descriptors_of(pending_events@) =~= before.push(i as u64));
                *self = Watcher { watched_paths, pending_events };
                assert(is_descriptor_of(old(self)@, i as u64, path@));
            },
            None => {},
        }
    }

    /// Simulate a new file appearing in the given watched directory: an
    /// event for the directory is prepared, and the path of the file is
    /// handed back. Making the file is up to the caller.
    pub fn simulate_new_file(&mut self, dir_path: &str) -> (r: String)
        requires
            old(self)@.watched_paths.contains(dir_path@),
        ensures
            r@ == dir_path@ + "/test.log"@,
            final(self)@.watched_paths == old(self)@.watched_paths,
            exists|d: Descriptor| #[trigger]
                is_descriptor_of(old(self)@, d, dir_path@) && final(self)@.pending_events == old(
                    self,
                )@.pending_events.push(d),
    {
        self.push_event(dir_path);
        dir_path.to_owned().concat("/test.log")
    }

    /// Simulate a write to a watched file: an event for the file is
    /// prepared. Writing to the file is up to the caller.
    pub fn simulate_write(&mut self, path: &str)
        requires
            old(self)@.watched_paths.contains(path@),
        ensures
            final(self)@.watched_paths == old(self)@.watched_paths,
            exists|d: Descriptor| #[trigger]
                is_descriptor_of(old(self)@, d, path@) && final(self)@.pending_events == old(
                    self,
                )@.pending_events.push(d),
    {
        self.push_event(path);
    }

    /// Read some events about the registered directories and files: all
    /// that were prepared, which may be none.
    pub fn read_events(&mut self) -> (r: Vec<WatcherEvent>)
        ensures
            descriptors_of(r@) == old(self)@.pending_events,
            final(self)@.pending_events.len() == 0,
            final(self)@.watched_paths == old(self)@.watched_paths,
    {
        proof {
            use_type_invariant(&*self);
        }
        let mut watched_paths: Vec<String> = Vec::new();
        let mut pending_events: Vec<WatcherEvent> = Vec::new();
        core::mem::swap(&mut watched_paths, &mut self.watched_paths);
        core::mem::swap(&mut pending_events, &mut self.pending_events);
        *self = Watcher { watched_paths, pending_events: Vec::new() };
        pending_events
    }

    /// Read some events about the registered directories and files, of
    /// which at least one has to be prepared.
    pub fn read_events_blocking(&mut self) -> (r: Vec<WatcherEvent>)
        requires
            old(self)@.pending_events.len() > 0,
        ensures
            descriptors_of(r@) == old(self)@.pending_events,
            r@.len() > 0,
            final(self)@.pending_events.len() == 0,
            final(self)@.watched_paths == old(self)@.watched_paths,
    {
        self.read_events()
    }
}

} // verus!
