//! The watched files: the tail state that the collector keeps for each
//! file that it follows.

use vstd::prelude::*;
use vstd::std_specs::hash::*;
use vstd::string::*;
use std::collections::HashMap;
use crate::log_collector::watcher::Descriptor;
use crate::text::strings_view;

verus! {

broadcast use group_hash_axioms;

/// The tail state of one file.
#[derive(Debug)]
pub struct WatchedFile {
    /// The path of the file with every link resolved: the path that was
    /// opened.
    pub canonical_path: String,
    /// The paths under which lines of the file are reported.
    pub paths: Vec<String>,
    /// The position of the next byte to read.
    pub position: u64,
    /// The line that the last read left unfinished.
    pub entry_buf: String,
}

/// A [`WatchedFile`] as specifications see it.
pub struct FileState {
    pub canonical_path: Seq<char>,
    pub paths: Seq<Seq<char>>,
    pub position: nat,
    pub buffer: Seq<char>,
}

impl View for WatchedFile {
    type V = FileState;

    open spec fn view(&self) -> FileState {
        FileState {
            canonical_path: self.canonical_path@,
            paths: strings_view(self.paths@),
            position: self.position as nat,
            buffer: self.entry_buf@,
        }
    }
}

/// A map from descriptors to watched files.
#[derive(Debug)]
pub struct FileTable {
    files: HashMap<Descriptor, WatchedFile>,
}

impl View for FileTable {
    type V = Map<Descriptor, FileState>;

    closed spec fn view(&self) -> Map<Descriptor, FileState> {
        self.files@.map_values(|file: WatchedFile| file@)
    }
}

impl FileTable {
    /// The empty table.
    pub fn new() -> (r: FileTable)
        ensures
            r@ == Map::<Descriptor, FileState>::empty(),
    {
        let r = FileTable { files: HashMap::new() };
        assert(r@ =~= Map::<Descriptor, FileState>::empty());
        r
    }

    /// The file behind `descriptor`, if it is watched.
    pub fn get(&self, descriptor: Descriptor) -> (r: Option<&WatchedFile>)
        ensures
            r is Some <==> self@.dom().contains(descriptor),
            r matches Some(file) ==> file@ == self@[descriptor],
    {
        self.files.get(&descriptor)
    }

    /// Whether `descriptor` stands for a watched file.
    pub fn contains_key(&self, descriptor: Descriptor) -> (r: bool)
        ensures
            r == self@.dom().contains(descriptor),
    {
        self.files.contains_key(&descriptor)
    }

    /// Takes the file behind `descriptor` out of the table.
    pub fn take(&mut self, descriptor: Descriptor) -> (r: Option<WatchedFile>)
        ensures
            r is Some <==> old(self)@.dom().contains(descriptor),
            r matches Some(file) ==> file@ == old(self)@[descriptor],
            final(self)@ == old(self)@.remove(descriptor),
    {
        let r = self.files.remove(&descriptor);
        assert(self@ =~= old(self)@.remove(descriptor));
        r
    }

    /// Puts a file into the table behind `descriptor`, in place of the one
    /// that was there.
    pub fn put(&mut self, descriptor: Descriptor, file: WatchedFile)
        ensures
            final(self)@ == old(self)@.insert(descriptor, file@),
    {
        self.files.insert(descriptor, file);
        assert(self@ =~= old(self)@.insert(descriptor, file@));
    }
}

} // verus!
