//! The log store: lines sharded by the fingerprint of their metadata, with
//! an index from each label to the shards that carry it.
//!
//! A shard is a pair of files in the data directory, both named by the
//! fingerprint: the data file (`dat`) holds the lines, the metadata file
//! (`json`) the labels. The store itself touches no file. [`Database::open`]
//! takes the listing of the directory, [`Database::write`] answers with the
//! bytes to put on disk, and [`Database::query`] takes the data files that
//! [`Database::shards`] asked for.

pub mod fingerprint;
pub mod index;
pub mod laws;
pub mod reopen;
pub mod shard;

use vstd::prelude::*;
use vstd::string::*;
use vstd::utf8::*;
use crate::assoc::assoc_map;
use crate::json::{json_object, json_text, parse_object, write_object};
use crate::log_database::fingerprint::{fingerprint, fingerprint_of};
use crate::log_database::index::{Index, IndexMap, contains_string, index_add_all};
use crate::log_database::shard::{
    DATA_FILE_RECORD_SEPARATOR, decode_lines, frame, read_lines, split_records,
};
use crate::metadata::{Label, Metadata, collect_labels};
use crate::text::{string_from_utf8, strings_view};
use crate::LogEntry;

verus! {

/// The configuration needed to open a database.
pub struct Config {
    /// The directory in which the database should store its data.
    pub data_directory: String,
}

/// The two kinds of file in a data directory.
#[derive(Clone, Copy, Debug, PartialEq, Eq, Structural)]
pub enum FileType {
    /// The lines of a shard.
    DataFile,
    /// The labels of a shard.
    MetadataFile,
}

/// One entry of the data directory, as it was found on disk.
pub struct DirEntry {
    /// The name of the entry within the directory, as bytes.
    pub name: Vec<u8>,
    /// Whether the entry is a regular file.
    pub is_file: bool,
    /// What the file holds. Only metadata files are looked into.
    pub contents: Vec<u8>,
}

/// One data file, as it was read from disk.
pub struct ShardData {
    /// The fingerprint that names the file.
    pub fingerprint: String,
    /// What the file holds.
    pub data: Vec<u8>,
}

/// Why the store refused an input.
#[derive(Debug)]
pub enum StoreError {
    /// Invalid data file: the extension of an entry is neither `dat` nor
    /// `json`.
    InvalidExtension { name: Vec<u8> },
    /// Invalid data file: an entry is not a regular file.
    NotAFile { name: Vec<u8> },
    /// Invalid data file name: the stem of an entry is not UTF-8.
    InvalidFileName { name: Vec<u8> },
    /// A metadata file does not hold a JSON object of strings.
    CorruptMetadata { name: Vec<u8> },
    /// The write to a new shard was planned without the text of its
    /// metadata file.
    MissingMetadata { fingerprint: String },
    /// A data file holds a record that is not UTF-8.
    CorruptShard { fingerprint: String },
    /// A query was not handed a data file that it needs.
    MissingShard { fingerprint: String },
}

/// A [`StoreError`] as specifications see it.
pub enum Failure {
    InvalidExtension { name: Seq<u8> },
    NotAFile { name: Seq<u8> },
    InvalidFileName { name: Seq<u8> },
    CorruptMetadata { name: Seq<u8> },
    MissingMetadata { fingerprint: Seq<char> },
    CorruptShard { fingerprint: Seq<char> },
    MissingShard { fingerprint: Seq<char> },
}

impl View for StoreError {
    type V = Failure;

    open spec fn view(&self) -> Failure {
        match self {
            StoreError::InvalidExtension { name } => Failure::InvalidExtension { name: name@ },
            StoreError::NotAFile { name } => Failure::NotAFile { name: name@ },
            StoreError::InvalidFileName { name } => Failure::InvalidFileName { name: name@ },
            StoreError::CorruptMetadata { name } => Failure::CorruptMetadata { name: name@ },
            StoreError::MissingMetadata { fingerprint } => Failure::MissingMetadata {
                fingerprint: fingerprint@,
            },
            StoreError::CorruptShard { fingerprint } => Failure::CorruptShard { fingerprint: fingerprint@ },
            StoreError::MissingShard { fingerprint } => Failure::MissingShard { fingerprint: fingerprint@ },
        }
    }
}

/// The position of the last dot of a file name, or -1 if it has none.
pub open spec fn last_dot(name: Seq<u8>) -> int
    decreases name.len(),
{
    if name.len() == 0 {
        -1
    } else if name.last() == 46u8 {
        name.len() - 1
    } else {
        last_dot(name.drop_last())
    }
}

/// The extension of a file name: what follows its last dot, unless that
/// dot is missing or opens the name.
pub open spec fn extension(name: Seq<u8>) -> Option<Seq<u8>> {
    if last_dot(name) <= 0 {
        None
    } else {
        Some(name.skip(last_dot(name) + 1))
    }
}

/// The stem of a file name: what precedes its extension.
pub open spec fn file_stem(name: Seq<u8>) -> Seq<u8> {
    if last_dot(name) <= 0 {
        name
    } else {
        name.take(last_dot(name))
    }
}

/// The extension of data files, `dat`.
pub open spec fn data_file_extension() -> Seq<u8> {
    seq![100u8, 97u8, 116u8]
}

/// The extension of metadata files, `json`.
pub open spec fn metadata_file_extension() -> Seq<u8> {
    seq![106u8, 115u8, 111u8, 110u8]
}

/// A file of a shard, told from the name of a directory entry.
pub struct ShardFile {
    /// Which of the two files of the shard it is.
    pub file_type: FileType,
    /// The fingerprint of the shard: the stem of the name.
    pub fingerprint: String,
}

/// What becomes of a directory entry: a file of a shard, or the reason why
/// it cannot be one. The extension is looked at first, then the kind of
/// entry, then the stem.
pub open spec fn classify_spec(name: Seq<u8>, is_file: bool) -> Result<(FileType, Seq<char>), Failure> {
    if extension(name) != Some(data_file_extension()) && extension(name) != Some(
        metadata_file_extension(),
    ) {
        Err(Failure::InvalidExtension { name })
    } else if !is_file {
        Err(Failure::NotAFile { name })
    } else if !valid_utf8(file_stem(name)) {
        Err(Failure::InvalidFileName { name })
    } else if extension(name) == Some(data_file_extension()) {
        Ok((FileType::DataFile, decode_utf8(file_stem(name))))
    } else {
        Ok((FileType::MetadataFile, decode_utf8(file_stem(name))))
    }
}

fn find_last_dot(name: &[u8]) -> (r: Option<usize>)
    ensures
        match r {
            Some(i) => i == last_dot(name@),
            None => last_dot(name@) == -1,
        },
        last_dot(name@) < name@.len(),
{
    let mut i: usize = name.len();
    assert(name@.take(i as int) =~= name@);
    while i > 0
        invariant
            i <= name@.len(),
            last_dot(name@) == last_dot(name@.take(i as int)),
        decreases i,
    {
        assert(name@.take(i as int).drop_last() =~= name@.take(i as int - 1));
        if name[i - 1] == 46u8 {
            return Some(i - 1);
        }
        i -= 1;
    }
    None
}

fn bytes_eq(a: &[u8], b: &[u8]) -> (r: bool)
    ensures
        r == (a@ == b@),
{
    if a.len() != b.len() {
        return false;
    }
    let mut i: usize = 0;
    while i < a.len()
        invariant
            a@.len() == b@.len(),
            i <= a@.len(),
            forall|j: int| 0 <= j < i ==> a@[j] == b@[j],
        decreases a@.len() - i,
    {
        if a[i] != b[i] {
            return false;
        }
        i += 1;
    }
    assert(a@ =~= b@);
    true
}

/// Tells which file of which shard a directory entry is.
pub fn classify(name: &[u8], is_file: bool) -> (r: Result<ShardFile, StoreError>)
    ensures
        match classify_spec(name@, is_file) {
            Ok((file_type, fingerprint)) => r matches Ok(f) && f.file_type == file_type
                && f.fingerprint@ == fingerprint,
            Err(failure) => r matches Err(e) && e@ == failure,
        },
{
    let dot = match find_last_dot(name) {
        Some(i) => i,
        None => 0,
    };
    if dot == 0 {
        return Err(StoreError::InvalidExtension { name: vstd::slice::slice_to_vec(name) });
    }
    let len = name.len();
    let ext = vstd::slice::slice_subrange(name, dot + 1, len);
    let dat: [u8; 3] = [100u8, 97u8, 116u8];
    let json: [u8; 4] = [106u8, 115u8, 111u8, 110u8];
    assert(dat@ =~= data_file_extension());
    assert(json@ =~= metadata_file_extension());
    let file_type = if bytes_eq(ext, dat.as_slice()) {
        FileType::DataFile
    } else if bytes_eq(ext, json.as_slice()) {
        FileType::MetadataFile
    } else {
        return Err(StoreError::InvalidExtension { name: vstd::slice::slice_to_vec(name) });
    };
    if !is_file {
        return Err(StoreError::NotAFile { name: vstd::slice::slice_to_vec(name) });
    }
    let stem = vstd::slice::slice_to_vec(vstd::slice::slice_subrange(name, 0, dot));
    match string_from_utf8(stem) {
        Some(fingerprint) => Ok(ShardFile { file_type, fingerprint }),
        None => Err(StoreError::InvalidFileName { name: vstd::slice::slice_to_vec(name) }),
    }
}

/// What the store knows, as specifications see it.
pub struct Store {
    /// The fingerprints of the shards that have a data file.
    pub files: Set<Seq<char>>,
    /// The index from labels to shards.
    pub index: IndexMap,
}

/// A store that knows nothing.
pub open spec fn empty_store() -> Store {
    Store { files: Set::empty(), index: IndexMap::empty() }
}

/// The store after a metadata file with the text `contents` has been read:
/// its labels are indexed under the fingerprint that they give.
pub open spec fn load_metadata(store: Store, name: Seq<u8>, contents: Seq<u8>) -> Result<Store, Failure> {
    match json_object(contents) {
        None => Err(Failure::CorruptMetadata { name }),
        Some(pairs) => {
            let labels = collect_labels(pairs);
            Ok(
                Store {
                    files: store.files,
                    index: index_add_all(store.index, labels, fingerprint_of(labels)),
                },
            )
        },
    }
}

/// The store after one directory entry has been taken in.
pub open spec fn load_entry(store: Store, entry: DirEntry) -> Result<Store, Failure> {
    match classify_spec(entry.name@, entry.is_file) {
        Err(failure) => Err(failure),
        Ok((FileType::DataFile, fingerprint)) => Ok(
            Store { files: store.files.insert(fingerprint), index: store.index },
        ),
        Ok((FileType::MetadataFile, _)) => load_metadata(store, entry.name@, entry.contents@),
    }
}

/// The store after the entries of a listing have been taken in, one after
/// the other, up to the first that is refused.
pub open spec fn load_listing(store: Store, listing: Seq<DirEntry>) -> Result<Store, Failure>
    decreases listing.len(),
{
    if listing.len() == 0 {
        Ok(store)
    } else {
        match load_listing(store, listing.drop_last()) {
            Err(failure) => Err(failure),
            Ok(before) => load_entry(before, listing.last()),
        }
    }
}

/// What a write asks to be put on disk.
///
/// For a shard that is new the driver makes the metadata file, then the
/// data file, and tells the store with [`Database::add_data_file`] that the
/// shard has its data file. Only then does it append the line. Until the
/// store is told, it plans every write to the shard as the first.
pub struct WritePlan {
    /// The fingerprint of the shard that the line goes to.
    pub fingerprint: String,
    /// For a new shard, the text of the metadata file, to be created before
    /// the data file.
    pub metadata: Option<Vec<u8>>,
    /// The bytes to append to the data file.
    pub data: Vec<u8>,
}

/// A [`WritePlan`] as specifications see it.
pub struct Plan {
    pub fingerprint: Seq<char>,
    pub metadata: Option<Seq<u8>>,
    pub data: Seq<u8>,
}

impl View for WritePlan {
    type V = Plan;

    open spec fn view(&self) -> Plan {
        Plan {
            fingerprint: self.fingerprint@,
            metadata: match self.metadata {
                Some(text) => Some(text@),
                None => None,
            },
            data: self.data@,
        }
    }
}

/// The store after the labels have been indexed under the shard.
pub open spec fn index_shard_spec(store: Store, fingerprint: Seq<char>, labels: Seq<Label>) -> Store {
    Store { files: store.files, index: index_add_all(store.index, labels, fingerprint) }
}

/// What a write asks for, given the fingerprint of the labels and, for a
/// new shard, their JSON text. A line for a shard that has its data file
/// goes behind a separator. A line for a new shard is the first of its
/// data file, which is made beside a new metadata file; without the text
/// of that file nothing is asked for.
pub open spec fn write_spec(store: Store, fingerprint: Seq<char>, line: Seq<char>, text: Option<Seq<u8>>) -> Result<
    Plan,
    Failure,
> {
    if store.files.contains(fingerprint) {
        Ok(
            Plan {
                fingerprint,
                metadata: None,
                data: seq![DATA_FILE_RECORD_SEPARATOR] + encode_utf8(line),
            },
        )
    } else {
        match text {
            Some(text) => Ok(Plan { fingerprint, metadata: Some(text), data: encode_utf8(line) }),
            None => Err(Failure::MissingMetadata { fingerprint }),
        }
    }
}

/// The data files that a query was handed, by fingerprint. Of two with
/// the same fingerprint the later one counts.
pub open spec fn disk_of(shards: Seq<ShardData>) -> Map<Seq<char>, Seq<u8>> {
    assoc_map(Seq::new(shards.len(), |i: int| (shards[i].fingerprint@, shards[i].data@)))
}

/// The lines of one shard: none where the shard has no data file, else
/// the lines of the file that was handed in.
pub open spec fn read_shard(store: Store, disk: Map<Seq<char>, Seq<u8>>, fingerprint: Seq<char>) -> Result<
    Seq<Seq<char>>,
    Failure,
> {
    if !store.files.contains(fingerprint) {
        Ok(Seq::empty())
    } else if !disk.dom().contains(fingerprint) {
        Err(Failure::MissingShard { fingerprint })
    } else {
        match decode_lines(split_records(disk[fingerprint])) {
            Some(lines) => Ok(lines),
            None => Err(Failure::CorruptShard { fingerprint }),
        }
    }
}

/// The lines of the shards, one shard after the other, up to the first
/// shard that cannot be read.
pub open spec fn read_shards(
    store: Store,
    disk: Map<Seq<char>, Seq<u8>>,
    fingerprints: Seq<Seq<char>>,
) -> Result<Seq<Seq<char>>, Failure>
    decreases fingerprints.len(),
{
    if fingerprints.len() == 0 {
        Ok(Seq::empty())
    } else {
        match read_shards(store, disk, fingerprints.drop_last()) {
            Err(failure) => Err(failure),
            Ok(lines) => match read_shard(store, disk, fingerprints.last()) {
                Err(failure) => Err(failure),
                Ok(more) => Ok(lines + more),
            },
        }
    }
}

/// The answer to a query: nothing where the index does not know the
/// label, else the lines of its shards.
pub open spec fn query_spec(store: Store, label: Label, disk: Map<Seq<char>, Seq<u8>>) -> Result<
    Option<Seq<Seq<char>>>,
    Failure,
> {
    if !store.index.dom().contains(label) {
        Ok(None)
    } else {
        match read_shards(store, disk, store.index[label]) {
            Ok(lines) => Ok(Some(lines)),
            Err(failure) => Err(failure),
        }
    }
}

/// Those of the fingerprints that have a data file.
pub open spec fn with_data_file(files: Set<Seq<char>>, fingerprints: Seq<Seq<char>>) -> Seq<Seq<char>>
    decreases fingerprints.len(),
{
    if fingerprints.len() == 0 {
        Seq::empty()
    } else if files.contains(fingerprints.last()) {
        with_data_file(files, fingerprints.drop_last()).push(fingerprints.last())
    } else {
        with_data_file(files, fingerprints.drop_last())
    }
}

/// A log database supporting key-value retrieval.
///
/// Log lines are stored in a flat file named with a hash of the entry's
/// metadata, and the metadata in a JSON file with the same base name. An
/// in-memory index is kept from every `(key, value)` pair of metadata to
/// the set of log files that include it.
#[derive(Debug)]
pub struct Database {
    data_directory: String,
    files: Vec<String>,
    index: Index,
}

impl View for Database {
    type V = Store;

    closed spec fn view(&self) -> Store {
        Store { files: strings_view(self.files@).to_set(), index: self.index@ }
    }
}

impl Database {
    /// The directory that the database was opened on.
    pub closed spec fn directory(&self) -> Seq<char> {
        self.data_directory@
    }

    /// A database on `config.data_directory` that knows no shard.
    pub fn new(config: Config) -> (r: Database)
        ensures
            r@ == empty_store(),
            r.directory() == config.data_directory@,
    {
        let r = Database { data_directory: config.data_directory, files: Vec::new(), index: Index::new() };
        assert(strings_view(r.files@).to_set() =~= Set::<Seq<char>>::empty());
        r
    }

    /// The directory in which the files of the shards live.
    pub fn data_directory(&self) -> (r: &String)
        ensures
            r@ == self.directory(),
    {
        &self.data_directory
    }

    /// Whether the shard has a data file.
    pub fn has_data_file(&self, fingerprint: &str) -> (r: bool)
        ensures
            r == self@.files.contains(fingerprint@),
    {
        contains_string(&self.files, fingerprint)
    }

    /// Takes note of the data file of a shard: the driver has found it in
    /// the directory, or has made it for a write to a new shard.
    pub fn add_data_file(&mut self, fingerprint: String)
        ensures
            final(self)@ == (Store { files: old(self)@.files.insert(fingerprint@), index: old(self)@.index }),
            final(self).directory() == old(self).directory(),
    {
        if !contains_string(&self.files, fingerprint.as_str()) {
            let ghost before = strings_view(self.files@);
            self.files.push(fingerprint);
            assert(strings_view(self.files@) =~= before.push(fingerprint@));
            assert(before.push(fingerprint@).to_set() =~= before.to_set().insert(fingerprint@)) by {
                assert forall|x: Seq<char>| before.push(fingerprint@).contains(x) <==> (x == fingerprint@
                    || before.contains(x)) by {
                    if before.push(fingerprint@).contains(x) {
                        let i = choose|i: int| 0 <= i < before.push(fingerprint@).len() && before.push(fingerprint@)[i] == x;
                        if i < before.len() {
                            assert(before[i] == x);
                        }
                    }
                    if before.contains(x) {
                        let i = choose|i: int| 0 <= i < before.len() && before[i] == x;
                        assert(before.push(fingerprint@)[i] == x);
                    }
                    if x == fingerprint@ {
                        assert(before.push(fingerprint@)[before.len() as int] == x);
                    }
                }
            }
        } else {
            assert(self@.files.insert(fingerprint@) =~= self@.files);
        }
    }

    /// Records the shard `fingerprint` in the index under each label of
    /// `metadata`.
    pub fn index_shard(&mut self, fingerprint: &str, metadata: &Metadata)
        ensures
            final(self)@ == index_shard_spec(old(self)@, fingerprint@, metadata.entries()),
            final(self).directory() == old(self).directory(),
    {
        let n = metadata.len();
        let mut i: usize = 0;
        while i < n
            invariant
                n == metadata.entries().len(),
                i <= n,
                self.files == old(self).files,
                self.data_directory == old(self).data_directory,
                self.index@ == index_add_all(
                    old(self).index@,
                    metadata.entries().take(i as int),
                    fingerprint@,
                ),
            decreases n - i,
        {
            proof {
                let s = metadata.entries().take(i as int + 1);
                assert(s.drop_last() =~= metadata.entries().take(i as int));
                assert(s.last() == metadata.entries()[i as int]);
            }
            let label = metadata.label(i).unwrap();
            self.index.add(label.0.as_str(), label.1.as_str(), fingerprint);
            i += 1;
        }
        assert(metadata.entries().take(n as int) =~= metadata.entries());
    }

    /// Takes in one entry of the data directory: the data file of a shard
    /// is noted, and the labels of a metadata file are indexed under the
    /// fingerprint that they give.
    pub fn load(&mut self, entry: &DirEntry) -> (r: Result<(), StoreError>)
        ensures
            match load_entry(old(self)@, *entry) {
                Ok(store) => r is Ok && final(self)@ == store,
                Err(failure) => r matches Err(e) && e@ == failure && final(self)@ == old(self)@,
            },
            final(self).directory() == old(self).directory(),
    {
        let file = match classify(entry.name.as_slice(), entry.is_file) {
            Ok(file) => file,
            Err(e) => {
                return Err(e);
            },
        };
        match file.file_type {
            FileType::DataFile => {
                self.add_data_file(file.fingerprint);
                Ok(())
            },
            FileType::MetadataFile => {
                match parse_object(entry.contents.as_slice()) {
                    Ok(pairs) => {
                        let metadata = Metadata::from_pairs(&pairs);
                        let key = fingerprint(&metadata);
                        self.index_shard(key.as_str(), &metadata);
                        Ok(())
                    },
                    Err(_) => Err(StoreError::CorruptMetadata { name: entry.name.clone() }),
                }
            },
        }
    }

    /// Opens the database on a data directory, given the listing of that
    /// directory. Every entry must be a regular file with the extension
    /// `dat` or `json` and a UTF-8 stem, and every metadata file a JSON
    /// object of strings; the first entry that is not decides the error.
    pub fn open(config: Config, listing: &Vec<DirEntry>) -> (r: Result<Database, StoreError>)
        ensures
            match load_listing(empty_store(), listing@) {
                Ok(store) => r matches Ok(database) && database@ == store && database.directory()
                    == config.data_directory@,
                Err(failure) => r matches Err(e) && e@ == failure,
            },
    {
        let mut database = Database::new(config);
        let mut i: usize = 0;
        while i < listing.len()
            invariant
                i <= listing@.len(),
                database.directory() == config.data_directory@,
                load_listing(empty_store(), listing@.take(i as int)) == Ok::<Store, Failure>(database@),
            decreases listing@.len() - i,
        {
            proof {
                let s = listing@.take(i as int + 1);
                assert(s.drop_last() =~= listing@.take(i as int));
                assert(s.last() == listing@[i as int]);
            }
            match database.load(&listing[i]) {
                Ok(()) => {},
                Err(e) => {
                    proof {
                        lemma_load_listing_fails(empty_store(), listing@, i as int + 1);
                    }
                    return Err(e);
                },
            }
            i += 1;
        }
        assert(listing@.take(i as int) =~= listing@);
        Ok(database)
    }

    /// Plans the write of a line, given the fingerprint of its labels and,
    /// for a shard that is new, the JSON text of the labels. The labels are
    /// indexed under the fingerprint, whatever comes of the plan.
    pub fn plan_write(&mut self, fingerprint: String, entry: &LogEntry, text: Option<Vec<u8>>) -> (r:
        Result<WritePlan, StoreError>)
        ensures
            final(self)@ == index_shard_spec(old(self)@, fingerprint@, entry.metadata.entries()),
            match write_spec(
                old(self)@,
                fingerprint@,
                entry.line@,
                match text {
                    Some(text) => Some(text@),
                    None => None,
                },
            ) {
                Ok(plan) => r matches Ok(p) && p@ == plan,
                Err(failure) => r matches Err(e) && e@ == failure,
            },
            final(self).directory() == old(self).directory(),
    {
        self.index_shard(fingerprint.as_str(), &entry.metadata);
        if self.has_data_file(fingerprint.as_str()) {
            let data = frame(entry.line.as_str(), false);
            Ok(WritePlan { fingerprint, metadata: None, data })
        } else {
            match text {
                Some(text) => {
                    let data = frame(entry.line.as_str(), true);
                    Ok(WritePlan { fingerprint, metadata: Some(text), data })
                },
                None => Err(StoreError::MissingMetadata { fingerprint }),
            }
        }
    }

    /// Appends one record: its labels are indexed under their fingerprint,
    /// and the answer says what to put on disk. A shard that is new gets a
    /// metadata file with the JSON text of the labels. The write always
    /// succeeds.
    pub fn write(&mut self, entry: &LogEntry) -> (r: Result<WritePlan, StoreError>)
        ensures
            final(self)@ == index_shard_spec(
                old(self)@,
                fingerprint_of(entry.metadata.entries()),
                entry.metadata.entries(),
            ),
            r matches Ok(p) && Ok::<Plan, Failure>(p@) == write_spec(
                old(self)@,
                fingerprint_of(entry.metadata.entries()),
                entry.line@,
                Some(json_text(entry.metadata.entries())),
            ),
            final(self).directory() == old(self).directory(),
    {
        let key = fingerprint(&entry.metadata);
        let text = if self.has_data_file(key.as_str()) {
            None
        } else {
            Some(write_object(&entry.metadata.to_vec()).unwrap())
        };
        self.plan_write(key, entry, text)
    }

    /// The shards whose data files a query for the label has to be handed:
    /// nothing where the index does not know the label, else those of its
    /// shards that have a data file.
    pub fn shards(&self, name: &str, value: &str) -> (r: Option<Vec<String>>)
        ensures
            r is Some <==> self@.index.dom().contains((name@, value@)),
            r matches Some(fingerprints) ==> strings_view(fingerprints@) == with_data_file(
                self@.files,
                self@.index[(name@, value@)],
            ),
    {
        let keys = match self.index.get(name, value) {
            Some(keys) => keys,
            None => {
                return None;
            },
        };
        let mut out: Vec<String> = Vec::new();
        let mut i: usize = 0;
        while i < keys.len()
            invariant
                i <= keys@.len(),
                strings_view(out@) == with_data_file(self@.files, strings_view(keys@).take(i as int)),
            decreases keys@.len() - i,
        {
            proof {
                let s = strings_view(keys@).take(i as int + 1);
                assert(s.drop_last() =~= strings_view(keys@).take(i as int));
                assert(s.last() == keys@[i as int]@);
            }
            if self.has_data_file(keys[i].as_str()) {
                let ghost before = strings_view(out@);
                out.push(keys[i].clone());
                assert(strings_view(out@) =~= before.push(keys@[i as int]@));
            }
            i += 1;
        }
        assert(strings_view(keys@).take(i as int) =~= strings_view(keys@));
        Some(out)
    }

    /// All lines whose metadata carries the label, given the data files of
    /// its shards: nothing where the index does not know the label, else
    /// the lines of each of its shards in the order in which they were
    /// written, one shard after the other.
    pub fn query(&self, name: &str, value: &str, shards: &Vec<ShardData>) -> (r: Result<
        Option<Vec<String>>,
        StoreError,
    >)
        ensures
            match query_spec(self@, (name@, value@), disk_of(shards@)) {
                Ok(None) => r matches Ok(None),
                Ok(Some(lines)) => r matches Ok(Some(found)) && strings_view(found@) == lines,
                Err(failure) => r matches Err(e) && e@ == failure,
            },
    {
        let keys = match self.index.get(name, value) {
            Some(keys) => keys,
            None => {
                return Ok(None);
            },
        };
        let ghost disk = disk_of(shards@);
        let mut lines: Vec<String> = Vec::new();
        let mut i: usize = 0;
        assert(strings_view(lines@) =~= Seq::<Seq<char>>::empty());
        while i < keys.len()
            invariant
                i <= keys@.len(),
                disk == disk_of(shards@),
                self@.index.dom().contains((name@, value@)),
                strings_view(keys@) == self@.index[(name@, value@)],
                read_shards(self@, disk, strings_view(keys@).take(i as int)) == Ok::<
                    Seq<Seq<char>>,
                    Failure,
                >(strings_view(lines@)),
            decreases keys@.len() - i,
        {
            proof {
                let s = strings_view(keys@).take(i as int + 1);
                assert(s.drop_last() =~= strings_view(keys@).take(i as int));
                assert(s.last() == keys@[i as int]@);
            }
            match self.read(keys[i].as_str(), shards) {
                Ok(mut more) => {
                    let ghost before = strings_view(lines@);
                    let ghost added = strings_view(more@);
                    lines.append(&mut more);
                    assert(strings_view(lines@) =~= before + added);
                },
                Err(e) => {
                    proof {
                        lemma_read_shards_fails(self@, disk, strings_view(keys@), i as int + 1);
                    }
                    return Err(e);
                },
            }
            i += 1;
        }
        assert(strings_view(keys@).take(i as int) =~= strings_view(keys@));
        Ok(Some(lines))
    }

    /// The lines of one shard, from the data files that were handed in.
    fn read(&self, fingerprint: &str, shards: &Vec<ShardData>) -> (r: Result<Vec<String>, StoreError>)
        ensures
            match read_shard(self@, disk_of(shards@), fingerprint@) {
                Ok(lines) => r matches Ok(found) && strings_view(found@) == lines,
                Err(failure) => r matches Err(e) && e@ == failure,
            },
    {
        if !self.has_data_file(fingerprint) {
            let none: Vec<String> = Vec::new();
            assert(strings_view(none@) =~= Seq::<Seq<char>>::empty());
            return Ok(none);
        }
        let ghost pairs = Seq::new(shards@.len(), |i: int| (shards@[i].fingerprint@, shards@[i].data@));
        let mut i: usize = shards.len();
        assert(pairs.take(i as int) =~= pairs);
        while i > 0
            invariant
                i <= shards@.len(),
                self@.files.contains(fingerprint@),
                pairs == Seq::new(shards@.len(), |i: int| (shards@[i].fingerprint@, shards@[i].data@)),
                assoc_map(pairs).dom().contains(fingerprint@) <==> assoc_map(pairs.take(i as int)).dom().contains(
                    fingerprint@,
                ),
                assoc_map(pairs).dom().contains(fingerprint@) ==> assoc_map(pairs)[fingerprint@]
                    == assoc_map(pairs.take(i as int))[fingerprint@],
            decreases i,
        {
            assert(pairs.take(i as int).drop_last() =~= pairs.take(i as int - 1));
            assert(pairs.take(i as int).last() == pairs[i as int - 1]);
            if crate::text::str_eq(shards[i - 1].fingerprint.as_str(), fingerprint) {
                return match read_lines(shards[i - 1].data.as_slice()) {
                    Some(lines) => Ok(lines),
                    None => Err(StoreError::CorruptShard { fingerprint: fingerprint.to_owned() }),
                };
            }
            i -= 1;
        }
        Err(StoreError::MissingShard { fingerprint: fingerprint.to_owned() })
    }
}

/// A listing of which a part is refused is refused for the same reason.
proof fn lemma_load_listing_fails(store: Store, listing: Seq<DirEntry>, n: int)
    requires
        0 <= n <= listing.len(),
        load_listing(store, listing.take(n)) is Err,
    ensures
        load_listing(store, listing) == load_listing(store, listing.take(n)),
    decreases listing.len() - n,
{
    if n == listing.len() {
        assert(listing.take(n) =~= listing);
    } else {
        assert(listing.take(n + 1).drop_last() =~= listing.take(n));
        lemma_load_listing_fails(store, listing, n + 1);
    }
}

/// Shards of which a part cannot be read fail for the same reason.
proof fn lemma_read_shards_fails(
    store: Store,
    disk: Map<Seq<char>, Seq<u8>>,
    fingerprints: Seq<Seq<char>>,
    n: int,
)
    requires
        0 <= n <= fingerprints.len(),
        read_shards(store, disk, fingerprints.take(n)) is Err,
    ensures
        read_shards(store, disk, fingerprints) == read_shards(store, disk, fingerprints.take(n)),
    decreases fingerprints.len() - n,
{
    if n == fingerprints.len() {
        assert(fingerprints.take(n) =~= fingerprints);
    } else {
        assert(fingerprints.take(n + 1).drop_last() =~= fingerprints.take(n));
        lemma_read_shards_fails(store, disk, fingerprints, n + 1);
    }
}

} // verus!
