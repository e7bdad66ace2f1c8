use monitoring_rs::log_database::fingerprint::{fingerprint, fold_digest};
use monitoring_rs::log_database::shard::{frame, read_lines};
use monitoring_rs::log_database::{
    classify, Config, Database, DirEntry, FileType, ShardData, StoreError, WritePlan,
};
use monitoring_rs::metadata::Metadata;
use monitoring_rs::LogEntry;

/// A data directory kept in memory: the files by name, in the order in
/// which they were made.
struct Disk {
    files: Vec<(String, Vec<u8>)>,
}

impl Disk {
    fn new() -> Self {
        Disk { files: Vec::new() }
    }

    fn file(&mut self, name: &str) -> &mut Vec<u8> {
        if let Some(i) = self.files.iter().position(|f| f.0 == name) {
            return &mut self.files[i].1;
        }
        self.files.push((name.to_string(), Vec::new()));
        &mut self.files.last_mut().unwrap().1
    }

    fn carry_out(&mut self, plan: WritePlan) {
        if let Some(text) = plan.metadata {
            *self.file(&format!("{}.json", plan.fingerprint)) = text;
        }
        self.file(&format!("{}.dat", plan.fingerprint))
            .extend_from_slice(&plan.data);
    }

    fn listing(&self) -> Vec<DirEntry> {
        self.files
            .iter()
            .map(|(name, contents)| DirEntry {
                name: name.as_bytes().to_vec(),
                is_file: true,
                contents: contents.clone(),
            })
            .collect()
    }

    fn shards(&self, fingerprints: &[String]) -> Vec<ShardData> {
        let mut out = Vec::new();
        for fingerprint in fingerprints {
            let name = format!("{}.dat", fingerprint);
            if let Some(file) = self.files.iter().find(|f| f.0 == name) {
                out.push(ShardData {
                    fingerprint: fingerprint.clone(),
                    data: file.1.clone(),
                });
            }
        }
        out
    }
}

fn config() -> Config {
    Config {
        data_directory: "data".to_string(),
    }
}

fn temp_database() -> (Disk, Database) {
    let disk = Disk::new();
    let database = Database::open(config(), &disk.listing()).unwrap();
    (disk, database)
}

fn log_entry(line: &str, metadata: &[(&str, &str)]) -> LogEntry {
    let mut labels = Metadata::new();
    for (k, v) in metadata {
        labels.insert((*k).to_string(), (*v).to_string());
    }
    LogEntry {
        line: line.to_string(),
        metadata: labels,
    }
}

fn write(database: &mut Database, disk: &mut Disk, entry: &LogEntry) {
    let plan = database.write(entry).unwrap();
    let made = plan.metadata.as_ref().map(|_| plan.fingerprint.clone());
    disk.carry_out(plan);
    if let Some(fingerprint) = made {
        database.add_data_file(fingerprint);
    }
}

fn query(
    database: &Database,
    disk: &Disk,
    key: &str,
    value: &str,
) -> Result<Option<Vec<String>>, StoreError> {
    let shards = match database.shards(key, value) {
        Some(fingerprints) => disk.shards(&fingerprints),
        None => Vec::new(),
    };
    database.query(key, value, &shards)
}

#[test]
fn test_new_db() {
    let (mut disk, mut database) = temp_database();

    assert_eq!(query(&database, &disk, "foo", "bar").unwrap(), None);

    write(&mut database, &mut disk, &log_entry("line1", &[("foo", "bar")]));
    assert_eq!(
        query(&database, &disk, "foo", "bar").unwrap(),
        Some(vec!["line1".to_string()])
    );

    write(&mut database, &mut disk, &log_entry("line2", &[("foo", "bar")]));
    assert_eq!(
        query(&database, &disk, "foo", "bar").unwrap(),
        Some(vec!["line1".to_string(), "line2".to_string()])
    );
}

#[test]
fn test_existing_db() {
    let (mut disk, mut database) = temp_database();

    write(&mut database, &mut disk, &log_entry("line1", &[("foo", "bar")]));
    write(&mut database, &mut disk, &log_entry("line2", &[("foo", "bar")]));
    drop(database);

    let database = Database::open(config(), &disk.listing()).unwrap();

    assert_eq!(
        query(&database, &disk, "foo", "bar").unwrap(),
        Some(vec!["line1".to_string(), "line2".to_string()])
    );
}

#[test]
fn test_query_metadata() {
    let (mut disk, mut database) = temp_database();

    write(&mut database, &mut disk, &log_entry("line1", &[]));
    write(&mut database, &mut disk, &log_entry("line2", &[("hello", "world")]));
    write(&mut database, &mut disk, &log_entry("line2", &[("hello", "foo")]));

    assert_eq!(
        query(&database, &disk, "hello", "world").unwrap(),
        Some(vec!["line2".to_string()])
    );
}

#[test]
fn store_round_trip() {
    let (mut disk, mut database) = temp_database();
    write(&mut database, &mut disk, &log_entry("l1", &[("foo", "bar")]));
    write(&mut database, &mut disk, &log_entry("l2", &[("foo", "bar")]));
    write(&mut database, &mut disk, &log_entry("l3", &[("foo", "baz")]));

    for _ in 0..2 {
        assert_eq!(
            query(&database, &disk, "foo", "bar").unwrap(),
            Some(vec!["l1".to_string(), "l2".to_string()])
        );
        assert_eq!(
            query(&database, &disk, "foo", "baz").unwrap(),
            Some(vec!["l3".to_string()])
        );
        assert_eq!(query(&database, &disk, "foo", "qux").unwrap(), None);
        database = Database::open(config(), &disk.listing()).unwrap();
    }
}

#[test]
fn reopening_on_a_listing_in_another_order() {
    let (mut disk, mut database) = temp_database();
    write(&mut database, &mut disk, &log_entry("l1", &[("foo", "bar"), ("a", "1")]));
    write(&mut database, &mut disk, &log_entry("l2", &[("foo", "bar")]));
    write(&mut database, &mut disk, &log_entry("l3", &[("a", "1"), ("foo", "bar")]));
    write(&mut database, &mut disk, &log_entry("l4", &[("foo", "bar"), ("b", "2")]));
    write(&mut database, &mut disk, &log_entry("l5", &[("foo", "bar")]));

    let mut listing = disk.listing();
    listing.reverse();
    let reopened = Database::open(config(), &listing).unwrap();

    for (key, value) in [("foo", "bar"), ("a", "1"), ("b", "2"), ("c", "3")] {
        let before = query(&database, &disk, key, value).unwrap();
        let after = query(&reopened, &disk, key, value).unwrap();
        let sorted = |lines: Option<Vec<String>>| {
            lines.map(|mut lines| {
                lines.sort();
                lines
            })
        };
        assert_eq!(sorted(before), sorted(after), "{}={}", key, value);
    }
    assert_eq!(
        query(&database, &disk, "foo", "bar").unwrap(),
        Some(
            ["l1", "l3", "l2", "l5", "l4"]
                .iter()
                .map(|l| l.to_string())
                .collect()
        )
    );
    assert_eq!(
        query(&reopened, &disk, "foo", "bar").unwrap(),
        Some(
            ["l4", "l2", "l5", "l1", "l3"]
                .iter()
                .map(|l| l.to_string())
                .collect()
        )
    );
}

#[test]
fn labels_read_back_from_their_metadata_file() {
    let (mut disk, mut database) = temp_database();
    let labels = [
        ("quote\"d", "back\\slash"),
        ("new\nline", "tab\t"),
        ("h\u{e9}", "\u{1f600} \u{2013}"),
        ("", " "),
        ("{\"a\":", "\"b\"}"),
    ];
    write(&mut database, &mut disk, &log_entry("l1", &labels));
    write(&mut database, &mut disk, &log_entry("l2", &labels[..2]));

    let reopened = Database::open(config(), &disk.listing()).unwrap();
    for (key, value) in labels {
        assert_eq!(
            query(&reopened, &disk, key, value).unwrap(),
            query(&database, &disk, key, value).unwrap(),
            "{:?}={:?}",
            key,
            value
        );
    }
    assert_eq!(
        query(&reopened, &disk, "quote\"d", "back\\slash").unwrap(),
        Some(vec!["l1".to_string(), "l2".to_string()])
    );
    assert_eq!(
        query(&reopened, &disk, "", " ").unwrap(),
        Some(vec!["l1".to_string()])
    );
}

#[test]
fn fingerprint_order_independence() {
    let (mut disk, mut database) = temp_database();
    write(&mut database, &mut disk, &log_entry("x", &[("a", "1"), ("b", "2")]));
    write(&mut database, &mut disk, &log_entry("y", &[("b", "2"), ("a", "1")]));

    let names: Vec<&str> = disk.files.iter().map(|f| f.0.as_str()).collect();
    assert_eq!(
        names,
        vec![
            "71701529681ae771c51cf5c7ace06a3f.json",
            "71701529681ae771c51cf5c7ace06a3f.dat"
        ]
    );
    assert_eq!(
        query(&database, &disk, "a", "1").unwrap(),
        Some(vec!["x".to_string(), "y".to_string()])
    );
    assert_eq!(
        query(&database, &disk, "b", "2").unwrap(),
        Some(vec!["x".to_string(), "y".to_string()])
    );
}

#[test]
fn fingerprint_of_permuted_labels() {
    let a = log_entry("", &[("a", "1"), ("b", "2"), ("c", "3")]);
    let b = log_entry("", &[("c", "3"), ("a", "1"), ("b", "2")]);
    assert_eq!(fingerprint(&a.metadata), fingerprint(&b.metadata));
    assert_eq!(a, b);
}

#[test]
fn fingerprint_values() {
    assert_eq!(
        fingerprint(&Metadata::new()),
        "00000000000000000000000000000000"
    );
    assert_eq!(
        fingerprint(&log_entry("", &[("foo", "bar")]).metadata),
        "3858f62230ac3c915f300c664312c63f"
    );
    assert_eq!(
        log_entry("", &[("a", "1"), ("b", "2")]).metadata.fingerprint(),
        "71701529681ae771c51cf5c7ace06a3f"
    );
    assert_eq!(
        fingerprint(&log_entry("", &[("foo", "baz")]).metadata),
        "80338e79d2ca9b9c090ebaaa2ef293c7"
    );
}

#[test]
fn digests_fold_with_exclusive_or() {
    let zero = [0u8; 16];
    let mut a = [0u8; 16];
    let mut b = [0u8; 16];
    let mut folded = [0u8; 16];
    for i in 0..16 {
        a[i] = (i * 17) as u8;
        b[i] = 0xf0 | i as u8;
        folded[i] = a[i] ^ b[i];
    }
    assert_eq!(fold_digest(zero, a), a);
    assert_eq!(fold_digest(a, b), folded);
    assert_eq!(fold_digest(b, a), folded);
    assert_eq!(fold_digest(a, a), zero);
    assert_eq!(fold_digest(fold_digest(a, b), b), a);
}

#[test]
fn write_plans() {
    let (_disk, mut database) = temp_database();
    let entry = log_entry("line1", &[("b", "2"), ("a", "1")]);

    let plan = database.write(&entry).unwrap();
    assert_eq!(plan.fingerprint, "71701529681ae771c51cf5c7ace06a3f");
    assert_eq!(plan.metadata, Some(b"{\"a\":\"1\",\"b\":\"2\"}".to_vec()));
    assert_eq!(plan.data, b"line1".to_vec());

    // Until the store is told of the data file, the shard stays new.
    assert!(!database.has_data_file("71701529681ae771c51cf5c7ace06a3f"));
    let again = database.write(&entry).unwrap();
    assert_eq!(again.metadata, Some(b"{\"a\":\"1\",\"b\":\"2\"}".to_vec()));
    assert_eq!(again.data, b"line1".to_vec());
    database.add_data_file(plan.fingerprint);
    assert!(database.has_data_file("71701529681ae771c51cf5c7ace06a3f"));

    let plan = database.write(&log_entry("line2", &[("a", "1"), ("b", "2")])).unwrap();
    assert_eq!(plan.fingerprint, "71701529681ae771c51cf5c7ace06a3f");
    assert_eq!(plan.metadata, None);
    assert_eq!(plan.data, b"\x93line2".to_vec());
}

#[test]
fn plan_write_with_given_fingerprint() {
    let (_disk, mut database) = temp_database();
    let entry = log_entry("hello", &[("k", "v")]);

    let failed = database.plan_write("abc".to_string(), &entry, None);
    assert!(matches!(
        failed,
        Err(StoreError::MissingMetadata { fingerprint }) if fingerprint == "abc"
    ));
    assert!(!database.has_data_file("abc"));
    assert_eq!(database.shards("k", "v"), Some(vec![]));

    let plan = database
        .plan_write("abc".to_string(), &entry, Some(b"{}".to_vec()))
        .unwrap();
    assert_eq!(plan.fingerprint, "abc");
    assert_eq!(plan.metadata, Some(b"{}".to_vec()));
    assert_eq!(plan.data, b"hello".to_vec());
    assert_eq!(database.shards("k", "v"), Some(vec![]));
    database.add_data_file("abc".to_string());
    assert_eq!(database.shards("k", "v"), Some(vec!["abc".to_string()]));

    let plan = database.plan_write("abc".to_string(), &entry, None).unwrap();
    assert_eq!(plan.metadata, None);
    assert_eq!(plan.data, b"\x93hello".to_vec());
}

#[test]
fn frames_and_records() {
    assert_eq!(frame("a", true), b"a".to_vec());
    assert_eq!(frame("a", false), b"\x93a".to_vec());
    assert_eq!(read_lines(b""), Some(vec!["".to_string()]));
    assert_eq!(read_lines(b"a"), Some(vec!["a".to_string()]));
    assert_eq!(
        read_lines(b"a\x93b"),
        Some(vec!["a".to_string(), "b".to_string()])
    );
    assert_eq!(
        read_lines(b"a\x93\x93b"),
        Some(vec!["a".to_string(), "".to_string(), "b".to_string()])
    );
    assert_eq!(read_lines(b"\x93b"), Some(vec!["".to_string(), "b".to_string()]));
    assert_eq!(
        read_lines(b"a\x93"),
        Some(vec!["a".to_string(), "".to_string()])
    );
    assert_eq!(
        read_lines(b"\x93"),
        Some(vec!["".to_string(), "".to_string()])
    );
    assert_eq!(
        read_lines(b"\x93\x93"),
        Some(vec!["".to_string(), "".to_string(), "".to_string()])
    );
    assert_eq!(read_lines(b"a\x93\xff"), None);
}

#[test]
fn empty_lines_are_kept() {
    let (mut disk, mut database) = temp_database();
    write(&mut database, &mut disk, &log_entry("a", &[("foo", "bar")]));
    write(&mut database, &mut disk, &log_entry("", &[("foo", "bar")]));
    assert_eq!(
        query(&database, &disk, "foo", "bar").unwrap(),
        Some(vec!["a".to_string(), "".to_string()])
    );
    write(&mut database, &mut disk, &log_entry("b", &[("foo", "bar")]));
    assert_eq!(
        query(&database, &disk, "foo", "bar").unwrap(),
        Some(vec!["a".to_string(), "".to_string(), "b".to_string()])
    );

    // An empty line that is the first of its shard, and the only one.
    write(&mut database, &mut disk, &log_entry("", &[("k", "v")]));
    assert_eq!(
        query(&database, &disk, "k", "v").unwrap(),
        Some(vec!["".to_string()])
    );
    write(&mut database, &mut disk, &log_entry("", &[("k", "v")]));
    assert_eq!(
        query(&database, &disk, "k", "v").unwrap(),
        Some(vec!["".to_string(), "".to_string()])
    );

    let reopened = Database::open(config(), &disk.listing()).unwrap();
    assert_eq!(
        query(&reopened, &disk, "foo", "bar").unwrap(),
        Some(vec!["a".to_string(), "".to_string(), "b".to_string()])
    );
    assert_eq!(
        query(&reopened, &disk, "k", "v").unwrap(),
        Some(vec!["".to_string(), "".to_string()])
    );
}

#[test]
fn a_shard_that_was_not_made_is_planned_again() {
    let (mut disk, mut database) = temp_database();
    let entry = log_entry("one", &[("k", "v")]);

    // The driver fails to make the files of the first plan.
    let lost = database.write(&entry).unwrap();
    assert!(lost.metadata.is_some());
    assert_eq!(database.shards("k", "v"), Some(vec![]));
    assert_eq!(query(&database, &disk, "k", "v").unwrap(), Some(vec![]));

    write(&mut database, &mut disk, &entry);
    write(&mut database, &mut disk, &log_entry("two", &[("k", "v")]));
    assert_eq!(
        query(&database, &disk, "k", "v").unwrap(),
        Some(vec!["one".to_string(), "two".to_string()])
    );
    assert_eq!(disk.files.len(), 2);
}

#[test]
fn separator_in_a_line_corrupts_the_shard() {
    let (mut disk, mut database) = temp_database();
    write(&mut database, &mut disk, &log_entry("a\u{2013}b", &[("k", "v")]));
    let fingerprint = fingerprint(&log_entry("", &[("k", "v")]).metadata);
    assert!(matches!(
        query(&database, &disk, "k", "v"),
        Err(StoreError::CorruptShard { fingerprint: f }) if f == fingerprint
    ));
}

#[test]
fn corrupt_shard_leaves_others_queryable() {
    let (mut disk, mut database) = temp_database();
    write(&mut database, &mut disk, &log_entry("ok", &[("a", "1")]));
    write(&mut database, &mut disk, &log_entry("bad", &[("b", "2")]));
    let bad = fingerprint(&log_entry("", &[("b", "2")]).metadata);
    disk.file(&format!("{}.dat", bad)).push(0xff);

    assert!(matches!(
        query(&database, &disk, "b", "2"),
        Err(StoreError::CorruptShard { fingerprint }) if fingerprint == bad
    ));
    assert_eq!(
        query(&database, &disk, "a", "1").unwrap(),
        Some(vec!["ok".to_string()])
    );
}

#[test]
fn query_without_its_data_file() {
    let (mut disk, mut database) = temp_database();
    write(&mut database, &mut disk, &log_entry("l", &[("a", "1")]));
    let key = fingerprint(&log_entry("", &[("a", "1")]).metadata);
    assert!(matches!(
        database.query("a", "1", &Vec::new()),
        Err(StoreError::MissingShard { fingerprint }) if fingerprint == key
    ));
}

#[test]
fn metadata_file_without_data_file() {
    let listing = vec![DirEntry {
        name: b"whatever.json".to_vec(),
        is_file: true,
        contents: b"{\"foo\": \"bar\"}".to_vec(),
    }];
    let database = Database::open(config(), &listing).unwrap();
    assert_eq!(database.shards("foo", "bar"), Some(vec![]));
    assert_eq!(
        database.query("foo", "bar", &Vec::new()).unwrap(),
        Some(vec![])
    );
    assert_eq!(database.query("foo", "baz", &Vec::new()).unwrap(), None);
    assert_eq!(database.data_directory(), "data");
}

#[test]
fn classify_entries() {
    let data = classify(b"abc.dat", true).unwrap();
    assert_eq!(data.file_type, FileType::DataFile);
    assert_eq!(data.fingerprint, "abc");
    let metadata = classify(b"a.b.json", true).unwrap();
    assert_eq!(metadata.file_type, FileType::MetadataFile);
    assert_eq!(metadata.fingerprint, "a.b");

    for name in [&b"abc.txt"[..], b"abc", b".dat", b"dat", b"abc.", b"abc.DAT", b""] {
        assert!(matches!(
            classify(name, true),
            Err(StoreError::InvalidExtension { name: n }) if n == name
        ));
    }
    assert!(matches!(
        classify(b"abc.txt", false),
        Err(StoreError::InvalidExtension { .. })
    ));
    assert!(matches!(
        classify(b"abc.dat", false),
        Err(StoreError::NotAFile { name }) if name == b"abc.dat"
    ));
    assert!(matches!(
        classify(b"\xff.dat", true),
        Err(StoreError::InvalidFileName { name }) if name == b"\xff.dat"
    ));
    assert!(matches!(
        classify(b"\xff.dat", false),
        Err(StoreError::NotAFile { .. })
    ));
}

#[test]
fn open_refuses_the_first_bad_entry() {
    let entry = |name: &[u8], is_file: bool, contents: &[u8]| DirEntry {
        name: name.to_vec(),
        is_file,
        contents: contents.to_vec(),
    };
    let listing = vec![
        entry(b"a.dat", true, b"x"),
        entry(b"a.json", true, b"oh dear"),
        entry(b"b.txt", true, b""),
    ];
    assert!(matches!(
        Database::open(config(), &listing),
        Err(StoreError::CorruptMetadata { name }) if name == b"a.json"
    ));
    let listing = vec![entry(b"sub.dat", false, b""), entry(b"b.txt", true, b"")];
    assert!(matches!(
        Database::open(config(), &listing),
        Err(StoreError::NotAFile { name }) if name == b"sub.dat"
    ));
    let listing = vec![entry(b"a.json", true, b"{\"k\": 1}")];
    assert!(matches!(
        Database::open(config(), &listing),
        Err(StoreError::CorruptMetadata { .. })
    ));
}

#[test]
fn open_indexes_by_the_fingerprint_of_the_labels() {
    let listing = vec![
        DirEntry {
            name: b"misnamed.json".to_vec(),
            is_file: true,
            contents: b"{\"foo\": \"bar\"}".to_vec(),
        },
        DirEntry {
            name: b"3858f62230ac3c915f300c664312c63f.dat".to_vec(),
            is_file: true,
            contents: Vec::new(),
        },
    ];
    let database = Database::open(config(), &listing).unwrap();
    assert_eq!(
        database.shards("foo", "bar"),
        Some(vec!["3858f62230ac3c915f300c664312c63f".to_string()])
    );
    let shards = vec![ShardData {
        fingerprint: "3858f62230ac3c915f300c664312c63f".to_string(),
        data: b"one\x93two".to_vec(),
    }];
    assert_eq!(
        database.query("foo", "bar", &shards).unwrap(),
        Some(vec!["one".to_string(), "two".to_string()])
    );
}
