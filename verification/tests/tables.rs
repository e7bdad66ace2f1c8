use monitoring_rs::log_collector::files::{FileTable, WatchedFile};
use monitoring_rs::log_collector::lines::drain;
use monitoring_rs::log_collector::paths::PathTable;
use monitoring_rs::log_database::index::{contains_string, Index};
use monitoring_rs::log_database::{Config, Database, DirEntry, StoreError};
use monitoring_rs::metadata::Metadata;

fn file(canonical_path: &str, position: u64) -> WatchedFile {
    WatchedFile {
        canonical_path: canonical_path.to_string(),
        paths: vec![canonical_path.to_string()],
        position,
        entry_buf: String::new(),
    }
}

#[test]
fn file_table_is_a_map() {
    let mut table = FileTable::new();
    assert!(!table.contains_key(3));
    assert!(table.get(3).is_none());
    assert!(table.take(3).is_none());

    table.put(3, file("/a", 1));
    table.put(4, file("/b", 2));
    table.put(3, file("/c", 5));
    assert!(table.contains_key(3));
    assert_eq!(table.get(3).unwrap().canonical_path, "/c");
    assert_eq!(table.get(4).unwrap().position, 2);

    let taken = table.take(3).unwrap();
    assert_eq!(taken.position, 5);
    assert!(!table.contains_key(3));
    assert!(table.contains_key(4));
}

#[test]
fn path_table_is_a_map() {
    let mut table = PathTable::new();
    assert_eq!(table.get("/a"), None);
    table.insert("/a".to_string(), 1);
    table.insert("/b".to_string(), 2);
    table.insert("/a".to_string(), 3);
    assert_eq!(table.get("/a"), Some(3));
    assert_eq!(table.get("/b"), Some(2));
    assert!(table.contains_key("/b"));
    assert!(!table.contains_key("/c"));
}

#[test]
fn index_keeps_each_shard_once_in_order() {
    let mut index = Index::new();
    assert!(index.get("k", "v").is_none());
    index.add("k", "v", "s1");
    index.add("k", "w", "s2");
    index.add("k", "v", "s3");
    index.add("k", "v", "s1");
    assert_eq!(
        index.get("k", "v"),
        Some(&vec!["s1".to_string(), "s3".to_string()])
    );
    assert_eq!(index.get("k", "w"), Some(&vec!["s2".to_string()]));
    assert!(index.get("v", "k").is_none());
    assert!(contains_string(&vec!["a".to_string(), "b".to_string()], "b"));
    assert!(!contains_string(&vec!["a".to_string(), "b".to_string()], "c"));
}

#[test]
fn drain_takes_lines_and_leaves_the_rest() {
    let mut buffer = "he".to_string();
    let read = drain(&mut buffer, b"llo\nworld\n!");
    assert_eq!(read.lines, vec!["hello".to_string(), "world".to_string()]);
    assert_eq!(read.consumed, 11);
    assert!(read.valid);
    assert_eq!(buffer, "!");

    let read = drain(&mut buffer, b"");
    assert_eq!((read.lines.len(), read.consumed, read.valid), (0, 0, true));
    assert_eq!(buffer, "!");

    let read = drain(&mut buffer, b"?\n\xff\nmore\n");
    assert_eq!(read.consumed, 4);
    assert!(!read.valid);
    assert_eq!(buffer, "");

    let mut buffer = "kept".to_string();
    let read = drain(&mut buffer, b"\xc3");
    assert_eq!((read.lines.len(), read.consumed, read.valid), (0, 1, false));
    assert_eq!(buffer, "kept");
}

#[test]
fn database_takes_in_entries_one_by_one() {
    let mut database = Database::new(Config {
        data_directory: "d".to_string(),
    });
    let entry = |name: &[u8], contents: &[u8]| DirEntry {
        name: name.to_vec(),
        is_file: true,
        contents: contents.to_vec(),
    };
    assert!(database.load(&entry(b"abc.dat", b"")).is_ok());
    assert!(database.has_data_file("abc"));
    assert!(matches!(
        database.load(&entry(b"abc.txt", b"")),
        Err(StoreError::InvalidExtension { .. })
    ));
    assert!(matches!(
        database.load(&entry(b"abc.json", b"[]")),
        Err(StoreError::CorruptMetadata { .. })
    ));
    assert_eq!(database.shards("a", "1"), None);
    assert!(database
        .load(&entry(b"abc.json", b"{\"a\": \"1\", \"b\": \"2\", \"a\": \"3\"}"))
        .is_ok());
    assert_eq!(database.shards("a", "1"), None);
    assert_eq!(database.shards("a", "3"), Some(vec![]));
    assert_eq!(database.shards("b", "2"), Some(vec![]));

    let mut labels = Metadata::new();
    labels.insert("x".to_string(), "y".to_string());
    database.index_shard("abc", &labels);
    database.index_shard("abc", &labels);
    database.index_shard("def", &labels);
    assert_eq!(database.shards("x", "y"), Some(vec!["abc".to_string()]));
    database.add_data_file("def".to_string());
    database.add_data_file("def".to_string());
    assert_eq!(
        database.shards("x", "y"),
        Some(vec!["abc".to_string(), "def".to_string()])
    );
}
