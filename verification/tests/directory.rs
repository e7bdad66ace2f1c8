use std::collections::BTreeMap;

use monitoring_rs::log_collector::directory::{
    initialize, Action, Check, Collector, CollectorError, Config, Event,
};
use monitoring_rs::log_collector::watcher::{Descriptor, Watcher, WatcherEvent};
use monitoring_rs::metadata::Metadata;
use monitoring_rs::LogEntry;

/// A file system kept in memory: files by their canonical path, and
/// symlinks from a path to the path that they stand for.
struct Fs {
    files: BTreeMap<String, Vec<u8>>,
    links: BTreeMap<String, String>,
}

impl Fs {
    fn new() -> Self {
        Fs {
            files: BTreeMap::new(),
            links: BTreeMap::new(),
        }
    }

    fn canonicalize(&self, path: &str) -> String {
        let mut path = path.to_string();
        loop {
            let mut changed = false;
            for (from, to) in &self.links {
                if &path == from {
                    path = to.clone();
                    changed = true;
                } else if path.starts_with(&format!("{}/", from)) {
                    path = format!("{}{}", to, &path[from.len()..]);
                    changed = true;
                }
            }
            if !changed {
                return path;
            }
        }
    }

    fn create(&mut self, path: &str) {
        let canonical = self.canonicalize(path);
        self.files.entry(canonical).or_default();
    }

    fn symlink(&mut self, target: &str, path: &str) {
        self.links.insert(path.to_string(), target.to_string());
    }

    fn append(&mut self, path: &str, text: &[u8]) {
        let canonical = self.canonicalize(path);
        self.files.get_mut(&canonical).unwrap().extend_from_slice(text);
    }

    fn truncate(&mut self, path: &str) {
        let canonical = self.canonicalize(path);
        self.files.get_mut(&canonical).unwrap().clear();
    }

    fn read_dir(&self, root: &str) -> Vec<String> {
        let directory = format!("{}/", self.canonicalize(root));
        let mut entries = Vec::new();
        for path in self.files.keys().chain(self.links.keys()) {
            if let Some(name) = path.strip_prefix(&directory) {
                if !name.contains('/') {
                    entries.push(format!("{}/{}", root, name));
                }
            }
        }
        entries
    }

    fn len(&self, canonical: &str) -> u64 {
        self.files[canonical].len() as u64
    }

    fn read(&self, canonical: &str, position: u64) -> Vec<u8> {
        let data = &self.files[canonical];
        data[(position as usize).min(data.len())..].to_vec()
    }
}

/// What runs a collector: it does for the collector what the collector
/// asks for, on a file system in memory and with a mock watcher.
struct Driver {
    root_path: String,
    watcher: Watcher,
    collector: Collector,
    open: BTreeMap<Descriptor, String>,
}

impl Driver {
    fn initialize(root_path: &str, fs: &Fs) -> Driver {
        let mut watcher = Watcher::new();
        let root_wd = watcher.watch_directory(&fs.canonicalize(root_path));
        let collector = initialize(
            Config {
                root_path: root_path.to_string(),
            },
            root_wd,
        );
        let mut driver = Driver {
            root_path: root_path.to_string(),
            watcher,
            collector,
            open: BTreeMap::new(),
        };
        for path in fs.read_dir(root_path) {
            if driver.collector.is_watched(&path) {
                continue;
            }
            let canonical_path = fs.canonicalize(&path);
            let entries = driver.create(fs, path, canonical_path).unwrap();
            assert!(entries.is_empty());
        }
        driver.collector.start();
        driver
    }

    fn perform(&mut self, fs: &Fs, action: Action) -> Result<Vec<LogEntry>, CollectorError> {
        match action {
            Action::Open {
                path,
                canonical_path,
            } => {
                assert!(!self.collector.is_watched(&canonical_path));
                assert!(!self.watcher.is_watched(&canonical_path));
                let descriptor = self.watcher.watch_file(&canonical_path);
                let position = fs.len(&canonical_path);
                self.open.insert(descriptor, canonical_path.clone());
                let action = self
                    .collector
                    .watch(path, canonical_path, descriptor, position);
                self.perform(fs, action)
            }
            Action::Read {
                descriptor,
                position,
            } => {
                let bytes = fs.read(&self.open[&descriptor], position);
                self.collector.read_file(descriptor, &bytes)
            }
            Action::Nothing => Ok(Vec::new()),
        }
    }

    fn create(
        &mut self,
        fs: &Fs,
        path: String,
        canonical_path: String,
    ) -> Result<Vec<LogEntry>, CollectorError> {
        let action = self.collector.handle_event_create(path, canonical_path);
        self.perform(fs, action)
    }

    fn collect_entries(&mut self, fs: &Fs) -> Result<Vec<LogEntry>, CollectorError> {
        assert!(self.watcher.is_watched(&fs.canonicalize(&self.root_path)));
        let events = self.watcher.read_events();
        assert!(!events.is_empty());
        let mut entries = Vec::new();
        for event in events {
            match self.collector.check_event(&event) {
                Check::Rescan => {
                    let listing = fs.read_dir(&self.root_path);
                    let mut creates = Vec::new();
                    for path in self.collector.unwatched(&listing) {
                        let canonical_path = fs.canonicalize(&path);
                        creates.push((path, canonical_path));
                    }
                    for (path, canonical_path) in creates {
                        entries.extend(self.create(fs, path, canonical_path)?);
                    }
                }
                Check::Measure { descriptor } => {
                    let length = fs.len(&self.open[&descriptor]);
                    if let Some(event) = self.collector.file_event(descriptor, length) {
                        let action = self.collector.handle_event(event);
                        entries.extend(self.perform(fs, action)?);
                    }
                }
                Check::Unregistered => {}
            }
        }
        Ok(entries)
    }

    fn next(&mut self, fs: &Fs) -> Option<Result<LogEntry, CollectorError>> {
        loop {
            if let Some(entry) = self.collector.next() {
                return Some(Ok(entry));
            }
            match self.collect_entries(fs) {
                Ok(entries) => self.collector.buffer(entries),
                Err(error) => return Some(Err(error)),
            }
        }
    }
}

fn log_entry(line: &str, metadata: &[(&str, &str)]) -> LogEntry {
    let mut labels = Metadata::new();
    for (k, v) in metadata {
        labels.insert((*k).to_string(), (*v).to_string());
    }
    LogEntry {
        line: line.to_string(),
        metadata: labels,
    }
}

fn create_log_file(fs: &mut Fs, dir: &str) -> String {
    let path = format!("{}/test.log", dir);
    fs.create(&path);
    path
}

#[test]
fn initialize_with_symlink() {
    let mut fs = Fs::new();
    let root_path = "/parent/logs";
    fs.symlink("/logs_dir", root_path);

    let mut driver = Driver::initialize(root_path, &fs);

    let file_path = driver.watcher.simulate_new_file("/logs_dir");
    fs.create(&file_path);
    driver.collect_entries(&fs).unwrap(); // refresh known files

    driver.watcher.simulate_write(&file_path);
    fs.append(&file_path, b"hello?\n");

    let entries = driver.collect_entries(&fs).unwrap();
    let expected_path = format!("{}/test.log", root_path);
    assert_eq!(entries, vec![log_entry("hello?", &[("path", &expected_path)])]);
}

#[test]
fn file_with_external_symlink() {
    let mut fs = Fs::new();
    let src_path = create_log_file(&mut fs, "/logs_dir");
    let src_path_canonical = fs.canonicalize(&src_path);
    let dst_path = "/root_dir/test.log";
    fs.symlink(&src_path, dst_path);

    let mut driver = Driver::initialize("/root_dir", &fs);

    driver.watcher.simulate_write(&src_path_canonical);
    fs.append(&src_path_canonical, b"hello?\n");

    let entries = driver.collect_entries(&fs).unwrap();
    assert_eq!(entries, vec![log_entry("hello?", &[("path", dst_path)])]);
}

#[test]
fn file_with_internal_symlink() {
    let mut fs = Fs::new();
    let root_path = "/root_dir";
    let src_path = create_log_file(&mut fs, root_path);
    let src_path_canonical = fs.canonicalize(&src_path);
    let dst_path = format!("{}/linked.log", root_path);
    fs.symlink(&src_path, &dst_path);

    let mut driver = Driver::initialize(root_path, &fs);

    driver.watcher.simulate_write(&src_path_canonical);
    fs.append(&src_path_canonical, b"hello?\n");

    let entries = driver.collect_entries(&fs).unwrap();
    assert_eq!(entries.len(), 2);

    let entry = log_entry("hello?", &[("path", &dst_path)]);
    assert!(
        entries.contains(&entry),
        "expected entry {:?}, but found: {:#?}",
        entry,
        entries
    );

    let entry = log_entry("hello?", &[("path", &src_path_canonical)]);
    assert!(
        entries.contains(&entry),
        "expected entry {:?}, but found: {:#?}",
        entry,
        entries
    );
}

#[test]
fn initialize_with_symlink_and_file_with_internal_symlink() {
    let mut fs = Fs::new();
    let root_path = "/parent/logs";
    fs.symlink("/logs_dir", root_path);

    let src_path = create_log_file(&mut fs, "/logs_dir");
    let src_path_canonical = fs.canonicalize(&src_path);
    let dst_path = format!("{}/linked.log", root_path);
    fs.symlink(&src_path, "/logs_dir/linked.log");

    let mut driver = Driver::initialize(root_path, &fs);

    driver.watcher.simulate_write(&src_path_canonical);
    fs.append(&src_path_canonical, b"hello?\n");

    let entries = driver.collect_entries(&fs).unwrap();
    assert_eq!(entries.len(), 2);

    let entry = log_entry("hello?", &[("path", &dst_path)]);
    assert!(
        entries.contains(&entry),
        "expected entry {:?}, but found: {:#?}",
        entry,
        entries
    );

    let path = format!("{}/test.log", root_path);
    let entry = log_entry("hello?", &[("path", &path)]);
    assert!(
        entries.contains(&entry),
        "expected entry {:?}, but found: {:#?}",
        entry,
        entries
    );
}

#[test]
fn collect_entries_empty_file() {
    let mut fs = Fs::new();
    let mut driver = Driver::initialize("/tmp_dir", &fs);

    create_log_file(&mut fs, "/tmp_dir");
    driver.watcher.simulate_new_file("/tmp_dir");

    // A new file will trigger an event but return no entries.
    let entries = driver.collect_entries(&fs).unwrap();
    assert_eq!(entries, vec![]);
}

#[test]
fn collect_entries_nonempty_file() {
    let mut fs = Fs::new();
    let mut driver = Driver::initialize("/tmp_dir", &fs);

    let file_path = create_log_file(&mut fs, "/tmp_dir");
    driver.watcher.simulate_new_file("/tmp_dir");

    driver.collect_entries(&fs).unwrap();

    fs.append(&file_path, b"hello?\n");
    fs.append(&file_path, b"world!\n");
    driver.watcher.simulate_write(&file_path);

    let entries = driver.collect_entries(&fs).unwrap();
    assert_eq!(
        entries,
        vec![
            log_entry("hello?", &[("path", &file_path)]),
            log_entry("world!", &[("path", &file_path)]),
        ]
    );
}

#[test]
fn iterator_yields_entries() {
    let mut fs = Fs::new();
    let mut driver = Driver::initialize("/tmp_dir", &fs);

    let file_path = create_log_file(&mut fs, "/tmp_dir");
    driver.watcher.simulate_new_file("/tmp_dir");

    driver.collect_entries(&fs).unwrap();

    fs.append(&file_path, b"hello?\n");
    fs.append(&file_path, b"world!\n");
    driver.watcher.simulate_write(&file_path);

    assert_eq!(
        driver.next(&fs).expect("expected at least 1 entry").unwrap(),
        log_entry("hello?", &[("path", &file_path)])
    );

    assert_eq!(
        driver.next(&fs).expect("expected at least 2 entries").unwrap(),
        log_entry("world!", &[("path", &file_path)])
    );
}

#[test]
fn fresh_tail() {
    let mut fs = Fs::new();
    let mut driver = Driver::initialize("/t", &fs);

    fs.create("/t/a.log");
    driver.watcher.simulate_write("/t");
    assert_eq!(driver.collect_entries(&fs).unwrap(), vec![]);

    fs.append("/t/a.log", b"hello\nworld\n");
    driver.watcher.simulate_write("/t/a.log");
    assert_eq!(
        driver.collect_entries(&fs).unwrap(),
        vec![
            log_entry("hello", &[("path", "/t/a.log")]),
            log_entry("world", &[("path", "/t/a.log")]),
        ]
    );
}

#[test]
fn files_found_at_initialization_are_tailed_from_their_end() {
    let mut fs = Fs::new();
    fs.create("/t/a.log");
    fs.append("/t/a.log", b"old\nhalf");
    let mut driver = Driver::initialize("/t", &fs);
    assert_eq!(driver.collector.position(1), Some(8));

    fs.append("/t/a.log", b" line\n");
    driver.watcher.simulate_write("/t/a.log");
    assert_eq!(
        driver.collect_entries(&fs).unwrap(),
        vec![log_entry(" line", &[("path", "/t/a.log")])]
    );
}

#[test]
fn truncation_resets() {
    let mut fs = Fs::new();
    fs.create("/t/a.log");
    let mut driver = Driver::initialize("/t", &fs);

    fs.append("/t/a.log", b"aaa\n");
    driver.watcher.simulate_write("/t/a.log");
    assert_eq!(
        driver.collect_entries(&fs).unwrap(),
        vec![log_entry("aaa", &[("path", "/t/a.log")])]
    );

    fs.truncate("/t/a.log");
    fs.append("/t/a.log", b"b\n");
    driver.watcher.simulate_write("/t/a.log");
    assert_eq!(
        driver.collect_entries(&fs).unwrap(),
        vec![log_entry("b", &[("path", "/t/a.log")])]
    );
    assert_eq!(driver.collector.position(1), Some(2));
}

#[test]
fn truncation_drops_the_unfinished_line() {
    let mut fs = Fs::new();
    fs.create("/t/a.log");
    let mut driver = Driver::initialize("/t", &fs);

    fs.append("/t/a.log", b"aaa");
    driver.watcher.simulate_write("/t/a.log");
    assert_eq!(driver.collect_entries(&fs).unwrap(), vec![]);

    fs.truncate("/t/a.log");
    fs.append("/t/a.log", b"b\n");
    driver.watcher.simulate_write("/t/a.log");
    assert_eq!(
        driver.collect_entries(&fs).unwrap(),
        vec![log_entry("b", &[("path", "/t/a.log")])]
    );
}

#[test]
fn partial_lines_wait_for_their_newline() {
    let mut fs = Fs::new();
    fs.create("/t/a.log");
    let mut driver = Driver::initialize("/t", &fs);

    fs.append("/t/a.log", b"hel");
    driver.watcher.simulate_write("/t/a.log");
    assert_eq!(driver.collect_entries(&fs).unwrap(), vec![]);

    fs.append("/t/a.log", b"lo\nwor");
    driver.watcher.simulate_write("/t/a.log");
    assert_eq!(
        driver.collect_entries(&fs).unwrap(),
        vec![log_entry("hello", &[("path", "/t/a.log")])]
    );

    fs.append("/t/a.log", b"ld\n\n");
    driver.watcher.simulate_write("/t/a.log");
    assert_eq!(
        driver.collect_entries(&fs).unwrap(),
        vec![
            log_entry("world", &[("path", "/t/a.log")]),
            log_entry("", &[("path", "/t/a.log")]),
        ]
    );
}

#[test]
fn two_reads_give_what_one_read_gives() {
    let text = "first\nsecond line\n\nh\u{e9}llo\nrest".as_bytes();
    let collector = || {
        let mut collector = initialize(
            Config {
                root_path: "/t".to_string(),
            },
            0,
        );
        collector.watch_opened("/t/a".to_string(), "/t/a".to_string(), 1, 0, true, true);
        collector
    };
    let mut whole = collector();
    let expected = whole.read_file(1, text).unwrap();
    assert_eq!(expected.len(), 4);
    assert_eq!(expected[3].line, "h\u{e9}llo");

    for cut in [0, 1, 5, 6, 7, 18, 19, 20, 22, 27, text.len()] {
        let mut parts = collector();
        let mut entries = parts.read_file(1, &text[..cut]).unwrap();
        entries.extend(parts.read_file(1, &text[cut..]).unwrap());
        assert_eq!(entries, expected, "cut at {}", cut);
        assert_eq!(parts.position(1), Some(text.len() as u64));
    }

    // A read that ends within a character is refused.
    let mut parts = collector();
    assert_eq!(
        parts.read_file(1, &text[..21]),
        Err(CollectorError::InvalidData { descriptor: 1 })
    );
}

#[test]
fn internal_symlink_found_while_tailing() {
    let mut fs = Fs::new();
    let mut driver = Driver::initialize("/t", &fs);

    fs.create("/t/real.log");
    fs.symlink("/t/real.log", "/t/link.log");
    driver.watcher.simulate_write("/t");
    assert_eq!(driver.collect_entries(&fs).unwrap(), vec![]);

    fs.append("/t/real.log", b"x\n");
    driver.watcher.simulate_write("/t/real.log");
    let entries = driver.collect_entries(&fs).unwrap();
    assert!(entries.contains(&log_entry("x", &[("path", "/t/real.log")])));
    assert!(entries.contains(&log_entry("x", &[("path", "/t/link.log")])));
    for entry in &entries {
        assert_eq!(entry.line, "x");
    }
}

#[test]
fn external_symlink_attributes_to_link_name() {
    let mut fs = Fs::new();
    fs.create("/other/real.log");
    fs.symlink("/other/real.log", "/t/link.log");
    let mut driver = Driver::initialize("/t", &fs);

    fs.append("/other/real.log", b"y\n");
    driver.watcher.simulate_write("/other/real.log");
    assert_eq!(
        driver.collect_entries(&fs).unwrap(),
        vec![log_entry("y", &[("path", "/t/link.log")])]
    );
}

#[test]
fn events_of_unknown_descriptors_are_dropped() {
    let fs = Fs::new();
    let driver = Driver::initialize("/t", &fs);
    assert_eq!(
        driver.collector.check_event(&WatcherEvent { descriptor: 0 }),
        Check::Rescan
    );
    assert_eq!(
        driver.collector.check_event(&WatcherEvent { descriptor: 7 }),
        Check::Unregistered
    );
    assert!(driver.collector.file_event(7, 0).is_none());
}

#[test]
fn reads_of_unknown_descriptors_are_refused() {
    let fs = Fs::new();
    let mut driver = Driver::initialize("/t", &fs);
    assert_eq!(
        driver.collector.read_file(7, b"x\n"),
        Err(CollectorError::NotWatched { descriptor: 7 })
    );
    assert!(matches!(
        driver.collector.handle_event_truncate(7),
        Action::Nothing
    ));
    assert!(matches!(
        driver.collector.handle_event(Event::Append { descriptor: 7 }),
        Action::Nothing
    ));
}

#[test]
fn bytes_that_are_not_utf8_are_refused() {
    let mut fs = Fs::new();
    fs.create("/t/a.log");
    let mut driver = Driver::initialize("/t", &fs);

    fs.append("/t/a.log", b"ok\n\xff\xfe\nnext\n");
    driver.watcher.simulate_write("/t/a.log");
    assert_eq!(
        driver.collect_entries(&fs),
        Err(CollectorError::InvalidData { descriptor: 1 })
    );
    // The bad line was taken, what follows it was not.
    assert_eq!(driver.collector.position(1), Some(6));

    driver.watcher.simulate_write("/t/a.log");
    assert_eq!(
        driver.collect_entries(&fs).unwrap(),
        vec![log_entry("next", &[("path", "/t/a.log")])]
    );
}

#[test]
fn position_that_would_overflow_is_refused() {
    let mut driver = initialize(
        Config {
            root_path: "/t".to_string(),
        },
        0,
    );
    driver.start();
    assert!(matches!(
        driver.handle_event_create("/t/a.log".to_string(), "/t/a.log".to_string()),
        Action::Open { .. }
    ));
    let action = driver.watch(
        "/t/a.log".to_string(),
        "/t/a.log".to_string(),
        1,
        u64::MAX - 1,
    );
    assert!(matches!(
        action,
        Action::Read {
            descriptor: 1,
            position
        } if position == u64::MAX - 1
    ));
    assert_eq!(
        driver.read_file(1, b"ab"),
        Err(CollectorError::PositionOverflow { descriptor: 1 })
    );
    assert_eq!(driver.read_file(1, b"a"), Ok(vec![]));
    assert_eq!(driver.position(1), Some(u64::MAX));
}

#[test]
fn events_tell_growth_from_truncation() {
    let mut fs = Fs::new();
    fs.create("/t/a.log");
    fs.append("/t/a.log", b"12345");
    let driver = Driver::initialize("/t", &fs);
    assert!(matches!(
        driver.collector.file_event(1, 5),
        Some(Event::Append { descriptor: 1 })
    ));
    assert!(matches!(
        driver.collector.file_event(1, 9),
        Some(Event::Append { descriptor: 1 })
    ));
    assert!(matches!(
        driver.collector.file_event(1, 4),
        Some(Event::Truncate { descriptor: 1 })
    ));
    assert_eq!(Event::Append { descriptor: 1 }.name(), "Append");
    assert_eq!(Event::Truncate { descriptor: 1 }.name(), "Truncate");
    assert_eq!(
        Event::Create {
            path: String::new(),
            canonical_path: String::new()
        }
        .name(),
        "Create"
    );
}

#[test]
fn a_path_listed_beside_its_link_is_reported_once_more() {
    let mut fs = Fs::new();
    let mut driver = Driver::initialize("/t", &fs);

    // Both names turn up in one scan, the link first.
    fs.create("/t/real.log");
    fs.symlink("/t/real.log", "/t/a_link.log");
    let listing = vec!["/t/a_link.log".to_string(), "/t/real.log".to_string()];
    assert_eq!(driver.collector.unwatched(&listing), listing);
    for path in listing {
        let canonical_path = fs.canonicalize(&path);
        assert_eq!(driver.create(&fs, path, canonical_path), Ok(vec![]));
    }
    assert_eq!(
        driver.collector.unwatched(&vec![
            "/t/real.log".to_string(),
            "/t/new.log".to_string(),
            "/t/a_link.log".to_string()
        ]),
        vec!["/t/new.log".to_string()]
    );

    fs.append("/t/real.log", b"x\n");
    driver.watcher.simulate_write("/t/real.log");
    let paths: Vec<String> = driver
        .collect_entries(&fs)
        .unwrap()
        .iter()
        .map(|entry| entry.metadata.get("path").unwrap().clone())
        .collect();
    assert_eq!(
        paths,
        vec![
            "/t/a_link.log".to_string(),
            "/t/real.log".to_string(),
            "/t/real.log".to_string()
        ]
    );
}

#[test]
fn opened_files_and_their_paths() {
    let mut collector = initialize(
        Config {
            root_path: "/t".to_string(),
        },
        0,
    );
    collector.start();
    // A link to a file outside the root: one name.
    let action = collector.watch_opened("/t/l".to_string(), "/o/f".to_string(), 1, 3, false, false);
    assert!(matches!(action, Action::Read { descriptor: 1, position: 3 }));
    assert!(collector.is_watched("/t/l"));
    assert!(collector.is_watched("/o/f"));
    assert_eq!(collector.read_file(1, b"a\n").unwrap().len(), 1);
    // A link to a file inside the root: two names.
    collector.watch_opened("/t/m".to_string(), "/t/g".to_string(), 2, 0, false, true);
    assert_eq!(
        collector.read_file(2, b"a\n"),
        Ok(vec![
            log_entry("a", &[("path", "/t/m")]),
            log_entry("a", &[("path", "/t/g")])
        ])
    );
    // A file under its own name: one name, inside the root or not.
    collector.watch_opened("/t/h".to_string(), "/t/h".to_string(), 3, 0, true, true);
    assert_eq!(
        collector.read_file(3, b"a\n"),
        Ok(vec![log_entry("a", &[("path", "/t/h")])])
    );
    // A descriptor that is known keeps its file.
    collector.watch_opened("/t/i".to_string(), "/t/j".to_string(), 3, 0, false, true);
    assert!(collector.is_watched("/t/i"));
    assert_eq!(
        collector.read_file(3, b"b\n"),
        Ok(vec![log_entry("b", &[("path", "/t/h")])])
    );
    // Another name of a watched file.
    let action = collector.handle_event_create("/t/k".to_string(), "/t/j".to_string());
    assert!(matches!(action, Action::Read { descriptor: 3, position: 4 }));
    assert_eq!(
        collector.read_file(3, b"c\n"),
        Ok(vec![
            log_entry("c", &[("path", "/t/h")]),
            log_entry("c", &[("path", "/t/k")])
        ])
    );
}

#[test]
fn a_file_opened_in_vain_becomes_a_name_of_the_watched_file() {
    let mut collector = initialize(
        Config {
            root_path: "/t".to_string(),
        },
        0,
    );
    collector.start();
    collector.watch("/t/a".to_string(), "/t/real".to_string(), 1, 0);
    let action = collector.watch("/t/b".to_string(), "/t/real".to_string(), 2, 7);
    assert!(matches!(
        action,
        Action::Read {
            descriptor: 1,
            position: 0
        }
    ));
    assert_eq!(collector.position(2), None);
    assert!(collector.is_watched("/t/b"));
    assert_eq!(
        collector.read_file(1, b"l\n"),
        Ok(vec![
            log_entry("l", &[("path", "/t/a")]),
            log_entry("l", &[("path", "/t/real")]),
            log_entry("l", &[("path", "/t/b")])
        ])
    );
}

#[test]
fn paths_are_the_same_by_their_components() {
    let mut collector = initialize(
        Config {
            root_path: "/t/./".to_string(),
        },
        0,
    );
    collector.watch("/t/./a.log".to_string(), "/t/a.log".to_string(), 1, 0);
    collector.watch("/t/.//b.log".to_string(), "/t/b.log".to_string(), 2, 0);
    collector.watch("/t/./c.log".to_string(), "/t/d.log".to_string(), 3, 0);
    assert_eq!(
        collector.read_file(1, b"l\n"),
        Ok(vec![log_entry("l", &[("path", "/t/./a.log")])])
    );
    assert_eq!(
        collector.read_file(2, b"l\n"),
        Ok(vec![log_entry("l", &[("path", "/t/.//b.log")])])
    );
    assert_eq!(
        collector.read_file(3, b"l\n"),
        Ok(vec![
            log_entry("l", &[("path", "/t/./c.log")]),
            log_entry("l", &[("path", "/t/d.log")])
        ])
    );
    // Both spellings are watched paths.
    assert!(collector.is_watched("/t/./a.log"));
    assert!(collector.is_watched("/t/a.log"));
}

#[test]
fn whole_components_decide_what_lies_inside_the_root() {
    let mut collector = initialize(
        Config {
            root_path: "/t".to_string(),
        },
        0,
    );
    collector.watch("/t/a".to_string(), "/tx/a".to_string(), 1, 0);
    collector.watch("/t/b".to_string(), "/t/sub/b".to_string(), 2, 0);
    assert_eq!(
        collector.read_file(1, b"l\n"),
        Ok(vec![log_entry("l", &[("path", "/t/a")])])
    );
    assert_eq!(
        collector.read_file(2, b"l\n"),
        Ok(vec![
            log_entry("l", &[("path", "/t/b")]),
            log_entry("l", &[("path", "/t/sub/b")])
        ])
    );
}

#[test]
fn watcher_watch_directory_events() {
    let mut watcher = Watcher::new();
    let descriptor = watcher.watch_directory("/tmp_dir");

    watcher.simulate_new_file("/tmp_dir");

    let events = watcher.read_events_blocking();
    let event_descriptors: Vec<_> = events.iter().map(WatcherEvent::descriptor).collect();
    assert_eq!(event_descriptors, vec![descriptor]);
}

#[test]
fn watcher_watch_file_events() {
    let mut watcher = Watcher::new();
    let descriptor = watcher.watch_file("/tmp_dir/test.log");

    watcher.simulate_write("/tmp_dir/test.log");

    let events = watcher.read_events_blocking();
    let event_descriptors: Vec<_> = events.iter().map(WatcherEvent::descriptor).collect();
    assert_eq!(event_descriptors, vec![descriptor]);
}

#[test]
fn mod_watch_directory_events() {
    let mut watcher = Watcher::new();
    let descriptor = watcher.watch_directory("/tmp_dir");
    assert!(watcher.is_watched("/tmp_dir"));

    let file_path = watcher.simulate_new_file("/tmp_dir");
    assert_eq!(file_path, "/tmp_dir/test.log");

    let events = watcher.read_events_blocking();
    let event_descriptors: Vec<_> = events.iter().map(WatcherEvent::descriptor).collect();
    assert_eq!(event_descriptors, vec![descriptor]);
}

#[test]
fn mod_watch_file_events() {
    let mut watcher = Watcher::new();
    watcher.watch_directory("/tmp_dir");
    let descriptor = watcher.watch_file("/tmp_dir/test.log");

    watcher.simulate_write("/tmp_dir/test.log");

    let events = watcher.read_events_blocking();
    let event_descriptors: Vec<_> = events.iter().map(WatcherEvent::descriptor).collect();
    assert_eq!(event_descriptors, vec![descriptor]);
}

#[test]
fn one_handle_for_each_canonical_path() {
    let mut fs = Fs::new();
    fs.create("/t/real.log");
    fs.symlink("/t/real.log", "/t/one.log");
    fs.symlink("/t/real.log", "/t/two.log");
    fs.create("/o/out.log");
    fs.symlink("/o/out.log", "/t/three.log");
    fs.symlink("/o/out.log", "/t/four.log");
    let mut driver = Driver::initialize("/t", &fs);

    fs.symlink("/t/real.log", "/t/five.log");
    fs.symlink("/o/out.log", "/t/six.log");
    driver.watcher.simulate_write("/t");
    assert_eq!(driver.collect_entries(&fs).unwrap(), vec![]);

    // The root and the two files: nothing was opened twice.
    let mut opened: Vec<&String> = driver.open.values().collect();
    opened.sort();
    assert_eq!(opened, vec!["/o/out.log", "/t/real.log"]);
    assert!(!driver.watcher.is_watched("/t/one.log"));

    // Every name under which lines are reported is a watched path.
    fs.append("/t/real.log", b"a\n");
    fs.append("/o/out.log", b"b\n");
    driver.watcher.simulate_write("/t/real.log");
    driver.watcher.simulate_write("/o/out.log");
    let entries = driver.collect_entries(&fs).unwrap();
    assert_eq!(entries.len(), 4 + 3);
    for entry in &entries {
        let path = entry.metadata.get("path").unwrap();
        assert!(driver.collector.is_watched(path));
        let canonical = fs.canonicalize(path);
        assert!(driver.collector.is_watched(&canonical));
        assert_eq!(
            canonical,
            if entry.line == "a" {
                "/t/real.log"
            } else {
                "/o/out.log"
            }
        );
    }
}

#[test]
fn mock_watcher_hands_out_events_once() {
    let mut watcher = Watcher::new();
    assert_eq!(watcher.watch_directory("/d"), 0);
    assert_eq!(watcher.watch_file("/d/a"), 1);
    assert!(watcher.is_watched("/d/a"));
    assert!(!watcher.is_watched("/d/b"));
    assert_eq!(watcher.read_events(), vec![]);
    assert_eq!(watcher.simulate_new_file("/d"), "/d/test.log");
    watcher.simulate_write("/d/a");
    watcher.simulate_write("/d");
    assert_eq!(
        watcher.read_events(),
        vec![
            WatcherEvent { descriptor: 0 },
            WatcherEvent { descriptor: 1 },
            WatcherEvent { descriptor: 0 }
        ]
    );
    assert_eq!(watcher.read_events(), vec![]);
}
