//! A log collector that collects logs from containers on a Kubernetes node.
//!
//! The records of a [`directory`](super::directory) collector are
//! post-processed: the path of a container's log file is taken apart into
//! the names that it is made of, and the labels of the pod are added.

use vstd::prelude::*;
use vstd::string::*;
use crate::assoc::{assoc_insert, assoc_map, assoc_remove};
use crate::log_collector::directory::{self, path_label};
use crate::metadata::{Label, Metadata};
use crate::LogEntry;

verus! {

/// Configuration for the Kubernetes collector.
pub struct Config {
    /// The root path from which to collect logs.
    ///
    /// This will default to the default Kubernetes log directory
    /// (`/var/log/containers`) if empty.
    pub root_path: Option<String>,
}

/// The configuration of the directory collector that works for the
/// Kubernetes collector.
pub fn directory_config(config: Config) -> (r: directory::Config)
    ensures
        r.root_path@ == match config.root_path {
            Some(path) => path@,
            None => "/var/log/containers"@,
        },
{
    match config.root_path {
        Some(root_path) => directory::Config { root_path },
        None => directory::Config { root_path: "/var/log/containers".to_owned() },
    }
}

/// The names that the path of a container's log file is made of.
#[derive(Debug)]
pub struct Pod {
    pub pod_name: String,
    pub namespace: String,
    pub container_name: String,
    pub container_id: String,
}

/// A [`Pod`] as specifications see it.
pub struct PodNames {
    pub pod_name: Seq<char>,
    pub namespace: Seq<char>,
    pub container_name: Seq<char>,
    pub container_id: Seq<char>,
}

impl View for Pod {
    type V = PodNames;

    open spec fn view(&self) -> PodNames {
        PodNames {
            pod_name: self.pod_name@,
            namespace: self.namespace@,
            container_name: self.container_name@,
            container_id: self.container_id@,
        }
    }
}

/// The position of the last occurrence of `c`, or -1 where there is none.
pub open spec fn last_index_of(s: Seq<char>, c: char) -> int
    decreases s.len(),
{
    if s.len() == 0 {
        -1
    } else if s.last() == c {
        s.len() - 1
    } else {
        last_index_of(s.drop_last(), c)
    }
}

/// The last component of a path: what follows its last slash.
pub open spec fn file_name(path: Seq<char>) -> Seq<char> {
    path.skip(last_index_of(path, '/') + 1)
}

/// The stem of a file name: what precedes its last dot, unless that dot
/// is missing or opens the name.
pub open spec fn file_stem(name: Seq<char>) -> Seq<char> {
    if last_index_of(name, '.') <= 0 {
        name
    } else {
        name.take(last_index_of(name, '.'))
    }
}

/// The pieces of `s` between occurrences of `c`.
pub open spec fn split(s: Seq<char>, c: char) -> Seq<Seq<char>>
    decreases s.len(),
{
    let i = last_index_of(s, c);
    if 0 <= i < s.len() {
        split(s.take(i), c).push(s.skip(i + 1))
    } else {
        seq![s]
    }
}

/// The names in the path of a log file that follows the convention
/// `<pod>_<namespace>_<container-name>_<container-id>.log`: the stem of
/// its file name has to fall into exactly four pieces at its underscores.
pub open spec fn parse_path_spec(path: Seq<char>) -> Option<PodNames> {
    let parts = split(file_stem(file_name(path)), '_');
    if parts.len() == 4 {
        Some(
            PodNames {
                pod_name: parts[0],
                namespace: parts[1],
                container_name: parts[2],
                container_id: parts[3],
            },
        )
    } else {
        None
    }
}

proof fn lemma_last_index_of(s: Seq<char>, c: char)
    ensures
        -1 <= last_index_of(s, c) < s.len(),
        last_index_of(s, c) >= 0 ==> s[last_index_of(s, c)] == c,
    decreases s.len(),
{
    if s.len() > 0 && s.last() != c {
        lemma_last_index_of(s.drop_last(), c);
    }
}

/// The characters of a string.
fn to_chars(s: &str) -> (r: Vec<char>)
    ensures
        r@ == s@,
{
    let n = s.unicode_len();
    let mut out: Vec<char> = Vec::new();
    let mut i: usize = 0;
    while i < n
        invariant
            n == s@.len(),
            i <= n,
            out@ == s@.take(i as int),
        decreases n - i,
    {
        out.push(s.get_char(i));
        assert(out@ =~= s@.take(i as int + 1));
        i += 1;
    }
    assert(s@.take(n as int) =~= s@);
    out
}

/// The last position of `c` between `lo` and `hi`.
fn rfind(chars: &Vec<char>, lo: usize, hi: usize, c: char) -> (r: Option<usize>)
    requires
        lo <= hi <= chars@.len(),
    ensures
        match r {
            Some(i) => lo <= i < hi && last_index_of(chars@.subrange(lo as int, hi as int), c) == i
                - lo,
            None => last_index_of(chars@.subrange(lo as int, hi as int), c) == -1,
        },
{
    let mut i: usize = hi;
    while i > lo
        invariant
            lo <= i <= hi <= chars@.len(),
            last_index_of(chars@.subrange(lo as int, hi as int), c) == last_index_of(
                chars@.subrange(lo as int, i as int),
                c,
            ),
        decreases i,
    {
        let ghost s = chars@.subrange(lo as int, i as int);
        assert(s.drop_last() =~= chars@.subrange(lo as int, i as int - 1));
        assert(s.last() == chars@[i as int - 1]);
        if chars[i - 1] == c {
            return Some(i - 1);
        }
        i -= 1;
    }
    None
}

/// Where the stem of the file name of a path begins and ends.
fn stem_bounds(chars: &Vec<char>) -> (r: (usize, usize))
    ensures
        r.0 <= r.1 <= chars@.len(),
        chars@.subrange(r.0 as int, r.1 as int) == file_stem(file_name(chars@)),
{
    let n = chars.len();
    let start = match rfind(chars, 0, n, '/') {
        Some(i) => i + 1,
        None => 0,
    };
    assert(chars@.subrange(0, n as int) =~= chars@);
    let ghost name = chars@.subrange(start as int, n as int);
    assert(name =~= file_name(chars@));
    let end = match rfind(chars, start, n, '.') {
        Some(d) => if d > start {
            d
        } else {
            n
        },
        None => n,
    };
    assert(chars@.subrange(start as int, end as int) =~= file_stem(name));
    (start, end)
}

/// The last occurrence of `c` between `lo` and `hi` cuts off the last
/// piece.
fn cut(chars: &Vec<char>, lo: usize, hi: usize, c: char) -> (r: Option<usize>)
    requires
        lo <= hi <= chars@.len(),
    ensures
        match r {
            Some(i) => lo <= i < hi && split(chars@.subrange(lo as int, hi as int), c) == split(
                chars@.subrange(lo as int, i as int),
                c,
            ).push(chars@.subrange(i as int + 1, hi as int)),
            None => split(chars@.subrange(lo as int, hi as int), c) == seq![
                chars@.subrange(lo as int, hi as int),
            ],
        },
{
    let r = rfind(chars, lo, hi, c);
    proof {
        let s = chars@.subrange(lo as int, hi as int);
        match r {
            Some(i) => {
                assert(s.take(i - lo) =~= chars@.subrange(lo as int, i as int));
                assert(s.skip(i - lo + 1) =~= chars@.subrange(i as int + 1, hi as int));
            },
            None => {},
        }
    }
    r
}

/// The three underscores that cut the characters between `lo` and `hi`
/// into four pieces, if there are exactly three.
fn cut_in_four(chars: &Vec<char>, lo: usize, hi: usize) -> (r: Option<(usize, usize, usize)>)
    requires
        lo <= hi <= chars@.len(),
    ensures
        match r {
            Some((a, b, c)) => lo <= a < b < c < hi && split(chars@.subrange(lo as int, hi as int), '_')
                == seq![
                chars@.subrange(lo as int, a as int),
                chars@.subrange(a as int + 1, b as int),
                chars@.subrange(b as int + 1, c as int),
                chars@.subrange(c as int + 1, hi as int),
            ],
            None => split(chars@.subrange(lo as int, hi as int), '_').len() != 4,
        },
{
    let c = match cut(chars, lo, hi, '_') {
        Some(i) => i,
        None => {
            return None;
        },
    };
    let b = match cut(chars, lo, c, '_') {
        Some(i) => i,
        None => {
            return None;
        },
    };
    let a = match cut(chars, lo, b, '_') {
        Some(i) => i,
        None => {
            return None;
        },
    };
    match cut(chars, lo, a, '_') {
        Some(i) => {
            proof {
                lemma_split_nonempty(chars@.subrange(lo as int, i as int), '_');
            }
            None
        },
        None => {
            assert(split(chars@.subrange(lo as int, hi as int), '_') =~= seq![
                chars@.subrange(lo as int, a as int),
                chars@.subrange(a as int + 1, b as int),
                chars@.subrange(b as int + 1, c as int),
                chars@.subrange(c as int + 1, hi as int),
            ]);
            Some((a, b, c))
        },
    }
}

/// Takes the path of a container's log file apart, if it follows the
/// convention `<pod>_<namespace>_<container-name>_<container-id>.log`.
pub fn parse_path(path: &str) -> (r: Option<Pod>)
    ensures
        match parse_path_spec(path@) {
            Some(names) => r matches Some(pod) && pod@ == names,
            None => r is None,
        },
{
    let chars = to_chars(path);
    let (start, end) = stem_bounds(&chars);
    match cut_in_four(&chars, start, end) {
        None => None,
        Some((a, b, c)) => Some(
            Pod {
                pod_name: path.substring_char(start, a).to_owned(),
                namespace: path.substring_char(a + 1, b).to_owned(),
                container_name: path.substring_char(b + 1, c).to_owned(),
                container_id: path.substring_char(c + 1, end).to_owned(),
            },
        ),
    }
}

proof fn lemma_split_nonempty(s: Seq<char>, c: char)
    ensures
        split(s, c).len() >= 1,
    decreases s.len(),
{
    lemma_last_index_of(s, c);
    let i = last_index_of(s, c);
    if 0 <= i < s.len() {
        lemma_split_nonempty(s.take(i), c);
    }
}

/// The labels after those of `more` have been put in, one after the other.
pub open spec fn merge(labels: Seq<Label>, more: Seq<Label>) -> Seq<Label>
    decreases more.len(),
{
    if more.len() == 0 {
        labels
    } else {
        assoc_insert(merge(labels, more.drop_last()), more.last().0, more.last().1)
    }
}

/// The labels of a record once it is enriched. Where the record says which
/// path it came from and the path follows the convention, the path gives
/// way to the four names in it, and the labels of the pod are put in.
/// Other records stay as they are.
pub open spec fn enrich_spec(labels: Seq<Label>, pod_labels: Seq<Label>) -> Seq<Label> {
    if !assoc_map(labels).dom().contains(path_label()) {
        labels
    } else {
        match parse_path_spec(assoc_map(labels)[path_label()]) {
            None => labels,
            Some(names) => merge(
                assoc_insert(
                    assoc_insert(
                        assoc_insert(
                            assoc_insert(
                                assoc_remove(labels, path_label()),
                                "pod_name"@,
                                names.pod_name,
                            ),
                            "namespace"@,
                            names.namespace,
                        ),
                        "container_name"@,
                        names.container_name,
                    ),
                    "container_id"@,
                    names.container_id,
                ),
                pod_labels,
            ),
        }
    }
}

/// The pod that a record came from, if the record says which path it came
/// from and the path follows the convention. The labels of that pod are
/// what [`enrich`] is to be handed.
pub fn pod_of(entry: &LogEntry) -> (r: Option<Pod>)
    ensures
        match r {
            Some(pod) => entry.metadata@.dom().contains(path_label()) && parse_path_spec(
                entry.metadata@[path_label()],
            ) == Some(pod@),
            None => !entry.metadata@.dom().contains(path_label()) || parse_path_spec(
                entry.metadata@[path_label()],
            ) is None,
        },
{
    match entry.metadata.get("path") {
        Some(path) => parse_path(path.as_str()),
        None => None,
    }
}

/// Enriches a record with the names in its path and the labels of its pod.
pub fn enrich(entry: LogEntry, pod_labels: &Metadata) -> (r: LogEntry)
    ensures
        r.line@ == entry.line@,
        r.metadata.entries() == enrich_spec(entry.metadata.entries(), pod_labels.entries()),
{
    let pod = match pod_of(&entry) {
        Some(pod) => pod,
        None => {
            return entry;
        },
    };
    let mut out = entry;
    out.metadata.remove("path");
    out.metadata.insert("pod_name".to_owned(), pod.pod_name);
    out.metadata.insert("namespace".to_owned(), pod.namespace);
    out.metadata.insert("container_name".to_owned(), pod.container_name);
    out.metadata.insert("container_id".to_owned(), pod.container_id);
    let ghost base = out.metadata.entries();
    let n = pod_labels.len();
    let mut i: usize = 0;
    while i < n
        invariant
            n == pod_labels.entries().len(),
            i <= n,
            out.line@ == entry.line@,
            out.metadata.entries() == merge(base, pod_labels.entries().take(i as int)),
        decreases n - i,
    {
        proof {
            let s = pod_labels.entries().take(i as int + 1);
            assert(s.drop_last() =~= pod_labels.entries().take(i as int));
            assert(s.last() == pod_labels.entries()[i as int]);
        }
        let label = pod_labels.label(i).unwrap();
        out.metadata.insert(label.0.clone(), label.1.clone());
        i += 1;
    }
    assert(pod_labels.entries().take(n as int) =~= pod_labels.entries());
    out
}

} // verus!
