//! What holds of a store that is written to and then queried.
//!
//! The store touches no file, so the data directory is modelled here: for
//! each shard, by its fingerprint, the bytes of its data file and the text
//! of its metadata file. Carrying out the plan of a write puts into that
//! model what the plan says, a query is handed the data files, and a store
//! is opened on a listing of the model.

use vstd::prelude::*;
use vstd::utf8::*;
use vstd::seq_lib::*;
use crate::assoc::{assoc_map, distinct_keys, lemma_assoc_map_dom, lemma_assoc_map_index};
use crate::json::json_text;
use crate::log_database::fingerprint::fingerprint_of;
use crate::log_database::index::{IndexMap, index_add_all};
use crate::log_database::shard::{
    DATA_FILE_RECORD_SEPARATOR, decode_lines, join_records, lemma_split_join, separator_free,
};
use crate::log_database::{
    Failure, Plan, Store, empty_store, index_shard_spec, query_spec, read_shard, read_shards,
    write_spec,
};
use crate::metadata::Label;
use crate::Record;

verus! {

/// Files of one kind, by the fingerprint of their shard.
pub type Disk = Map<Seq<char>, Seq<u8>>;

/// The files of a data directory.
pub struct Directory {
    /// The data files.
    pub data: Disk,
    /// The metadata files.
    pub metadata: Disk,
}

/// The directory after the plan of a write has been carried out: the
/// metadata file of the plan, if it has one, is made, and the bytes of the
/// plan stand at the end of the data file of the shard.
pub open spec fn apply_plan(directory: Directory, plan: Plan) -> Directory {
    Directory {
        data: if directory.data.dom().contains(plan.fingerprint) {
            directory.data.insert(plan.fingerprint, directory.data[plan.fingerprint] + plan.data)
        } else {
            directory.data.insert(plan.fingerprint, plan.data)
        },
        metadata: match plan.metadata {
            Some(text) => directory.metadata.insert(plan.fingerprint, text),
            None => directory.metadata,
        },
    }
}

/// The store and the directory after one record has been written: the
/// store has planned the write, and the driver has carried out the plan and
/// told the store of the data file.
pub open spec fn write_record(store: Store, directory: Directory, record: Record) -> (Store, Directory) {
    let indexed = index_shard_spec(store, fingerprint_of(record.labels), record.labels);
    match write_spec(
        store,
        fingerprint_of(record.labels),
        record.line,
        Some(json_text(record.labels)),
    ) {
        Ok(plan) => (
            Store { files: indexed.files.insert(plan.fingerprint), index: indexed.index },
            apply_plan(directory, plan),
        ),
        Err(_) => (indexed, directory),
    }
}

/// The store and the directory after records have been written to a new
/// store on an empty directory, one after the other.
pub open spec fn write_all(records: Seq<Record>) -> (Store, Directory)
    decreases records.len(),
{
    if records.len() == 0 {
        (empty_store(), Directory { data: Map::empty(), metadata: Map::empty() })
    } else {
        let (store, disk) = write_all(records.drop_last());
        write_record(store, disk, records.last())
    }
}

/// The fingerprint of a record: that of its labels.
pub open spec fn shard_of(record: Record) -> Seq<char> {
    fingerprint_of(record.labels)
}

/// The lines of the records of one shard, in the order of the records.
pub open spec fn shard_lines(records: Seq<Record>, fingerprint: Seq<char>) -> Seq<Seq<char>>
    decreases records.len(),
{
    if records.len() == 0 {
        Seq::empty()
    } else if shard_of(records.last()) == fingerprint {
        shard_lines(records.drop_last(), fingerprint).push(records.last().line)
    } else {
        shard_lines(records.drop_last(), fingerprint)
    }
}

/// The shards of the records that carry a label, each once, in the order
/// in which the label first met them.
pub open spec fn label_shards(records: Seq<Record>, label: Label) -> Seq<Seq<char>>
    decreases records.len(),
{
    if records.len() == 0 {
        Seq::empty()
    } else {
        let before = label_shards(records.drop_last(), label);
        if records.last().labels.contains(label) && !before.contains(shard_of(records.last())) {
            before.push(shard_of(records.last()))
        } else {
            before
        }
    }
}

/// The lines of shards as a query reads them: shard after shard, and
/// within a shard in the order in which they were written.
pub open spec fn gather(records: Seq<Record>, fingerprints: Seq<Seq<char>>) -> Seq<Seq<char>>
    decreases fingerprints.len(),
{
    if fingerprints.len() == 0 {
        Seq::empty()
    } else {
        gather(records, fingerprints.drop_last()) + shard_lines(records, fingerprints.last())
    }
}

/// What every record must meet to be written and read back: its labels
/// have distinct names, and its line does not hold the separator.
pub open spec fn storable(record: Record) -> bool {
    &&& distinct_keys(record.labels)
    &&& !encode_utf8(record.line).contains(DATA_FILE_RECORD_SEPARATOR)
}

/// Every record is storable.
pub open spec fn all_storable(records: Seq<Record>) -> bool {
    forall|i: int| 0 <= i < records.len() ==> storable(#[trigger] records[i])
}

/// The lines as the bytes that are written for them.
pub open spec fn encoded(lines: Seq<Seq<char>>) -> Seq<Seq<u8>> {
    Seq::new(lines.len(), |i: int| encode_utf8(lines[i]))
}

/// A shard has lines exactly when some record belongs to it.
pub proof fn lemma_shard_lines(records: Seq<Record>, fingerprint: Seq<char>)
    ensures
        shard_lines(records, fingerprint).len() > 0 <==> exists|i: int|
            0 <= i < records.len() && shard_of(#[trigger] records[i]) == fingerprint,
    decreases records.len(),
{
    if records.len() > 0 {
        let front = records.drop_last();
        lemma_shard_lines(front, fingerprint);
        if exists|i: int| 0 <= i < front.len() && shard_of(#[trigger] front[i]) == fingerprint {
            let i = choose|i: int| 0 <= i < front.len() && shard_of(#[trigger] front[i]) == fingerprint;
            assert(shard_of(records[i]) == fingerprint);
        }
        if exists|i: int| 0 <= i < records.len() && shard_of(#[trigger] records[i]) == fingerprint {
            let i = choose|i: int|
                0 <= i < records.len() && shard_of(#[trigger] records[i]) == fingerprint;
            if i < front.len() {
                assert(shard_of(front[i]) == fingerprint);
            }
        }
    }
}

/// No line of a shard of storable records holds the separator.
pub proof fn lemma_shard_separator_free(records: Seq<Record>, fingerprint: Seq<char>)
    requires
        all_storable(records),
    ensures
        separator_free(encoded(shard_lines(records, fingerprint))),
    decreases records.len(),
{
    if records.len() > 0 {
        let front = records.drop_last();
        assert(all_storable(front)) by {
            assert forall|i: int| 0 <= i < front.len() implies storable(#[trigger] front[i]) by {
                assert(front[i] == records[i]);
            }
        }
        lemma_shard_separator_free(front, fingerprint);
        let lines = shard_lines(records, fingerprint);
        let earlier = shard_lines(front, fingerprint);
        assert forall|k: int| 0 <= k < encoded(lines).len() implies !(#[trigger] encoded(lines)[k]).contains(
            DATA_FILE_RECORD_SEPARATOR,
        ) by {
            if k < earlier.len() {
                assert(encoded(lines)[k] == encoded(earlier)[k]);
            } else {
                assert(storable(records[records.len() - 1]));
            }
        }
    }
}

/// The shards of a label are shards of records that carry it, each once,
/// and every record that carries the label has its shard among them.
pub proof fn lemma_label_shards(records: Seq<Record>, label: Label)
    ensures
        label_shards(records, label).no_duplicates(),
        forall|f: Seq<char>| #[trigger]
            label_shards(records, label).contains(f) <==> exists|i: int|
                0 <= i < records.len() && (#[trigger] records[i]).labels.contains(label) && shard_of(
                    records[i],
                ) == f,
    decreases records.len(),
{
    if records.len() > 0 {
        let front = records.drop_last();
        let last = records.last();
        let before = label_shards(front, label);
        let after = label_shards(records, label);
        lemma_label_shards(front, label);
        assert forall|f: Seq<char>| #[trigger] after.contains(f) <==> exists|i: int|
            0 <= i < records.len() && (#[trigger] records[i]).labels.contains(label) && shard_of(
                records[i],
            ) == f by {
            if after.contains(f) {
                let k = choose|k: int| 0 <= k < after.len() && after[k] == f;
                if k < before.len() {
                    assert(before[k] == f);
                    assert(before.contains(f));
                    let i = choose|i: int|
                        0 <= i < front.len() && (#[trigger] front[i]).labels.contains(label)
                            && shard_of(front[i]) == f;
                    assert(records[i].labels.contains(label) && shard_of(records[i]) == f);
                } else {
                    assert(records[records.len() - 1].labels.contains(label) && shard_of(
                        records[records.len() - 1],
                    ) == f);
                }
            }
            if exists|i: int|
                0 <= i < records.len() && (#[trigger] records[i]).labels.contains(label) && shard_of(
                    records[i],
                ) == f {
                let i = choose|i: int|
                    0 <= i < records.len() && (#[trigger] records[i]).labels.contains(label)
                        && shard_of(records[i]) == f;
                if i < front.len() {
                    assert(front[i].labels.contains(label) && shard_of(front[i]) == f);
                    assert(before.contains(f));
                    let k = choose|k: int| 0 <= k < before.len() && before[k] == f;
                    assert(after[k] == f);
                } else if before.contains(f) {
                    let k = choose|k: int| 0 <= k < before.len() && before[k] == f;
                    assert(after[k] == f);
                } else {
                    assert(after[after.len() - 1] == f);
                }
            }
        }
    }
}

/// What indexing a shard under labels does to the entry of one label.
pub proof fn lemma_index_add_all(index: IndexMap, labels: Seq<Label>, fingerprint: Seq<char>, label: Label)
    ensures
        index_add_all(index, labels, fingerprint).dom().contains(label) <==> index.dom().contains(label)
            || labels.contains(label),
        index_add_all(index, labels, fingerprint).dom().contains(label) ==> index_add_all(
            index,
            labels,
            fingerprint,
        )[label] == if !labels.contains(label) {
            index[label]
        } else if !index.dom().contains(label) {
            seq![fingerprint]
        } else if index[label].contains(fingerprint) {
            index[label]
        } else {
            index[label].push(fingerprint)
        },
    decreases labels.len(),
{
    if labels.len() > 0 {
        let front = labels.drop_last();
        lemma_index_add_all(index, front, fingerprint, label);
        let before = index_add_all(index, front, fingerprint);
        if front.contains(label) {
            let i = choose|i: int| 0 <= i < front.len() && front[i] == label;
            assert(labels[i] == label);
        }
        if labels.contains(label) {
            let i = choose|i: int| 0 <= i < labels.len() && labels[i] == label;
            if i < front.len() {
                assert(front[i] == label);
            }
        }
        if labels.last() == label {
            assert(labels[labels.len() - 1] == label);
            if front.contains(label) {
                assert(before.dom().contains(label));
                assert(before[label].contains(fingerprint)) by {
                    if !index.dom().contains(label) {
                        assert(seq![fingerprint][0] == fingerprint);
                    } else if !index[label].contains(fingerprint) {
                        assert(index[label].push(fingerprint)[index[label].len() as int] == fingerprint);
                    }
                }
            }
        }
    }
}

/// The shards that have a data file are those of the records, and each
/// data file holds the lines of its shard.
pub open spec fn holds_shards(records: Seq<Record>, files: Set<Seq<char>>, disk: Disk) -> bool {
    &&& forall|f: Seq<char>| #[trigger] files.contains(f) <==> shard_lines(records, f).len() > 0
    &&& forall|f: Seq<char>| #[trigger] disk.dom().contains(f) <==> files.contains(f)
    &&& forall|f: Seq<char>| #[trigger]
        files.contains(f) ==> disk[f] == join_records(encoded(shard_lines(records, f)))
}

/// What the store knows and what the data files hold once records have
/// been written.
pub open spec fn written(records: Seq<Record>, store: Store, disk: Disk) -> bool {
    &&& holds_shards(records, store.files, disk)
    &&& forall|l: Label| #[trigger]
        store.index.dom().contains(l) <==> exists|i: int|
            0 <= i < records.len() && (#[trigger] records[i]).labels.contains(l)
    &&& forall|l: Label| #[trigger]
        store.index.dom().contains(l) ==> store.index[l] == label_shards(records, l)
}

/// A label that no record carries has no shard.
pub proof fn lemma_label_unseen(records: Seq<Record>, label: Label)
    requires
        forall|i: int| 0 <= i < records.len() ==> !(#[trigger] records[i]).labels.contains(label),
    ensures
        label_shards(records, label) == Seq::<Seq<char>>::empty(),
    decreases records.len(),
{
    if records.len() > 0 {
        let front = records.drop_last();
        assert forall|i: int| 0 <= i < front.len() implies !(#[trigger] front[i]).labels.contains(
            label,
        ) by {
            assert(front[i] == records[i]);
        }
        lemma_label_unseen(front, label);
        assert(!records[records.len() - 1].labels.contains(label));
    }
}

/// Writing storable records leaves the store and the data files as
/// [`written`] says.
pub proof fn lemma_write_all(records: Seq<Record>)
    requires
        all_storable(records),
    ensures
        written(records, write_all(records).0, write_all(records).1.data),
    decreases records.len(),
{
    if records.len() == 0 {
        let (store, directory) = write_all(records);
        assert(store.files =~= Set::<Seq<char>>::empty());
        assert(directory.data =~= Map::<Seq<char>, Seq<u8>>::empty());
    } else {
        let front = records.drop_last();
        let last = records.last();
        assert(all_storable(front)) by {
            assert forall|i: int| 0 <= i < front.len() implies storable(#[trigger] front[i]) by {
                assert(front[i] == records[i]);
            }
        }
        assert(storable(records[records.len() - 1]));
        lemma_write_all(front);
        let (store0, directory0) = write_all(front);
        let (store, directory) = write_all(records);
        let disk0 = directory0.data;
        let disk = directory.data;
        let f = shard_of(last);
        assert forall|g: Seq<char>| #[trigger]
            store.files.contains(g) <==> shard_lines(records, g).len() > 0 by {
            if g != f {
                assert(store0.files.contains(g) <==> shard_lines(front, g).len() > 0);
            }
        }
        assert forall|g: Seq<char>| #[trigger] disk.dom().contains(g) <==> store.files.contains(g) by {
            assert(disk0.dom().contains(g) <==> store0.files.contains(g));
        }
        assert forall|g: Seq<char>| #[trigger] store.files.contains(g) implies disk[g] == join_records(
            encoded(shard_lines(records, g)),
        ) by {
            if g == f {
                let earlier = shard_lines(front, f);
                let lines = shard_lines(records, f);
                assert(lines == earlier.push(last.line));
                assert(encoded(lines) =~= encoded(earlier).push(encode_utf8(last.line)));
                assert(encoded(lines).drop_last() =~= encoded(earlier));
                if store0.files.contains(f) {
                    assert(earlier.len() > 0);
                    assert(disk0.dom().contains(f));
                    assert(disk0[f] == join_records(encoded(earlier)));
                    assert(disk[f] =~= disk0[f] + seq![DATA_FILE_RECORD_SEPARATOR] + encode_utf8(last.line));
                } else {
                    assert(earlier.len() == 0);
                    assert(!disk0.dom().contains(f));
                    assert(disk[f] =~= encode_utf8(last.line));
                }
            } else {
                assert(store0.files.contains(g));
                assert(disk0.dom().contains(g));
                assert(shard_lines(records, g) == shard_lines(front, g));
            }
        }
        assert forall|l: Label| #[trigger]
            store.index.dom().contains(l) <==> exists|i: int|
                0 <= i < records.len() && (#[trigger] records[i]).labels.contains(l) by {
            lemma_index_add_all(store0.index, last.labels, f, l);
            assert(store.index == index_add_all(store0.index, last.labels, f));
            if store0.index.dom().contains(l) {
                let i = choose|i: int| 0 <= i < front.len() && (#[trigger] front[i]).labels.contains(l);
                assert(records[i].labels.contains(l));
            }
            if last.labels.contains(l) {
                assert(records[records.len() - 1].labels.contains(l));
            }
            if exists|i: int| 0 <= i < records.len() && (#[trigger] records[i]).labels.contains(l) {
                let i = choose|i: int|
                    0 <= i < records.len() && (#[trigger] records[i]).labels.contains(l);
                if i < front.len() {
                    assert(front[i].labels.contains(l));
                }
            }
        }
        assert forall|l: Label| #[trigger] store.index.dom().contains(l) implies store.index[l]
            == label_shards(records, l) by {
            lemma_index_add_all(store0.index, last.labels, f, l);
            assert(store.index == index_add_all(store0.index, last.labels, f));
            if !store0.index.dom().contains(l) {
                assert forall|i: int| 0 <= i < front.len() implies !(#[trigger] front[i]).labels.contains(
                    l,
                ) by {}
                lemma_label_unseen(front, l);
                assert(Seq::<Seq<char>>::empty().push(f) =~= seq![f]);
            }
        }
    }
}

/// Only the empty line is written as no bytes.
pub proof fn lemma_encode_empty(line: Seq<char>)
    ensures
        encode_utf8(line).len() == 0 <==> line.len() == 0,
{
    if line.len() > 0 {
        assert(encode_scalar(line[0] as u32).len() > 0);
    }
}

/// Reading the lines back from the bytes that were written for them.
proof fn lemma_decode_encoded(lines: Seq<Seq<char>>)
    ensures
        decode_lines(encoded(lines)) == Some(lines),
{
    let found = encoded(lines);
    assert forall|i: int| 0 <= i < found.len() implies valid_utf8(#[trigger] found[i]) && decode_utf8(
        found[i],
    ) == lines[i] by {
        encode_utf8_valid_utf8(lines[i]);
        encode_utf8_decode_utf8(lines[i]);
    }
    assert(decode_lines(found).unwrap() =~= lines);
}

/// A query reads from the data files of written records the lines of the
/// shards that it asks for.
pub proof fn lemma_read_shards(records: Seq<Record>, store: Store, disk: Disk, fingerprints: Seq<Seq<char>>)
    requires
        all_storable(records),
        holds_shards(records, store.files, disk),
        forall|k: int| 0 <= k < fingerprints.len() ==> store.files.contains(#[trigger] fingerprints[k]),
    ensures
        read_shards(store, disk, fingerprints) == Ok::<Seq<Seq<char>>, Failure>(
            gather(records, fingerprints),
        ),
    decreases fingerprints.len(),
{
    if fingerprints.len() > 0 {
        let front = fingerprints.drop_last();
        let f = fingerprints.last();
        assert forall|k: int| 0 <= k < front.len() implies store.files.contains(#[trigger] front[k]) by {
            assert(front[k] == fingerprints[k]);
        }
        lemma_read_shards(records, store, disk, front);
        assert(store.files.contains(fingerprints[fingerprints.len() - 1]));
        assert(disk.dom().contains(f));
        let lines = shard_lines(records, f);
        lemma_shard_separator_free(records, f);
        lemma_split_join(encoded(lines));
        lemma_decode_encoded(lines);
        assert(lines.len() > 0);
        assert(read_shard(store, disk, f) == Ok::<Seq<Seq<char>>, Failure>(lines));
    }
}

/// What a query finds after storable records have been written to a new
/// store: nothing for a label that no record carries; else, for each shard
/// of the label in turn, the lines of the records of that shard in the
/// order in which they were written.
pub proof fn lemma_query_after_writes(records: Seq<Record>, label: Label)
    requires
        all_storable(records),
    ensures
        query_spec(write_all(records).0, label, write_all(records).1.data) == if exists|i: int|
            0 <= i < records.len() && (#[trigger] records[i]).labels.contains(label) {
            Ok::<Option<Seq<Seq<char>>>, Failure>(Some(gather(records, label_shards(records, label))))
        } else {
            Ok::<Option<Seq<Seq<char>>>, Failure>(None)
        },
{
    let (store, directory) = write_all(records);
    let disk = directory.data;
    lemma_write_all(records);
    if store.index.dom().contains(label) {
        let shards = label_shards(records, label);
        lemma_label_shards(records, label);
        assert forall|k: int| 0 <= k < shards.len() implies store.files.contains(#[trigger] shards[k]) by {
            assert(shards.contains(shards[k]));
            lemma_shard_lines(records, shards[k]);
        }
        lemma_read_shards(records, store, disk, shards);
    }
}

/// The lines of the records that carry a label, in the order of the
/// records.
pub open spec fn lines_with(records: Seq<Record>, label: Label) -> Seq<Seq<char>>
    decreases records.len(),
{
    if records.len() == 0 {
        Seq::empty()
    } else if records.last().labels.contains(label) {
        lines_with(records.drop_last(), label).push(records.last().line)
    } else {
        lines_with(records.drop_last(), label)
    }
}

/// No two records with different labels have the same fingerprint.
pub open spec fn collision_free(records: Seq<Record>) -> bool {
    forall|i: int, j: int|
        0 <= i < records.len() && 0 <= j < records.len() && shard_of(#[trigger] records[i]) == shard_of(
            #[trigger] records[j],
        ) ==> assoc_map(records[i].labels) == assoc_map(records[j].labels)
}

/// Labels with distinct names that stand for the same map are the same
/// labels.
pub proof fn lemma_same_map_same_labels(a: Seq<Label>, b: Seq<Label>, label: Label)
    requires
        distinct_keys(a),
        distinct_keys(b),
        assoc_map(a) == assoc_map(b),
        a.contains(label),
    ensures
        b.contains(label),
{
    let i = choose|i: int| 0 <= i < a.len() && a[i] == label;
    lemma_assoc_map_index(a, i);
    lemma_assoc_map_dom(b, label.0);
    let j = choose|j: int| 0 <= j < b.len() && b[j].0 == label.0;
    lemma_assoc_map_index(b, j);
    assert(b[j] == label);
}

/// What one more record adds to the lines of shards that are all
/// different: its line, if its shard is among them.
proof fn lemma_gather_one_more(records: Seq<Record>, fingerprints: Seq<Seq<char>>)
    requires
        records.len() > 0,
        fingerprints.no_duplicates(),
    ensures
        gather(records, fingerprints).to_multiset() == if fingerprints.contains(
            shard_of(records.last()),
        ) {
            gather(records.drop_last(), fingerprints).to_multiset().insert(records.last().line)
        } else {
            gather(records.drop_last(), fingerprints).to_multiset()
        },
    decreases fingerprints.len(),
{
    broadcast use group_to_multiset_ensures;

    let front = records.drop_last();
    let last = records.last();
    let f = shard_of(last);
    if fingerprints.len() > 0 {
        let head = fingerprints.drop_last();
        let g = fingerprints.last();
        assert(head.no_duplicates()) by {
            assert forall|i: int, j: int| 0 <= i < head.len() && 0 <= j < head.len() && i != j implies head[i]
                != head[j] by {
                assert(head[i] == fingerprints[i] && head[j] == fingerprints[j]);
            }
        }
        lemma_gather_one_more(records, head);
        lemma_multiset_commutative(gather(records, head), shard_lines(records, g));
        lemma_multiset_commutative(gather(front, head), shard_lines(front, g));
        if head.contains(f) {
            let i = choose|i: int| 0 <= i < head.len() && head[i] == f;
            assert(fingerprints[i] == f);
            assert(g != f) by {
                assert(fingerprints[fingerprints.len() - 1] == g);
            }
        }
        if g == f {
            assert(fingerprints[fingerprints.len() - 1] == f);
            assert(shard_lines(records, g) == shard_lines(front, g).push(last.line));
            assert(gather(records, fingerprints).to_multiset() =~= gather(
                front,
                fingerprints,
            ).to_multiset().insert(last.line));
        } else {
            assert(shard_lines(records, g) == shard_lines(front, g));
            if fingerprints.contains(f) {
                let i = choose|i: int| 0 <= i < fingerprints.len() && fingerprints[i] == f;
                assert(head[i] == f);
                assert(gather(records, fingerprints).to_multiset() =~= gather(
                    front,
                    fingerprints,
                ).to_multiset().insert(last.line));
            } else {
                assert(gather(records, fingerprints).to_multiset() =~= gather(
                    front,
                    fingerprints,
                ).to_multiset());
            }
        }
    }
}

/// Without collisions, the lines of the shards of a label are the lines of
/// the records that carry the label.
proof fn lemma_gather(records: Seq<Record>, label: Label)
    requires
        all_storable(records),
        collision_free(records),
    ensures
        gather(records, label_shards(records, label)).to_multiset() == lines_with(
            records,
            label,
        ).to_multiset(),
    decreases records.len(),
{
    broadcast use group_to_multiset_ensures;

    if records.len() > 0 {
        let front = records.drop_last();
        let last = records.last();
        let f = shard_of(last);
        let before = label_shards(front, label);
        assert(all_storable(front) && collision_free(front)) by {
            assert forall|i: int| 0 <= i < front.len() implies storable(#[trigger] front[i]) by {
                assert(front[i] == records[i]);
            }
            assert forall|i: int, j: int|
                0 <= i < front.len() && 0 <= j < front.len() && shard_of(#[trigger] front[i]) == shard_of(
                    #[trigger] front[j],
                ) implies assoc_map(front[i].labels) == assoc_map(front[j].labels) by {
                assert(front[i] == records[i] && front[j] == records[j]);
            }
        }
        lemma_gather(front, label);
        lemma_label_shards(front, label);
        lemma_label_shards(records, label);
        assert(storable(records[records.len() - 1]));
        // An earlier record of the same shard carries the same labels.
        assert forall|i: int| 0 <= i < front.len() && shard_of(#[trigger] front[i]) == f implies (
        front[i].labels.contains(label) <==> last.labels.contains(label)) by {
            assert(front[i] == records[i]);
            assert(storable(records[i]));
            assert(shard_of(records[i]) == shard_of(records[records.len() - 1]));
            if front[i].labels.contains(label) {
                lemma_same_map_same_labels(front[i].labels, last.labels, label);
            }
            if last.labels.contains(label) {
                lemma_same_map_same_labels(last.labels, front[i].labels, label);
            }
        }
        if last.labels.contains(label) {
            if before.contains(f) {
                lemma_gather_one_more(records, before);
            } else {
                assert(shard_lines(front, f).len() == 0) by {
                    lemma_shard_lines(front, f);
                    if exists|i: int| 0 <= i < front.len() && shard_of(#[trigger] front[i]) == f {
                        let i = choose|i: int| 0 <= i < front.len() && shard_of(#[trigger] front[i]) == f;
                        assert(front[i].labels.contains(label));
                    }
                }
                lemma_gather_one_more(records, before);
                assert(before.push(f).drop_last() =~= before);
                assert(shard_lines(records, f) =~= seq![last.line]);
                lemma_multiset_commutative(gather(records, before), seq![last.line]);
                assert(gather(records, before) + seq![last.line] =~= gather(records, before).push(
                    last.line,
                ));
            }
        } else {
            assert(!before.contains(f)) by {
                if before.contains(f) {
                    let i = choose|i: int|
                        0 <= i < front.len() && (#[trigger] front[i]).labels.contains(label)
                            && shard_of(front[i]) == f;
                    assert(shard_of(front[i]) == f);
                }
            }
            lemma_gather_one_more(records, before);
        }
    }
}

/// After records have been written to a new store, a query for a label
/// that one of them carries returns exactly the lines of the records that
/// carry it: each as often as it was written, and the lines of one shard
/// in the order in which they were written.
///
/// This holds of records that are storable and whose fingerprints do not
/// collide.
pub proof fn lemma_query_returns_the_lines(records: Seq<Record>, label: Label)
    requires
        all_storable(records),
        collision_free(records),
        exists|i: int| 0 <= i < records.len() && (#[trigger] records[i]).labels.contains(label),
    ensures
        query_spec(write_all(records).0, label, write_all(records).1.data) == Ok::<
            Option<Seq<Seq<char>>>,
            Failure,
        >(Some(gather(records, label_shards(records, label)))),
        gather(records, label_shards(records, label)).to_multiset() == lines_with(
            records,
            label,
        ).to_multiset(),
        forall|i: int|
            0 <= i < records.len() ==> ((#[trigger] records[i]).labels.contains(label)
                <==> label_shards(records, label).contains(shard_of(records[i]))),
{
    lemma_query_after_writes(records, label);
    lemma_gather(records, label);
    lemma_label_shards(records, label);
    assert forall|i: int| 0 <= i < records.len() implies ((#[trigger] records[i]).labels.contains(label)
        <==> label_shards(records, label).contains(shard_of(records[i]))) by {
        let f = shard_of(records[i]);
        if label_shards(records, label).contains(f) {
            let j = choose|j: int|
                0 <= j < records.len() && (#[trigger] records[j]).labels.contains(label) && shard_of(
                    records[j],
                ) == f;
            assert(storable(records[i]) && storable(records[j]));
            lemma_same_map_same_labels(records[j].labels, records[i].labels, label);
        }
    }
}

} // verus!
