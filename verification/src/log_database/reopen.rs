//! What holds of a store that is opened again on the directory that an
//! earlier store wrote.

use vstd::prelude::*;
use vstd::utf8::*;
use vstd::seq_lib::*;
use crate::assoc::assoc_map;
use crate::json::{json_object, json_text};
use crate::log_database::fingerprint::{
    fingerprint_of, lemma_fingerprint_len, lemma_fingerprint_of_equal_maps,
};
use crate::log_database::index::index_add_all;
use crate::log_database::laws::{
    Directory, Disk, all_storable, collision_free, gather, holds_shards, label_shards,
    lemma_encode_empty, lemma_index_add_all, lemma_label_shards, lemma_query_after_writes,
    lemma_read_shards, lemma_same_map_same_labels, lemma_shard_lines, lemma_write_all,
    shard_lines, shard_of, storable, write_all,
};
use crate::log_database::{
    DirEntry, Failure, FileType, Store, classify_spec, data_file_extension, empty_store, extension,
    file_stem, last_dot, load_entry, load_listing, metadata_file_extension, query_spec,
};
use crate::metadata::{Label, collect_labels, lemma_collect_labels};
use crate::Record;

verus! {

/// The name of a file of a shard: the fingerprint, a dot, the extension.
pub open spec fn shard_file_name(fingerprint: Seq<char>, extension: Seq<u8>) -> Seq<u8> {
    encode_utf8(fingerprint) + seq![46u8] + extension
}

/// The entry is the data file of the shard.
pub open spec fn is_data_file(entry: DirEntry, fingerprint: Seq<char>) -> bool {
    entry.is_file && entry.name@ == shard_file_name(fingerprint, data_file_extension())
}

/// The entry is the metadata file of the shard, and holds `text`.
pub open spec fn is_metadata_file(entry: DirEntry, fingerprint: Seq<char>, text: Seq<u8>) -> bool {
    entry.is_file && entry.name@ == shard_file_name(fingerprint, metadata_file_extension())
        && entry.contents@ == text
}

/// The entry is a file of the directory.
pub open spec fn is_listed(entry: DirEntry, directory: Directory) -> bool {
    ||| exists|f: Seq<char>| directory.data.dom().contains(f) && #[trigger] is_data_file(entry, f)
    ||| exists|f: Seq<char>|
        directory.metadata.dom().contains(f) && #[trigger] is_metadata_file(
            entry,
            f,
            directory.metadata[f],
        )
}

/// The listing holds the data file of the shard.
pub open spec fn lists_data(listing: Seq<DirEntry>, fingerprint: Seq<char>) -> bool {
    exists|k: int| 0 <= k < listing.len() && is_data_file(#[trigger] listing[k], fingerprint)
}

/// The listing holds the metadata file of the shard.
pub open spec fn lists_metadata(listing: Seq<DirEntry>, directory: Directory, fingerprint: Seq<char>) -> bool {
    directory.metadata.dom().contains(fingerprint) && exists|k: int|
        0 <= k < listing.len() && is_metadata_file(
            #[trigger] listing[k],
            fingerprint,
            directory.metadata[fingerprint],
        )
}

/// The listing holds the files of the directory, in whatever order, and
/// nothing else.
pub open spec fn lists(listing: Seq<DirEntry>, directory: Directory) -> bool {
    &&& forall|k: int| 0 <= k < listing.len() ==> is_listed(#[trigger] listing[k], directory)
    &&& forall|f: Seq<char>| #[trigger] directory.data.dom().contains(f) ==> lists_data(listing, f)
    &&& forall|f: Seq<char>| #[trigger]
        directory.metadata.dom().contains(f) ==> lists_metadata(listing, directory, f)
}

/// The JSON text that is written for the labels reads back as labels that
/// stand for the same map.
pub open spec fn reads_back(labels: Seq<Label>) -> bool {
    json_object(json_text(labels)) matches Some(pairs) && assoc_map(pairs) == assoc_map(labels)
}

/// The labels of every record read back.
pub open spec fn all_read_back(records: Seq<Record>) -> bool {
    forall|i: int| 0 <= i < records.len() ==> reads_back((#[trigger] records[i]).labels)
}

/// Bytes without a dot behind a name do not move its last dot.
proof fn lemma_last_dot_append(name: Seq<u8>, more: Seq<u8>)
    requires
        !more.contains(46u8),
    ensures
        last_dot(name + more) == last_dot(name),
    decreases more.len(),
{
    if more.len() == 0 {
        assert(name + more =~= name);
    } else {
        assert(more.contains(more.last()));
        assert((name + more).drop_last() =~= name + more.drop_last());
        assert forall|i: int| 0 <= i < more.drop_last().len() implies more.drop_last()[i] != 46u8 by {
            assert(more.contains(more[i]));
        }
        lemma_last_dot_append(name, more.drop_last());
    }
}

/// What the name of a file of a shard falls into.
proof fn lemma_shard_file_name(fingerprint: Seq<char>, ext: Seq<u8>)
    requires
        fingerprint.len() > 0,
        !ext.contains(46u8),
    ensures
        extension(shard_file_name(fingerprint, ext)) == Some(ext),
        file_stem(shard_file_name(fingerprint, ext)) == encode_utf8(fingerprint),
{
    let stem = encode_utf8(fingerprint);
    let name = shard_file_name(fingerprint, ext);
    lemma_encode_empty(fingerprint);
    lemma_last_dot_append(stem + seq![46u8], ext);
    assert((stem + seq![46u8]).last() == 46u8);
    assert(last_dot(name) == stem.len());
    assert(name.skip(stem.len() as int + 1) =~= ext);
    assert(name.take(stem.len() as int) =~= stem);
}

/// The two extensions hold no dot, and differ.
proof fn lemma_extensions()
    ensures
        !data_file_extension().contains(46u8),
        !metadata_file_extension().contains(46u8),
        data_file_extension() != metadata_file_extension(),
{
    assert(data_file_extension().len() == 3);
    assert(metadata_file_extension().len() == 4);
}

/// What the files of a shard are taken for by their names.
proof fn lemma_classify_shard_files(f: Seq<char>)
    requires
        f.len() > 0,
    ensures
        classify_spec(shard_file_name(f, data_file_extension()), true) == Ok::<
            (FileType, Seq<char>),
            Failure,
        >((FileType::DataFile, f)),
        classify_spec(shard_file_name(f, metadata_file_extension()), true) is Ok,
        classify_spec(shard_file_name(f, metadata_file_extension()), true)->Ok_0.0
            == FileType::MetadataFile,
{
    lemma_extensions();
    lemma_shard_file_name(f, data_file_extension());
    lemma_shard_file_name(f, metadata_file_extension());
    encode_utf8_valid_utf8(f);
    encode_utf8_decode_utf8(f);
}

/// The metadata file of each shard that has a data file holds the text of
/// the labels of a record of that shard.
pub open spec fn holds_metadata(records: Seq<Record>, files: Set<Seq<char>>, metadata: Disk) -> bool {
    &&& forall|f: Seq<char>| #[trigger] metadata.dom().contains(f) <==> files.contains(f)
    &&& forall|f: Seq<char>| #[trigger]
        metadata.dom().contains(f) ==> exists|i: int|
            0 <= i < records.len() && shard_of(#[trigger] records[i]) == f && json_text(
                records[i].labels,
            ) == metadata[f]
}

/// Writing storable records leaves a metadata file for each shard.
proof fn lemma_write_all_metadata(records: Seq<Record>)
    requires
        all_storable(records),
    ensures
        holds_metadata(records, write_all(records).0.files, write_all(records).1.metadata),
    decreases records.len(),
{
    if records.len() == 0 {
        assert(write_all(records).1.metadata =~= Map::<Seq<char>, Seq<u8>>::empty());
    } else {
        let front = records.drop_last();
        let last = records.last();
        assert(all_storable(front)) by {
            assert forall|i: int| 0 <= i < front.len() implies storable(#[trigger] front[i]) by {
                assert(front[i] == records[i]);
            }
        }
        assert(storable(records[records.len() - 1]));
        lemma_write_all_metadata(front);
        let (store0, directory0) = write_all(front);
        let (store, directory) = write_all(records);
        let f = shard_of(last);
        assert forall|g: Seq<char>| #[trigger] directory.metadata.dom().contains(g) <==> store.files.contains(
            g,
        ) by {
            assert(directory0.metadata.dom().contains(g) <==> store0.files.contains(g));
        }
        assert forall|g: Seq<char>| #[trigger] directory.metadata.dom().contains(g) implies exists|i: int|
            0 <= i < records.len() && shard_of(#[trigger] records[i]) == g && json_text(
                records[i].labels,
            ) == directory.metadata[g] by {
            if directory0.metadata.dom().contains(g) {
                assert(directory.metadata[g] == directory0.metadata[g]);
                let i = choose|i: int|
                    0 <= i < front.len() && shard_of(#[trigger] front[i]) == g && json_text(
                        front[i].labels,
                    ) == directory0.metadata[g];
                assert(records[i] == front[i]);
            } else {
                assert(g == f);
                assert(records[records.len() - 1] == last);
            }
        }
    }
}

/// What a store knows after it has taken in part of a listing of the
/// directory that the records were written to: the data files that were
/// listed, and under each label the shards of the label whose metadata
/// files were listed, each once.
spec fn taken_in(records: Seq<Record>, directory: Directory, listing: Seq<DirEntry>, store: Store) -> bool {
    &&& forall|f: Seq<char>| #[trigger] store.files.contains(f) <==> lists_data(listing, f)
    &&& forall|l: Label| #[trigger]
        store.index.dom().contains(l) ==> store.index[l].no_duplicates() && store.index[l].len() > 0
    &&& forall|l: Label, f: Seq<char>|
        store.index.dom().contains(l) && #[trigger] store.index[l].contains(f) ==> lists_metadata(
            listing,
            directory,
            f,
        ) && label_shards(records, l).contains(f)
    &&& forall|l: Label, f: Seq<char>|
        lists_metadata(listing, directory, f) && #[trigger] label_shards(records, l).contains(f)
            ==> store.index.dom().contains(l) && store.index[l].contains(f)
}

/// With distinct names and without collisions, the labels that read back
/// from the metadata file of a shard are those of every record of the
/// shard, and give the fingerprint of the shard.
proof fn lemma_metadata_reads_back(records: Seq<Record>, i: int, label: Label)
    requires
        all_storable(records),
        collision_free(records),
        all_read_back(records),
        0 <= i < records.len(),
    ensures
        json_object(json_text(records[i].labels)) is Some,
        fingerprint_of(collect_labels(json_object(json_text(records[i].labels))->0)) == shard_of(
            records[i],
        ),
        collect_labels(json_object(json_text(records[i].labels))->0).contains(label)
            <==> label_shards(records, label).contains(shard_of(records[i])),
{
    let labels = records[i].labels;
    assert(storable(records[i]) && reads_back(records[i].labels));
    let pairs = json_object(json_text(labels))->0;
    let read = collect_labels(pairs);
    lemma_collect_labels(pairs);
    lemma_fingerprint_of_equal_maps(read, labels);
    lemma_label_shards(records, label);
    if read.contains(label) {
        lemma_same_map_same_labels(read, labels, label);
    }
    if label_shards(records, label).contains(shard_of(records[i])) {
        let j = choose|j: int|
            0 <= j < records.len() && (#[trigger] records[j]).labels.contains(label) && shard_of(
                records[j],
            ) == shard_of(records[i]);
        assert(storable(records[j]));
        lemma_same_map_same_labels(records[j].labels, labels, label);
        lemma_same_map_same_labels(labels, read, label);
    }
}

/// The names of the files of shards tell the shards and the kinds of
/// file apart.
proof fn lemma_names(f: Seq<char>, g: Seq<char>)
    ensures
        shard_file_name(f, data_file_extension()) != shard_file_name(g, metadata_file_extension()),
        shard_file_name(f, data_file_extension()) == shard_file_name(g, data_file_extension()) ==> f
            == g,
        shard_file_name(f, metadata_file_extension()) == shard_file_name(
            g,
            metadata_file_extension(),
        ) ==> f == g,
{
    let dat = data_file_extension();
    let json = metadata_file_extension();
    encode_utf8_decode_utf8(f);
    encode_utf8_decode_utf8(g);
    assert(shard_file_name(f, dat).last() == 116u8);
    assert(shard_file_name(g, json).last() == 110u8);
    if shard_file_name(f, dat) == shard_file_name(g, dat) {
        assert(shard_file_name(f, dat).take(encode_utf8(f).len() as int) =~= encode_utf8(f));
        assert(shard_file_name(g, dat).take(encode_utf8(g).len() as int) =~= encode_utf8(g));
    }
    if shard_file_name(f, json) == shard_file_name(g, json) {
        assert(shard_file_name(f, json).take(encode_utf8(f).len() as int) =~= encode_utf8(f));
        assert(shard_file_name(g, json).take(encode_utf8(g).len() as int) =~= encode_utf8(g));
    }
}

/// What one more entry adds to what a listing holds.
proof fn lemma_lists_step(listing: Seq<DirEntry>, directory: Directory, g: Seq<char>)
    requires
        listing.len() > 0,
    ensures
        lists_data(listing, g) <==> lists_data(listing.drop_last(), g) || is_data_file(
            listing.last(),
            g,
        ),
        lists_metadata(listing, directory, g) <==> lists_metadata(listing.drop_last(), directory, g) || (
        directory.metadata.dom().contains(g) && is_metadata_file(
            listing.last(),
            g,
            directory.metadata[g],
        )),
{
    let front = listing.drop_last();
    if lists_data(front, g) {
        let k = choose|k: int| 0 <= k < front.len() && is_data_file(#[trigger] front[k], g);
        assert(is_data_file(listing[k], g));
    }
    if is_data_file(listing.last(), g) {
        assert(is_data_file(listing[listing.len() - 1], g));
    }
    if lists_data(listing, g) {
        let k = choose|k: int| 0 <= k < listing.len() && is_data_file(#[trigger] listing[k], g);
        if k < front.len() {
            assert(is_data_file(front[k], g));
        }
    }
    if directory.metadata.dom().contains(g) {
        let text = directory.metadata[g];
        if lists_metadata(front, directory, g) {
            let k = choose|k: int| 0 <= k < front.len() && is_metadata_file(#[trigger] front[k], g, text);
            assert(is_metadata_file(listing[k], g, text));
        }
        if is_metadata_file(listing.last(), g, text) {
            assert(is_metadata_file(listing[listing.len() - 1], g, text));
        }
        if lists_metadata(listing, directory, g) {
            let k = choose|k: int|
                0 <= k < listing.len() && is_metadata_file(#[trigger] listing[k], g, text);
            if k < front.len() {
                assert(is_metadata_file(front[k], g, text));
            }
        }
    }
}

/// Taking in the data file of a shard.
proof fn lemma_take_in_data(
    records: Seq<Record>,
    directory: Directory,
    listing: Seq<DirEntry>,
    before: Store,
    f: Seq<char>,
)
    requires
        listing.len() > 0,
        f.len() > 0,
        is_data_file(listing.last(), f),
        taken_in(records, directory, listing.drop_last(), before),
    ensures
        load_entry(before, listing.last()) is Ok,
        taken_in(records, directory, listing, load_entry(before, listing.last())->Ok_0),
{
    let entry = listing.last();
    lemma_classify_shard_files(f);
    let after = load_entry(before, entry)->Ok_0;
    assert(after == Store { files: before.files.insert(f), index: before.index });
    assert forall|g: Seq<char>| #[trigger] after.files.contains(g) <==> lists_data(listing, g) by {
        lemma_lists_step(listing, directory, g);
        lemma_names(f, g);
        assert(before.files.contains(g) <==> lists_data(listing.drop_last(), g));
    }
    assert forall|l: Label, g: Seq<char>|
        after.index.dom().contains(l) && #[trigger] after.index[l].contains(g) implies lists_metadata(
        listing,
        directory,
        g,
    ) && label_shards(records, l).contains(g) by {
        lemma_lists_step(listing, directory, g);
    }
    assert forall|l: Label, g: Seq<char>|
        lists_metadata(listing, directory, g) && #[trigger] label_shards(records, l).contains(
            g,
        ) implies after.index.dom().contains(l) && after.index[l].contains(g) by {
        lemma_lists_step(listing, directory, g);
        lemma_names(f, g);
    }
}

/// Taking in the metadata file of a shard.
proof fn lemma_take_in_metadata(
    records: Seq<Record>,
    directory: Directory,
    listing: Seq<DirEntry>,
    before: Store,
    i: int,
)
    requires
        all_storable(records),
        collision_free(records),
        all_read_back(records),
        listing.len() > 0,
        0 <= i < records.len(),
        directory.metadata.dom().contains(shard_of(records[i])),
        json_text(records[i].labels) == directory.metadata[shard_of(records[i])],
        is_metadata_file(
            listing.last(),
            shard_of(records[i]),
            directory.metadata[shard_of(records[i])],
        ),
        taken_in(records, directory, listing.drop_last(), before),
    ensures
        load_entry(before, listing.last()) is Ok,
        taken_in(records, directory, listing, load_entry(before, listing.last())->Ok_0),
{
    let entry = listing.last();
    let f = shard_of(records[i]);
    lemma_fingerprint_len(records[i].labels);
    lemma_classify_shard_files(f);
    let pairs = json_object(json_text(records[i].labels))->0;
    let read = collect_labels(pairs);
    assert(fingerprint_of(read) == f && json_object(entry.contents@) == Some(pairs)) by {
        lemma_metadata_reads_back(records, i, (Seq::empty(), Seq::empty()));
    }
    let after = load_entry(before, entry)->Ok_0;
    assert(after == Store { files: before.files, index: index_add_all(before.index, read, f) });
    assert forall|g: Seq<char>| #[trigger] after.files.contains(g) <==> lists_data(listing, g) by {
        lemma_lists_step(listing, directory, g);
        lemma_names(g, f);
        assert(before.files.contains(g) <==> lists_data(listing.drop_last(), g));
    }
    assert forall|l: Label| #[trigger] after.index.dom().contains(l) implies after.index[l].no_duplicates()
        && after.index[l].len() > 0 by {
        lemma_index_add_all(before.index, read, f, l);
        if before.index.dom().contains(l) {
            assert(before.index[l].no_duplicates() && before.index[l].len() > 0);
        }
    }
    assert forall|l: Label, g: Seq<char>|
        after.index.dom().contains(l) && #[trigger] after.index[l].contains(g) implies lists_metadata(
        listing,
        directory,
        g,
    ) && label_shards(records, l).contains(g) by {
        lemma_index_add_all(before.index, read, f, l);
        lemma_metadata_reads_back(records, i, l);
        lemma_lists_step(listing, directory, g);
        lemma_lists_step(listing, directory, f);
        if before.index.dom().contains(l) && before.index[l].contains(g) {
        } else {
            assert(read.contains(l));
            assert(g == f) by {
                let k = choose|k: int| 0 <= k < after.index[l].len() && after.index[l][k] == g;
                if before.index.dom().contains(l) {
                    if k < before.index[l].len() {
                        assert(before.index[l][k] == g);
                    }
                }
            }
        }
    }
    assert forall|l: Label, g: Seq<char>|
        lists_metadata(listing, directory, g) && #[trigger] label_shards(records, l).contains(
            g,
        ) implies after.index.dom().contains(l) && after.index[l].contains(g) by {
        lemma_index_add_all(before.index, read, f, l);
        lemma_metadata_reads_back(records, i, l);
        lemma_lists_step(listing, directory, g);
        if lists_metadata(listing.drop_last(), directory, g) {
            assert(before.index.dom().contains(l) && before.index[l].contains(g));
            let k = choose|k: int| 0 <= k < before.index[l].len() && before.index[l][k] == g;
            if read.contains(l) && !before.index[l].contains(f) {
                assert(before.index[l].push(f)[k] == g);
            }
        } else {
            lemma_names(g, f);
            assert(g == f);
            assert(read.contains(l));
            if !before.index.dom().contains(l) {
                assert(seq![f][0] == f);
            } else if !before.index[l].contains(f) {
                assert(before.index[l].push(f)[before.index[l].len() as int] == f);
            }
        }
    }
}

/// Opening a store on a listing of the directory that storable records
/// were written to succeeds, and the store knows the data files that were
/// listed and, under each label, the shards of the label.
proof fn lemma_reopen(records: Seq<Record>, listing: Seq<DirEntry>)
    requires
        all_storable(records),
        collision_free(records),
        all_read_back(records),
        forall|k: int| 0 <= k < listing.len() ==> is_listed(#[trigger] listing[k], write_all(records).1),
    ensures
        load_listing(empty_store(), listing) is Ok,
        taken_in(
            records,
            write_all(records).1,
            listing,
            load_listing(empty_store(), listing)->Ok_0,
        ),
    decreases listing.len(),
{
    let (store, directory) = write_all(records);
    if listing.len() == 0 {
    } else {
        let front = listing.drop_last();
        let entry = listing.last();
        assert forall|k: int| 0 <= k < front.len() implies is_listed(#[trigger] front[k], directory) by {
            assert(front[k] == listing[k]);
        }
        lemma_reopen(records, front);
        let before = load_listing(empty_store(), front)->Ok_0;
        lemma_write_all(records);
        lemma_write_all_metadata(records);
        assert(is_listed(listing[listing.len() - 1], directory));
        if exists|f: Seq<char>| directory.data.dom().contains(f) && #[trigger] is_data_file(entry, f) {
            let f = choose|f: Seq<char>|
                directory.data.dom().contains(f) && #[trigger] is_data_file(entry, f);
            assert(store.files.contains(f));
            lemma_shard_lines(records, f);
            let i = choose|i: int| 0 <= i < records.len() && shard_of(#[trigger] records[i]) == f;
            lemma_fingerprint_len(records[i].labels);
            lemma_take_in_data(records, directory, listing, before, f);
        } else {
            let f = choose|f: Seq<char>|
                directory.metadata.dom().contains(f) && #[trigger] is_metadata_file(
                    entry,
                    f,
                    directory.metadata[f],
                );
            assert(holds_metadata(records, store.files, directory.metadata));
            let i = choose|i: int|
                0 <= i < records.len() && shard_of(#[trigger] records[i]) == f && json_text(
                    records[i].labels,
                ) == directory.metadata[f];
            lemma_take_in_metadata(records, directory, listing, before, i);
        }
    }
}

/// The lines of shards, as a bag, are those of the shards without one of
/// them, and the lines of that one.
proof fn lemma_gather_remove(records: Seq<Record>, fingerprints: Seq<Seq<char>>, j: int)
    requires
        0 <= j < fingerprints.len(),
    ensures
        gather(records, fingerprints).to_multiset() == gather(
            records,
            fingerprints.remove(j),
        ).to_multiset().add(shard_lines(records, fingerprints[j]).to_multiset()),
    decreases fingerprints.len(),
{
    let front = fingerprints.drop_last();
    let last = shard_lines(records, fingerprints.last());
    lemma_multiset_commutative(gather(records, front), last);
    if j == fingerprints.len() - 1 {
        assert(fingerprints.remove(j) =~= front);
    } else {
        lemma_gather_remove(records, front, j);
        assert(fingerprints.remove(j).drop_last() =~= front.remove(j));
        assert(fingerprints.remove(j).last() == fingerprints.last());
        lemma_multiset_commutative(gather(records, front.remove(j)), last);
        assert(gather(records, fingerprints).to_multiset() =~= gather(
            records,
            fingerprints.remove(j),
        ).to_multiset().add(shard_lines(records, fingerprints[j]).to_multiset()));
    }
}

/// The lines of shards, as a bag, do not depend on the order of the
/// shards.
proof fn lemma_gather_permutation(records: Seq<Record>, a: Seq<Seq<char>>, b: Seq<Seq<char>>)
    requires
        a.no_duplicates(),
        b.no_duplicates(),
        forall|f: Seq<char>| a.contains(f) <==> b.contains(f),
    ensures
        gather(records, a).to_multiset() == gather(records, b).to_multiset(),
    decreases a.len(),
{
    if a.len() == 0 {
        if b.len() > 0 {
            assert(b.contains(b[0]));
        }
    } else {
        let x = a.last();
        assert(a.contains(a[a.len() - 1]));
        let j = choose|j: int| 0 <= j < b.len() && b[j] == x;
        let a1 = a.drop_last();
        let b1 = b.remove(j);
        assert(a1.no_duplicates()) by {
            assert forall|i: int, k: int| 0 <= i < a1.len() && 0 <= k < a1.len() && i != k implies a1[i]
                != a1[k] by {
                assert(a1[i] == a[i] && a1[k] == a[k]);
            }
        }
        assert(b1.no_duplicates()) by {
            assert forall|i: int, k: int| 0 <= i < b1.len() && 0 <= k < b1.len() && i != k implies b1[i]
                != b1[k] by {
                let i0 = if i < j { i } else { i + 1 };
                let k0 = if k < j { k } else { k + 1 };
                assert(b1[i] == b[i0] && b1[k] == b[k0]);
            }
        }
        assert forall|f: Seq<char>| a1.contains(f) <==> b1.contains(f) by {
            if a1.contains(f) {
                let i = choose|i: int| 0 <= i < a1.len() && a1[i] == f;
                assert(a[i] == f);
                assert(f != x);
                assert(a.contains(f));
                let k = choose|k: int| 0 <= k < b.len() && b[k] == f;
                if k < j {
                    assert(b1[k] == f);
                } else {
                    assert(b1[k - 1] == f);
                }
            }
            if b1.contains(f) {
                let k = choose|k: int| 0 <= k < b1.len() && b1[k] == f;
                let k0 = if k < j { k } else { k + 1 };
                assert(b[k0] == f);
                assert(f != x);
                assert(b.contains(f));
                let i = choose|i: int| 0 <= i < a.len() && a[i] == f;
                assert(a1[i] == f);
            }
        }
        lemma_gather_permutation(records, a1, b1);
        lemma_gather_remove(records, b, j);
        lemma_multiset_commutative(gather(records, a1), shard_lines(records, x));
    }
}

/// Round trip: a store that is opened on the directory that an earlier
/// store wrote gives to every query the lines that the earlier store gave,
/// each as often. The lines of one shard stand together, in the order in
/// which they were written; only the order of the shards may differ.
///
/// This holds of records that are storable, whose fingerprints do not
/// collide and whose labels read back from their JSON text, and of any
/// listing that holds the files of the directory and nothing else.
pub proof fn lemma_reopened_store_answers_alike(
    records: Seq<Record>,
    listing: Seq<DirEntry>,
    label: Label,
)
    requires
        all_storable(records),
        collision_free(records),
        all_read_back(records),
        lists(listing, write_all(records).1),
    ensures
        load_listing(empty_store(), listing) is Ok,
        load_listing(empty_store(), listing)->Ok_0.files == write_all(records).0.files,
        match (
            query_spec(write_all(records).0, label, write_all(records).1.data),
            query_spec(load_listing(empty_store(), listing)->Ok_0, label, write_all(records).1.data),
        ) {
            (Ok(None), Ok(None)) => true,
            (Ok(Some(before)), Ok(Some(after))) => {
                let shards = load_listing(empty_store(), listing)->Ok_0.index[label];
                &&& before.to_multiset() == after.to_multiset()
                &&& after == gather(records, shards)
                &&& shards.no_duplicates()
                &&& forall|f: Seq<char>|
                    shards.contains(f) <==> label_shards(records, label).contains(f)
            },
            _ => false,
        },
{
    let (store, directory) = write_all(records);
    lemma_reopen(records, listing);
    lemma_write_all(records);
    lemma_write_all_metadata(records);
    lemma_query_after_writes(records, label);
    lemma_label_shards(records, label);
    let reopened = load_listing(empty_store(), listing)->Ok_0;
    assert forall|f: Seq<char>| reopened.files.contains(f) <==> store.files.contains(f) by {
        if lists_data(listing, f) {
            let k = choose|k: int| 0 <= k < listing.len() && is_data_file(#[trigger] listing[k], f);
            assert(is_listed(listing[k], directory));
            if exists|g: Seq<char>|
                directory.data.dom().contains(g) && #[trigger] is_data_file(listing[k], g) {
                let g = choose|g: Seq<char>|
                    directory.data.dom().contains(g) && #[trigger] is_data_file(listing[k], g);
                lemma_names(f, g);
            } else {
                let g = choose|g: Seq<char>|
                    directory.metadata.dom().contains(g) && #[trigger] is_metadata_file(
                        listing[k],
                        g,
                        directory.metadata[g],
                    );
                lemma_names(f, g);
            }
        }
        if store.files.contains(f) {
            assert(directory.data.dom().contains(f));
        }
    }
    assert(reopened.files =~= store.files);
    let shards = label_shards(records, label);
    // Every shard of the label has its metadata file in the listing.
    assert forall|g: Seq<char>| #[trigger] shards.contains(g) implies lists_metadata(
        listing,
        directory,
        g,
    ) by {
        let i = choose|i: int|
            0 <= i < records.len() && (#[trigger] records[i]).labels.contains(label) && shard_of(
                records[i],
            ) == g;
        lemma_shard_lines(records, g);
        assert(shard_of(records[i]) == g);
        assert(store.files.contains(g));
        assert(directory.metadata.dom().contains(g));
    }
    if store.index.dom().contains(label) {
        let i = choose|i: int| 0 <= i < records.len() && (#[trigger] records[i]).labels.contains(label);
        assert(shards.contains(shard_of(records[i])));
        assert(reopened.index.dom().contains(label));
        let found = reopened.index[label];
        assert forall|g: Seq<char>| found.contains(g) <==> shards.contains(g) by {}
        assert forall|k: int| 0 <= k < found.len() implies reopened.files.contains(#[trigger] found[k]) by {
            assert(found.contains(found[k]));
            lemma_shard_lines(records, found[k]);
        }
        assert(holds_shards(records, reopened.files, directory.data));
        lemma_read_shards(records, reopened, directory.data, found);
        lemma_gather_permutation(records, shards, found);
    } else {
        if reopened.index.dom().contains(label) {
            assert(reopened.index[label].contains(reopened.index[label][0]));
        }
    }
}

} // verus!
