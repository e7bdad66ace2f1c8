//! The data file of a shard: lines laid end to end, one separator byte
//! between each line and the next.

use vstd::prelude::*;
use vstd::string::*;
use vstd::utf8::*;
use crate::text::{string_from_utf8, strings_view};

verus! {

/// The byte that stands between two records of a data file.
pub const DATA_FILE_RECORD_SEPARATOR: u8 = 147;

/// The records that a scan finds in `rest`, given the bytes `current` that
/// it has read since the last separator. A separator ends a record, and so
/// does the end of the data, also where no byte came after the last
/// separator.
pub open spec fn scan_records(current: Seq<u8>, rest: Seq<u8>) -> Seq<Seq<u8>>
    decreases rest.len(),
{
    if rest.len() == 0 {
        seq![current]
    } else if rest[0] == DATA_FILE_RECORD_SEPARATOR {
        seq![current] + scan_records(Seq::empty(), rest.drop_first())
    } else {
        scan_records(current.push(rest[0]), rest.drop_first())
    }
}

/// The records of a data file: the stretches of bytes between its
/// separators. A file with n separators holds n + 1 records, and a file of
/// no bytes holds one empty record.
pub open spec fn split_records(data: Seq<u8>) -> Seq<Seq<u8>> {
    scan_records(Seq::empty(), data)
}

/// The data file that holds `records`, written one after the other: the
/// first as it is, each later one behind a separator.
pub open spec fn join_records(records: Seq<Seq<u8>>) -> Seq<u8>
    decreases records.len(),
{
    if records.len() == 0 {
        Seq::empty()
    } else if records.len() == 1 {
        records[0]
    } else {
        join_records(records.drop_last()) + seq![DATA_FILE_RECORD_SEPARATOR] + records.last()
    }
}

/// No record holds the separator.
pub open spec fn separator_free(records: Seq<Seq<u8>>) -> bool {
    forall|i: int| 0 <= i < records.len() ==> !(#[trigger] records[i]).contains(DATA_FILE_RECORD_SEPARATOR)
}

/// A scan that is handed more separator-free bytes before the data just
/// carries them along.
proof fn lemma_scan_prefix(current: Seq<u8>, bytes: Seq<u8>, rest: Seq<u8>)
    requires
        !bytes.contains(DATA_FILE_RECORD_SEPARATOR),
    ensures
        scan_records(current, bytes + rest) == scan_records(current + bytes, rest),
    decreases bytes.len(),
{
    if bytes.len() == 0 {
        assert(bytes + rest =~= rest);
        assert(current + bytes =~= current);
    } else {
        let all = bytes + rest;
        assert(all[0] == bytes[0]);
        assert(bytes.contains(bytes[0]));
        assert(all.drop_first() =~= bytes.drop_first() + rest);
        assert forall|i: int| 0 <= i < bytes.drop_first().len() implies bytes.drop_first()[i]
            != DATA_FILE_RECORD_SEPARATOR by {
            assert(bytes.contains(bytes[i + 1]));
        }
        lemma_scan_prefix(current.push(bytes[0]), bytes.drop_first(), rest);
        assert(current.push(bytes[0]) + bytes.drop_first() =~= current + bytes);
    }
}

/// Scanning the file of `records` behind a first record `head`.
proof fn lemma_scan_join(head: Seq<u8>, records: Seq<Seq<u8>>)
    requires
        !head.contains(DATA_FILE_RECORD_SEPARATOR),
        separator_free(records),
    ensures
        split_records(join_records(seq![head] + records)) == seq![head] + records,
    decreases records.len(),
{
    let all = seq![head] + records;
    if records.len() == 0 {
        assert(all =~= seq![head]);
        lemma_scan_prefix(Seq::empty(), head, Seq::empty());
        assert(head + Seq::<u8>::empty() =~= head);
        assert(Seq::<u8>::empty() + head =~= head);
    } else {
        lemma_join_front(head, records);
        let tail = join_records(records);
        let after = seq![DATA_FILE_RECORD_SEPARATOR] + tail;
        assert(head + seq![DATA_FILE_RECORD_SEPARATOR] + tail =~= head + after);
        lemma_scan_prefix(Seq::empty(), head, after);
        assert(Seq::<u8>::empty() + head =~= head);
        assert(after[0] == DATA_FILE_RECORD_SEPARATOR);
        assert(after.drop_first() =~= tail);
        assert(scan_records(head, after) == seq![head] + split_records(tail));
        assert(records =~= seq![records[0]] + records.drop_first());
        assert(!records[0].contains(DATA_FILE_RECORD_SEPARATOR));
        assert(separator_free(records.drop_first())) by {
            assert forall|i: int| 0 <= i < records.drop_first().len() implies !(
            #[trigger] records.drop_first()[i]).contains(DATA_FILE_RECORD_SEPARATOR) by {
                assert(records.drop_first()[i] == records[i + 1]);
            }
        }
        lemma_scan_join(records[0], records.drop_first());
    }
}

/// The file of a first record and more records is the first record, a
/// separator, and the file of the others.
proof fn lemma_join_front(head: Seq<u8>, records: Seq<Seq<u8>>)
    requires
        records.len() > 0,
    ensures
        join_records(seq![head] + records) == head + seq![DATA_FILE_RECORD_SEPARATOR] + join_records(
            records,
        ),
    decreases records.len(),
{
    let all = seq![head] + records;
    assert(all.drop_last() =~= seq![head] + records.drop_last());
    assert(all.last() == records.last());
    if records.len() == 1 {
        assert(all.drop_last() =~= seq![head]);
        assert(join_records(all.drop_last()) == head);
    } else {
        lemma_join_front(head, records.drop_last());
        assert(join_records(all) =~= head + seq![DATA_FILE_RECORD_SEPARATOR] + join_records(records));
    }
}

/// Reading back what was written: where no record holds the separator, a
/// scan of the file gives every record, in the order in which they were
/// written.
pub proof fn lemma_split_join(records: Seq<Seq<u8>>)
    requires
        records.len() > 0,
        separator_free(records),
    ensures
        split_records(join_records(records)) == records,
{
    assert(records =~= seq![records[0]] + records.drop_first());
    assert(!records[0].contains(DATA_FILE_RECORD_SEPARATOR));
    assert(separator_free(records.drop_first())) by {
        assert forall|i: int| 0 <= i < records.drop_first().len() implies !(
        #[trigger] records.drop_first()[i]).contains(DATA_FILE_RECORD_SEPARATOR) by {
            assert(records.drop_first()[i] == records[i + 1]);
        }
    }
    lemma_scan_join(records[0], records.drop_first());
}

/// The lines that records hold, if every record is well-formed UTF-8.
pub open spec fn decode_lines(records: Seq<Seq<u8>>) -> Option<Seq<Seq<char>>> {
    if forall|i: int| 0 <= i < records.len() ==> valid_utf8(#[trigger] records[i]) {
        Some(Seq::new(records.len(), |i: int| decode_utf8(records[i])))
    } else {
        None
    }
}

/// The lines of a data file, in the order in which they were written, or
/// nothing if some record is not well-formed UTF-8. The file is split at
/// its separators: it holds one line more than it holds separators.
pub fn read_lines(data: &[u8]) -> (r: Option<Vec<String>>)
    ensures
        r is Some <==> decode_lines(split_records(data@)) is Some,
        r matches Some(lines) ==> Some(strings_view(lines@)) == decode_lines(split_records(data@)),
{
    let mut lines: Vec<String> = Vec::new();
    let mut current: Vec<u8> = Vec::new();
    let ghost mut done: Seq<Seq<u8>> = Seq::empty();
    let mut i: usize = 0;
    assert(data@.skip(0) =~= data@);
    while i < data.len()
        invariant
            i <= data@.len(),
            split_records(data@) == done + scan_records(current@, data@.skip(i as int)),
            lines@.len() == done.len(),
            forall|k: int| 0 <= k < done.len() ==> valid_utf8(#[trigger] done[k]),
            forall|k: int| 0 <= k < done.len() ==> (#[trigger] lines@[k])@ == decode_utf8(done[k]),
        decreases data@.len() - i,
    {
        let ghost rest = data@.skip(i as int);
        assert(rest.len() > 0 && rest[0] == data@[i as int]);
        assert(rest.drop_first() =~= data@.skip(i as int + 1));
        if data[i] == DATA_FILE_RECORD_SEPARATOR {
            let ghost record = current@;
            let mut taken: Vec<u8> = Vec::new();
            core::mem::swap(&mut taken, &mut current);
            match string_from_utf8(taken) {
                Some(line) => {
                    lines.push(line);
                    proof {
                        assert(done + (seq![record] + scan_records(Seq::empty(), rest.drop_first()))
                            =~= done.push(record) + scan_records(Seq::empty(), rest.drop_first()));
                        done = done.push(record);
                    }
                },
                None => {
                    assert(split_records(data@)[done.len() as int] == record);
                    return None;
                },
            }
        } else {
            current.push(data[i]);
        }
        i += 1;
    }
    assert(data@.skip(i as int).len() == 0);
    let ghost record = current@;
    match string_from_utf8(current) {
        Some(line) => {
            lines.push(line);
            proof {
                done = done.push(record);
            }
        },
        None => {
            assert(split_records(data@)[done.len() as int] == record);
            return None;
        },
    }
    assert(split_records(data@) =~= done);
    assert(strings_view(lines@) =~= decode_lines(done).unwrap());
    Some(lines)
}

/// The bytes that one write appends to a data file: the line, behind a
/// separator unless it is the first of the file.
pub fn frame(line: &str, first: bool) -> (r: Vec<u8>)
    ensures
        r@ == if first {
            encode_utf8(line@)
        } else {
            seq![DATA_FILE_RECORD_SEPARATOR] + encode_utf8(line@)
        },
{
    let mut out: Vec<u8> = Vec::new();
    if !first {
        out.push(DATA_FILE_RECORD_SEPARATOR);
    }
    let mut bytes = line.as_bytes_vec();
    out.append(&mut bytes);
    assert(out@ =~= if first {
        encode_utf8(line@)
    } else {
        seq![DATA_FILE_RECORD_SEPARATOR] + encode_utf8(line@)
    });
    out
}

} // verus!
