//! Line draining: what a tailed file yields when bytes are read from it.
//!
//! Bytes are taken up to each newline. What stands before a newline
//! completes a line, together with what an earlier read left behind;
//! what stands after the last newline is left behind for the next read.

use vstd::prelude::*;
use vstd::string::*;
use vstd::utf8::*;
use crate::text::{string_from_utf8, strings_view};

verus! {

/// The byte that ends a line.
pub const NEWLINE: u8 = 10;

/// The position of the first newline, or the length where there is none.
pub open spec fn first_newline(bytes: Seq<u8>) -> int
    decreases bytes.len(),
{
    if bytes.len() == 0 {
        0
    } else if bytes[0] == NEWLINE {
        0
    } else {
        1 + first_newline(bytes.drop_first())
    }
}

/// The outcome of a read, as specifications see it.
pub struct Drain {
    /// The partial line that is left behind.
    pub buffer: Seq<char>,
    /// The lines that were completed, newlines stripped.
    pub lines: Seq<Seq<char>>,
    /// How many of the bytes were taken.
    pub consumed: int,
    /// Whether all that was taken was UTF-8.
    pub valid: bool,
}

/// Reading `bytes` behind the partial line `buffer`. The read stops at the
/// first stretch of bytes, up to a newline or the end, that is not UTF-8:
/// that stretch is taken and dropped, and the partial line stays as it was
/// before it.
pub open spec fn drain_spec(buffer: Seq<char>, bytes: Seq<u8>) -> Drain
    decreases bytes.len(),
{
    if bytes.len() == 0 {
        Drain { buffer, lines: Seq::empty(), consumed: 0, valid: true }
    } else {
        let n = first_newline(bytes);
        let content = bytes.take(n);
        if !valid_utf8(content) {
            Drain {
                buffer,
                lines: Seq::empty(),
                consumed: if n < bytes.len() {
                    n + 1
                } else {
                    n
                },
                valid: false,
            }
        } else if 0 <= n < bytes.len() {
            let rest = drain_spec(Seq::empty(), bytes.skip(n + 1));
            Drain {
                buffer: rest.buffer,
                lines: seq![buffer + decode_utf8(content)] + rest.lines,
                consumed: n + 1 + rest.consumed,
                valid: rest.valid,
            }
        } else {
            Drain { buffer: buffer + decode_utf8(content), lines: Seq::empty(), consumed: n, valid: true }
        }
    }
}

/// The first newline lies within the bytes or at their end.
pub proof fn lemma_first_newline_bounds(bytes: Seq<u8>)
    ensures
        0 <= first_newline(bytes) <= bytes.len(),
        first_newline(bytes) < bytes.len() ==> bytes[first_newline(bytes)] == NEWLINE,
        forall|i: int| 0 <= i < first_newline(bytes) ==> bytes[i] != NEWLINE,
    decreases bytes.len(),
{
    if bytes.len() > 0 && bytes[0] != NEWLINE {
        lemma_first_newline_bounds(bytes.drop_first());
        assert forall|i: int| 0 <= i < first_newline(bytes) implies bytes[i] != NEWLINE by {
            if i > 0 {
                assert(bytes.drop_first()[i - 1] == bytes[i]);
            }
        }
    }
}

/// A read never takes more bytes than it is handed.
pub proof fn lemma_drain_consumed(buffer: Seq<char>, bytes: Seq<u8>)
    ensures
        0 <= drain_spec(buffer, bytes).consumed <= bytes.len(),
        drain_spec(buffer, bytes).valid ==> drain_spec(buffer, bytes).consumed == bytes.len(),
    decreases bytes.len(),
{
    lemma_first_newline_bounds(bytes);
    if bytes.len() > 0 {
        let n = first_newline(bytes);
        if valid_utf8(bytes.take(n)) && n < bytes.len() {
            lemma_drain_consumed(Seq::empty(), bytes.skip(n + 1));
        }
    }
}

/// The first newline of bytes laid end to end is that of the first part,
/// or else that of the second.
proof fn lemma_first_newline_add(a: Seq<u8>, b: Seq<u8>)
    ensures
        first_newline(a + b) == if first_newline(a) < a.len() {
            first_newline(a)
        } else {
            a.len() + first_newline(b)
        },
    decreases a.len(),
{
    lemma_first_newline_bounds(a);
    if a.len() == 0 {
        assert(a + b =~= b);
    } else {
        assert((a + b)[0] == a[0]);
        if a[0] != NEWLINE {
            assert((a + b).drop_first() =~= a.drop_first() + b);
            lemma_first_newline_add(a.drop_first(), b);
            lemma_first_newline_bounds(a.drop_first());
        }
    }
}

/// Characters laid end to end are written as their bytes laid end to end.
proof fn lemma_encode_add(x: Seq<char>, y: Seq<char>)
    ensures
        encode_utf8(x + y) == encode_utf8(x) + encode_utf8(y),
    decreases x.len(),
{
    if x.len() == 0 {
        assert(x + y =~= y);
        assert(encode_utf8(x) + encode_utf8(y) =~= encode_utf8(y));
    } else {
        assert((x + y)[0] == x[0]);
        assert((x + y).drop_first() =~= x.drop_first() + y);
        lemma_encode_add(x.drop_first(), y);
        assert(encode_utf8(x + y) =~= encode_utf8(x) + encode_utf8(y));
    }
}

/// Well-formed bytes laid end to end are well-formed, and hold the
/// characters of both parts.
proof fn lemma_decode_add(a: Seq<u8>, b: Seq<u8>)
    requires
        valid_utf8(a),
        valid_utf8(b),
    ensures
        valid_utf8(a + b),
        decode_utf8(a + b) == decode_utf8(a) + decode_utf8(b),
{
    valid_utf8_concat(a, b);
    decode_utf8_encode_utf8(a);
    decode_utf8_encode_utf8(b);
    lemma_encode_add(decode_utf8(a), decode_utf8(b));
    encode_utf8_decode_utf8(decode_utf8(a) + decode_utf8(b));
}

/// Two reads give what one read gives: where bytes are read in two parts
/// and both reads meet UTF-8 only, the lines of the two reads together are
/// the lines of one read of all the bytes, and the same partial line is
/// left behind.
pub proof fn lemma_drain_in_two_reads(buffer: Seq<char>, a: Seq<u8>, b: Seq<u8>)
    requires
        drain_spec(buffer, a).valid,
        drain_spec(drain_spec(buffer, a).buffer, b).valid,
    ensures
        drain_spec(buffer, a + b).valid,
        drain_spec(buffer, a + b).lines == drain_spec(buffer, a).lines + drain_spec(
            drain_spec(buffer, a).buffer,
            b,
        ).lines,
        drain_spec(buffer, a + b).buffer == drain_spec(drain_spec(buffer, a).buffer, b).buffer,
        drain_spec(buffer, a + b).consumed == a.len() + b.len(),
    decreases a.len(),
{
    let first = drain_spec(buffer, a);
    let second = drain_spec(first.buffer, b);
    let whole = drain_spec(buffer, a + b);
    lemma_first_newline_bounds(a);
    lemma_first_newline_bounds(b);
    lemma_first_newline_add(a, b);
    lemma_drain_consumed(first.buffer, b);
    if a.len() == 0 {
        assert(a + b =~= b);
        assert(first.lines + second.lines =~= second.lines);
    } else {
        let n = first_newline(a);
        if n < a.len() {
            assert((a + b).take(n) =~= a.take(n));
            assert((a + b).skip(n + 1) =~= a.skip(n + 1) + b);
            lemma_drain_in_two_reads(Seq::empty(), a.skip(n + 1), b);
            let rest = drain_spec(Seq::empty(), a.skip(n + 1));
            let line = buffer + decode_utf8(a.take(n));
            assert(seq![line] + (rest.lines + second.lines) =~= (seq![line] + rest.lines) + second.lines);
        } else {
            assert(a.take(n) =~= a);
            assert(first.lines + second.lines =~= second.lines);
            if b.len() == 0 {
                assert(a + b =~= a);
            } else {
                let m = first_newline(b);
                assert(valid_utf8(b.take(m)));
                assert((a + b).take(n + m) =~= a + b.take(m));
                lemma_decode_add(a, b.take(m));
                assert(buffer + (decode_utf8(a) + decode_utf8(b.take(m))) =~= (buffer + decode_utf8(a))
                    + decode_utf8(b.take(m)));
                if m < b.len() {
                    assert((a + b).skip(n + m + 1) =~= b.skip(m + 1));
                    lemma_drain_consumed(Seq::empty(), b.skip(m + 1));
                }
            }
        }
    }
}

/// What a read gives back.
pub struct Drained {
    /// The lines that were completed, newlines stripped.
    pub lines: Vec<String>,
    /// How many of the bytes were taken.
    pub consumed: usize,
    /// Whether all that was taken was UTF-8.
    pub valid: bool,
}

/// Finds the first newline at or behind `start`.
fn find_newline(bytes: &[u8], start: usize) -> (r: usize)
    requires
        start <= bytes@.len(),
    ensures
        start <= r <= bytes@.len(),
        r - start == first_newline(bytes@.skip(start as int)),
{
    let mut k: usize = start;
    assert(bytes@.skip(start as int).skip(0) =~= bytes@.skip(start as int));
    while k < bytes.len() && bytes[k] != NEWLINE
        invariant
            start <= k <= bytes@.len(),
            first_newline(bytes@.skip(start as int)) == (k - start) + first_newline(
                bytes@.skip(k as int),
            ),
        decreases bytes@.len() - k,
    {
        assert(bytes@.skip(k as int)[0] == bytes@[k as int]);
        assert(bytes@.skip(k as int).drop_first() =~= bytes@.skip(k as int + 1));
        k += 1;
    }
    proof {
        if k < bytes@.len() {
            assert(bytes@.skip(k as int)[0] == bytes@[k as int]);
        }
    }
    k
}

/// Reads `bytes` behind the partial line in `buffer`, and leaves in
/// `buffer` the partial line that remains.
pub fn drain(buffer: &mut String, bytes: &[u8]) -> (r: Drained)
    ensures
        final(buffer)@ == drain_spec(old(buffer)@, bytes@).buffer,
        strings_view(r.lines@) == drain_spec(old(buffer)@, bytes@).lines,
        r.consumed == drain_spec(old(buffer)@, bytes@).consumed,
        r.valid == drain_spec(old(buffer)@, bytes@).valid,
{
    let ghost goal = drain_spec(buffer@, bytes@);
    let mut lines: Vec<String> = Vec::new();
    let mut i: usize = 0;
    assert(bytes@.skip(0) =~= bytes@);
    assert(strings_view(lines@) =~= Seq::<Seq<char>>::empty());
    while i < bytes.len()
        invariant
            i <= bytes@.len(),
            goal == drain_spec(old(buffer)@, bytes@),
            goal.buffer == drain_spec(buffer@, bytes@.skip(i as int)).buffer,
            goal.lines == strings_view(lines@) + drain_spec(buffer@, bytes@.skip(i as int)).lines,
            goal.consumed == i + drain_spec(buffer@, bytes@.skip(i as int)).consumed,
            goal.valid == drain_spec(buffer@, bytes@.skip(i as int)).valid,
        decreases bytes@.len() - i,
    {
        let ghost rest = bytes@.skip(i as int);
        let end = find_newline(bytes, i);
        let content = vstd::slice::slice_to_vec(vstd::slice::slice_subrange(bytes, i, end));
        assert(content@ =~= rest.take(end - i));
        let text = match string_from_utf8(content) {
            Some(text) => text,
            None => {
                let consumed = if end < bytes.len() {
                    end + 1
                } else {
                    end
                };
                assert(goal.lines =~= strings_view(lines@));
                return Drained { lines, consumed, valid: false };
            },
        };
        buffer.append(text.as_str());
        if end < bytes.len() {
            let ghost before = strings_view(lines@);
            let mut line = String::new();
            core::mem::swap(&mut line, buffer);
            lines.push(line);
            proof {
                assert(rest.skip(end - i + 1) =~= bytes@.skip(end as int + 1));
                assert(strings_view(lines@) =~= before.push(lines@[lines@.len() - 1]@));
                let tail = drain_spec(Seq::empty(), bytes@.skip(end as int + 1));
                assert(before + (seq![lines@[lines@.len() - 1]@] + tail.lines) =~= strings_view(lines@)
                    + tail.lines);
            }
            i = end + 1;
        } else {
            i = end;
        }
    }
    proof {
        assert(bytes@.skip(i as int).len() == 0);
        assert(goal.lines =~= strings_view(lines@));
    }
    Drained { lines, consumed: i, valid: true }
}

} // verus!
