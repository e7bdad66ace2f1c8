//! The fingerprint of a metadata map: the address of its shard.
//!
//! Each label is digested on its own, name and value joined, and the
//! digests are folded together with exclusive or; the sixteen bytes that
//! result are written as thirty-two lower-case hexadecimal digits. The fold
//! makes the fingerprint independent of the order of the labels.

use vstd::prelude::*;
use vstd::string::*;
use vstd::utf8::*;
use vstd::seq_lib::*;
use crate::assoc::{assoc_map, distinct_keys, lemma_assoc_map_dom, lemma_assoc_map_index};
use crate::metadata::{Label, Metadata};

verus! {

/// The MD5 digest of a sequence of bytes.
pub uninterp spec fn md5_digest(data: Seq<u8>) -> Seq<u8>;

/// `md5::compute`: the sixteen bytes of the MD5 digest of `data`.
#[verifier::external_body]
fn md5_compute(data: &[u8]) -> (r: [u8; 16])
    ensures
        r@ == md5_digest(data@),
{
    md5::compute(data).0
}

/// The lower-case hexadecimal digit of a number below sixteen.
pub open spec fn hex_digit(n: int) -> char {
    seq!['0', '1', '2', '3', '4', '5', '6', '7', '8', '9', 'a', 'b', 'c', 'd', 'e', 'f'][n]
}

/// The bytes written as lower-case hexadecimal, two digits for each byte,
/// the high half first.
pub open spec fn hex_lower(bytes: Seq<u8>) -> Seq<char> {
    Seq::new(
        2 * bytes.len(),
        |i: int|
            if i % 2 == 0 {
                hex_digit(bytes[i / 2] as int / 16)
            } else {
                hex_digit(bytes[i / 2] as int % 16)
            },
    )
}

/// The `LowerHex` form of `md5::Digest`: each of the sixteen bytes as two
/// lower-case hexadecimal digits, in order.
#[verifier::external_body]
fn digest_hex(digest: [u8; 16]) -> (r: String)
    ensures
        r@ == hex_lower(digest@),
{
    format!("{:x}", md5::Digest(digest))
}

/// Sixteen zero bytes: the digest of no labels.
pub open spec fn zero_digest() -> Seq<u8> {
    Seq::new(16, |i: int| 0u8)
}

/// Two digests folded byte by byte with exclusive or.
pub open spec fn xor_digest(a: Seq<u8>, b: Seq<u8>) -> Seq<u8> {
    Seq::new(16, |i: int| a[i] ^ b[i])
}

/// The digest of one label: MD5 over the bytes of its name followed by
/// the bytes of its value.
pub open spec fn label_digest(l: Label) -> Seq<u8> {
    md5_digest(encode_utf8(l.0) + encode_utf8(l.1))
}

/// The digests of the labels, folded together.
pub open spec fn labels_digest(s: Seq<Label>) -> Seq<u8>
    decreases s.len(),
{
    if s.len() == 0 {
        zero_digest()
    } else {
        xor_digest(labels_digest(s.drop_last()), label_digest(s.last()))
    }
}

/// The fingerprint of a sequence of labels.
pub open spec fn fingerprint_of(s: Seq<Label>) -> Seq<char> {
    hex_lower(labels_digest(s))
}

proof fn lemma_xor_byte(a: u8, b: u8, c: u8)
    ensures
        a ^ b == b ^ a,
        (a ^ b) ^ c == a ^ (b ^ c),
        a ^ 0u8 == a,
        0u8 ^ a == a,
{
    assert(a ^ b == b ^ a) by (bit_vector);
    assert((a ^ b) ^ c == a ^ (b ^ c)) by (bit_vector);
    assert(a ^ 0u8 == a) by (bit_vector);
    assert(0u8 ^ a == a) by (bit_vector);
}

/// Folding in two digests in either order gives the same result.
proof fn lemma_xor_swap(d: Seq<u8>, x: Seq<u8>, y: Seq<u8>)
    ensures
        xor_digest(xor_digest(d, x), y) == xor_digest(xor_digest(d, y), x),
{
    assert forall|i: int| 0 <= i < 16 implies xor_digest(xor_digest(d, x), y)[i] == xor_digest(
        xor_digest(d, y),
        x,
    )[i] by {
        lemma_xor_byte(d[i], x[i], y[i]);
        lemma_xor_byte(x[i], y[i], 0);
        lemma_xor_byte(d[i], y[i], x[i]);
    }
    assert(xor_digest(xor_digest(d, x), y) =~= xor_digest(xor_digest(d, y), x));
}

/// The fold of a sequence is the fold of the sequence without one of its
/// labels, with that label's digest folded in.
proof fn lemma_digest_remove(s: Seq<Label>, i: int)
    requires
        0 <= i < s.len(),
    ensures
        labels_digest(s) == xor_digest(labels_digest(s.remove(i)), label_digest(s[i])),
    decreases s.len(),
{
    if i == s.len() - 1 {
        assert(s.remove(i) =~= s.drop_last());
    } else {
        let t = s.drop_last();
        lemma_digest_remove(t, i);
        assert(s.remove(i).drop_last() =~= t.remove(i));
        assert(s.remove(i).last() == s.last());
        lemma_xor_swap(labels_digest(t.remove(i)), label_digest(s[i]), label_digest(s.last()));
    }
}

/// The fold does not depend on the order of the labels: two sequences that
/// hold the same labels the same number of times have the same digest, and
/// so the same fingerprint.
pub proof fn lemma_fingerprint_permutation(a: Seq<Label>, b: Seq<Label>)
    requires
        a.to_multiset() == b.to_multiset(),
    ensures
        labels_digest(a) == labels_digest(b),
        fingerprint_of(a) == fingerprint_of(b),
    decreases a.len(),
{
    broadcast use group_to_multiset_ensures;

    a.to_multiset_ensures();
    b.to_multiset_ensures();
    if a.len() == 0 {
        assert(b.len() == 0);
    } else {
        let x = a.last();
        assert(a.drop_last().push(x) =~= a);
        assert(a.to_multiset().count(x) > 0);
        assert(b.contains(x));
        let j = choose|j: int| 0 <= j < b.len() && b[j] == x;
        assert(a.drop_last() =~= a.remove(a.len() - 1));
        assert(a.drop_last().to_multiset() =~= b.remove(j).to_multiset());
        lemma_fingerprint_permutation(a.drop_last(), b.remove(j));
        lemma_digest_remove(b, j);
    }
}

/// Two sequences of labels with distinct names that stand for the same map
/// have the same fingerprint.
pub proof fn lemma_fingerprint_of_equal_maps(a: Seq<Label>, b: Seq<Label>)
    requires
        distinct_keys(a),
        distinct_keys(b),
        assoc_map(a) == assoc_map(b),
    ensures
        labels_digest(a) == labels_digest(b),
        fingerprint_of(a) == fingerprint_of(b),
    decreases a.len(),
{
    if a.len() == 0 {
        if b.len() > 0 {
            lemma_assoc_map_index(b, 0);
            lemma_assoc_map_dom(a, b[0].0);
        }
    } else {
        let x = a.last();
        lemma_assoc_map_index(a, a.len() - 1);
        lemma_assoc_map_dom(b, x.0);
        let j = choose|j: int| 0 <= j < b.len() && b[j].0 == x.0;
        lemma_assoc_map_index(b, j);
        assert(b[j] == x);
        let a1 = a.drop_last();
        let b1 = b.remove(j);
        assert(distinct_keys(b1));
        assert(assoc_map(a1) =~= assoc_map(b1)) by {
            assert forall|k: Seq<char>| assoc_map(a1).dom().contains(k) <==> assoc_map(b1).dom().contains(k) by {
                lemma_assoc_map_dom(a1, k);
                lemma_assoc_map_dom(b1, k);
                lemma_assoc_map_dom(a, k);
                lemma_assoc_map_dom(b, k);
                if exists|i: int| 0 <= i < a1.len() && a1[i].0 == k {
                    let i = choose|i: int| 0 <= i < a1.len() && a1[i].0 == k;
                    assert(a[i].0 == k);
                    assert(k != x.0);
                    let m = choose|m: int| 0 <= m < b.len() && b[m].0 == k;
                    if m < j {
                        assert(b1[m].0 == k);
                    } else {
                        assert(b1[m - 1].0 == k);
                    }
                }
                if exists|i: int| 0 <= i < b1.len() && b1[i].0 == k {
                    let i = choose|i: int| 0 <= i < b1.len() && b1[i].0 == k;
                    let m = if i < j { i } else { i + 1 };
                    assert(b[m].0 == k);
                    assert(k != x.0);
                    let n = choose|n: int| 0 <= n < a.len() && a[n].0 == k;
                    assert(a1[n].0 == k);
                }
            }
            assert forall|k: Seq<char>| assoc_map(a1).dom().contains(k) implies assoc_map(a1)[k]
                == assoc_map(b1)[k] by {
                lemma_assoc_map_dom(a1, k);
                lemma_assoc_map_dom(b1, k);
                let i = choose|i: int| 0 <= i < a1.len() && a1[i].0 == k;
                let n = choose|n: int| 0 <= n < b1.len() && b1[n].0 == k;
                lemma_assoc_map_index(a1, i);
                lemma_assoc_map_index(b1, n);
                lemma_assoc_map_index(a, i);
                let m = if n < j { n } else { n + 1 };
                lemma_assoc_map_index(b, m);
            }
        }
        lemma_fingerprint_of_equal_maps(a1, b1);
        lemma_digest_remove(b, j);
    }
}

/// Whether the character is a lower-case hexadecimal digit.
pub open spec fn is_hex_digit(c: char) -> bool {
    '0' <= c <= '9' || 'a' <= c <= 'f'
}

/// A fingerprint is thirty-two lower-case hexadecimal digits.
pub proof fn lemma_fingerprint_len(s: Seq<Label>)
    ensures
        labels_digest(s).len() == 16,
        fingerprint_of(s).len() == 32,
        forall|i: int| 0 <= i < 32 ==> is_hex_digit(#[trigger] fingerprint_of(s)[i]),
    decreases s.len(),
{
    if s.len() > 0 {
        lemma_fingerprint_len(s.drop_last());
    }
    assert forall|i: int| 0 <= i < 32 implies is_hex_digit(#[trigger] fingerprint_of(s)[i]) by {
        let b = labels_digest(s)[i / 2] as int;
        assert(0 <= b / 16 < 16 && 0 <= b % 16 < 16);
        assert forall|n: int| 0 <= n < 16 implies is_hex_digit(#[trigger] hex_digit(n)) by {}
    }
}

/// The fingerprint of no labels is thirty-two zeros.
pub proof fn lemma_fingerprint_of_nothing()
    ensures
        fingerprint_of(Seq::<Label>::empty()) == Seq::new(32, |i: int| '0'),
{
    assert(fingerprint_of(Seq::<Label>::empty()) =~= Seq::new(32, |i: int| '0'));
}

/// Folds the digest of one more label into the digest of labels.
pub fn fold_digest(digest: [u8; 16], entry: [u8; 16]) -> (r: [u8; 16])
    ensures
        r@ == xor_digest(digest@, entry@),
{
    let mut out = digest;
    let mut j: usize = 0;
    while j < 16
        invariant
            j <= 16,
            forall|k: int| 0 <= k < j ==> out@[k] == digest@[k] ^ entry@[k],
            forall|k: int| j <= k < 16 ==> out@[k] == digest@[k],
        decreases 16 - j,
    {
        out[j] = out[j] ^ entry[j];
        j += 1;
    }
    assert(out@ =~= xor_digest(digest@, entry@));
    out
}

/// The fingerprint of a metadata map: thirty-two lower-case hexadecimal
/// digits that depend on the labels alone, not on their order.
pub fn fingerprint(metadata: &Metadata) -> (r: String)
    ensures
        r@ == fingerprint_of(metadata.entries()),
        r@.len() == 32,
{
    let mut digest: [u8; 16] = [0u8; 16];
    assert(digest@ =~= zero_digest());
    let n = metadata.len();
    let mut i: usize = 0;
    while i < n
        invariant
            n == metadata.entries().len(),
            i <= n,
            digest@ == labels_digest(metadata.entries().take(i as int)),
        decreases n - i,
    {
        let l = metadata.label(i).unwrap();
        let mut data = l.0.as_str().as_bytes_vec();
        let mut value = l.1.as_str().as_bytes_vec();
        data.append(&mut value);
        proof {
            let s = metadata.entries().take(i as int + 1);
            assert(s.drop_last() =~= metadata.entries().take(i as int));
            assert(s.last() == metadata.entries()[i as int]);
        }
        digest = fold_digest(digest, md5_compute(data.as_slice()));
        i += 1;
    }
    assert(metadata.entries().take(n as int) =~= metadata.entries());
    digest_hex(digest)
}

impl Metadata {
    /// The fingerprint of the map. See [`fingerprint`].
    pub fn fingerprint(&self) -> (r: String)
        ensures
            r@ == fingerprint_of(self.entries()),
    {
        fingerprint(self)
    }
}

} // verus!
