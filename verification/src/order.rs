//! Lexicographic order on 32-byte hashes, and a verified sort.

use vstd::prelude::*;
use vstd::relations::*;
use vstd::utf8::{encode_utf8, encode_utf8_decode_utf8};

use crate::text::string_views;

verus! {

/// A 32-byte digest.
pub type Hash32 = [u8; 32];

/// Lexicographic `<=` on byte strings (the order of Rust's `Ord` for byte arrays).
pub open spec fn lex_le(a: Seq<u8>, b: Seq<u8>) -> bool
    decreases a.len(),
{
    if a.len() == 0 {
        true
    } else if b.len() == 0 {
        false
    } else if a[0] < b[0] {
        true
    } else if a[0] > b[0] {
        false
    } else {
        lex_le(a.drop_first(), b.drop_first())
    }
}

/// The order in which hashes are sorted: lexicographic on their bytes.
pub open spec fn seq_leq() -> spec_fn(Seq<u8>, Seq<u8>) -> bool {
    |a: Seq<u8>, b: Seq<u8>| lex_le(a, b)
}

/// The view of a sequence of hashes as byte strings.
pub open spec fn hash_views(s: Seq<Hash32>) -> Seq<Seq<u8>> {
    s.map_values(|h: Hash32| h@)
}

proof fn lemma_lex_reflexive(a: Seq<u8>)
    ensures
        lex_le(a, a),
    decreases a.len(),
{
    if a.len() > 0 {
        lemma_lex_reflexive(a.drop_first());
    }
}

proof fn lemma_lex_antisymmetric(a: Seq<u8>, b: Seq<u8>)
    requires
        lex_le(a, b),
        lex_le(b, a),
    ensures
        a =~= b,
    decreases a.len(),
{
    if a.len() > 0 && b.len() > 0 {
        lemma_lex_antisymmetric(a.drop_first(), b.drop_first());
        assert(a =~= seq![a[0]] + a.drop_first());
        assert(b =~= seq![b[0]] + b.drop_first());
    }
}

proof fn lemma_lex_transitive(a: Seq<u8>, b: Seq<u8>, c: Seq<u8>)
    requires
        lex_le(a, b),
        lex_le(b, c),
    ensures
        lex_le(a, c),
    decreases a.len(),
{
    if a.len() > 0 && b.len() > 0 && c.len() > 0 && a[0] == b[0] && b[0] == c[0] {
        lemma_lex_transitive(a.drop_first(), b.drop_first(), c.drop_first());
    }
}

proof fn lemma_lex_total(a: Seq<u8>, b: Seq<u8>)
    ensures
        lex_le(a, b) || lex_le(b, a),
    decreases a.len(),
{
    if a.len() > 0 && b.len() > 0 {
        lemma_lex_total(a.drop_first(), b.drop_first());
    }
}

/// The byte-string order is a total order.
pub proof fn lemma_seq_leq_total()
    ensures
        total_ordering(seq_leq()),
{
    let leq = seq_leq();
    assert forall|x: Seq<u8>| #[trigger] leq(x, x) by {
        lemma_lex_reflexive(x);
    }
    assert forall|x: Seq<u8>, y: Seq<u8>| #[trigger] leq(x, y) && #[trigger] leq(y, x) implies x
        == y by {
        lemma_lex_antisymmetric(x, y);
    }
    assert forall|x: Seq<u8>, y: Seq<u8>, z: Seq<u8>|
        #[trigger] leq(x, y) && #[trigger] leq(y, z) implies leq(x, z) by {
        lemma_lex_transitive(x, y, z);
    }
    assert forall|x: Seq<u8>, y: Seq<u8>| #[trigger] leq(x, y) || #[trigger] leq(y, x) by {
        lemma_lex_total(x, y);
    }
}

/// Compares two hashes in lexicographic order.
pub fn hash_le(a: &Hash32, b: &Hash32) -> (r: bool)
    ensures
        r == lex_le(a@, b@),
{
    broadcast use vstd::array::group_array_axioms;

    let mut i: usize = 0;
    assert(a@.skip(0) =~= a@);
    assert(b@.skip(0) =~= b@);
    while i < 32
        invariant
            0 <= i <= 32,
            a@.len() == 32,
            b@.len() == 32,
            lex_le(a@, b@) == lex_le(a@.skip(i as int), b@.skip(i as int)),
        decreases 32 - i,
    {
        let x = a[i];
        let y = b[i];
        assert(a@.skip(i as int)[0] == x);
        assert(b@.skip(i as int)[0] == y);
        if x < y {
            return true;
        }
        if x > y {
            return false;
        }
        assert(a@.skip(i as int).drop_first() =~= a@.skip(i + 1));
        assert(b@.skip(i as int).drop_first() =~= b@.skip(i + 1));
        i = i + 1;
    }
    true
}

/// Tests two hashes for equality.
pub fn hash_eq(a: &Hash32, b: &Hash32) -> (r: bool)
    ensures
        r == (*a == *b),
{
    broadcast use vstd::array::group_array_axioms;

    let mut i: usize = 0;
    while i < 32
        invariant
            0 <= i <= 32,
            a@.len() == 32,
            b@.len() == 32,
            forall|j: int| 0 <= j < i ==> a@[j] == b@[j],
        decreases 32 - i,
    {
        if a[i] != b[i] {
            return false;
        }
        i = i + 1;
    }
    assert(*a =~= *b);
    true
}

/// Sorts hashes in lexicographic order (insertion sort).
pub fn sort_hashes(v: &Vec<Hash32>) -> (r: Vec<Hash32>)
    ensures
        hash_views(r@) == hash_views(v@).sort_by(seq_leq()),
        r@.len() == v@.len(),
{
    broadcast use vstd::seq_lib::group_to_multiset_ensures;

    proof {
        lemma_seq_leq_total();
    }
    let ghost leq = seq_leq();
    let mut out: Vec<Hash32> = Vec::new();
    let mut i: usize = 0;
    while i < v.len()
        invariant
            0 <= i <= v.len(),
            leq == seq_leq(),
            total_ordering(leq),
            sorted_by(hash_views(out@), leq),
            hash_views(out@).to_multiset() == hash_views(v@.subrange(0, i as int)).to_multiset(),
            out@.len() == i,
        decreases v.len() - i,
    {
        let x = v[i];
        let mut p: usize = 0;
        while p < out.len() && hash_le(&out[p], &x)
            invariant
                0 <= p <= out.len(),
                forall|j: int| 0 <= j < p ==> leq(out@[j]@, x@),
                leq == seq_leq(),
            decreases out.len() - p,
        {
            p = p + 1;
        }
        let ghost old_out = hash_views(out@);
        out.insert(p, x);
        proof {
            assert(hash_views(out@) =~= old_out.insert(p as int, x@));
            let nv = hash_views(out@);
            assert forall|a: int, b: int| 0 <= a < b < nv.len() implies #[trigger] leq(
                nv[a],
                nv[b],
            ) by {
                if b < p {
                } else if a < p && b == p {
                } else if a < p && b > p {
                    assert(nv[b] == old_out[b - 1]);
                    assert(leq(old_out[a], old_out[b - 1]));
                } else if a == p {
                    assert(!leq(old_out[p as int], x@));
                    assert(leq(x@, old_out[p as int]));
                    if b - 1 > p {
                        assert(leq(old_out[p as int], old_out[b - 1]));
                    }
                } else {
                    assert(leq(old_out[a - 1], old_out[b - 1]));
                }
            }
            vstd::seq_lib::to_multiset_insert(old_out, p as int, x@);
            let pre = hash_views(v@.subrange(0, i as int));
            assert(hash_views(v@.subrange(0, i + 1)) =~= pre.push(x@));
            vstd::seq_lib::to_multiset_build(pre, x@);
        }
        i = i + 1;
    }
    proof {
        assert(v@.subrange(0, v@.len() as int) =~= v@);
        hash_views(v@).lemma_sort_by_ensures(leq);
        vstd::seq_lib::lemma_sorted_unique(hash_views(out@), hash_views(v@).sort_by(leq), leq);
    }
    out
}

/// Compares two byte strings in lexicographic order.
pub fn bytes_le(a: &[u8], b: &[u8]) -> (r: bool)
    ensures
        r == lex_le(a@, b@),
{
    let mut i: usize = 0;
    assert(a@.skip(0) =~= a@);
    assert(b@.skip(0) =~= b@);
    while i < a.len() && i < b.len()
        invariant
            0 <= i <= a@.len(),
            i <= b@.len(),
            lex_le(a@, b@) == lex_le(a@.skip(i as int), b@.skip(i as int)),
        decreases a@.len() - i,
    {
        let x = a[i];
        let y = b[i];
        assert(a@.skip(i as int)[0] == x);
        assert(b@.skip(i as int)[0] == y);
        if x < y {
            return true;
        }
        if x > y {
            return false;
        }
        assert(a@.skip(i as int).drop_first() =~= a@.skip(i + 1));
        assert(b@.skip(i as int).drop_first() =~= b@.skip(i + 1));
        i = i + 1;
    }
    i == a.len()
}

/// The views of byte vectors.
pub open spec fn byte_views(s: Seq<Vec<u8>>) -> Seq<Seq<u8>> {
    s.map_values(|v: Vec<u8>| v@)
}

/// Sorts byte strings in lexicographic order (insertion sort).
pub fn sort_byte_strings(v: Vec<Vec<u8>>) -> (r: Vec<Vec<u8>>)
    ensures
        byte_views(r@) == byte_views(v@).sort_by(seq_leq()),
{
    broadcast use vstd::seq_lib::group_to_multiset_ensures;

    proof {
        lemma_seq_leq_total();
    }
    let ghost leq = seq_leq();
    let ghost orig = byte_views(v@);
    let mut src = v;
    let mut out: Vec<Vec<u8>> = Vec::new();
    let mut i: usize = 0;
    let n = src.len();
    while src.len() > 0
        invariant
            leq == seq_leq(),
            total_ordering(leq),
            orig.len() == n,
            src@.len() + i == n,
            byte_views(src@) == orig.skip(i as int),
            sorted_by(byte_views(out@), leq),
            byte_views(out@).to_multiset() == orig.take(i as int).to_multiset(),
        decreases src@.len(),
    {
        let ghost before = src@;
        let x = src.remove(0);
        assert(src@ =~= before.drop_first());
        assert(byte_views(src@) =~= byte_views(before).drop_first());
        assert(orig.skip(i as int)[0] == x@);
        assert(orig.skip(i as int).drop_first() =~= orig.skip(i + 1));
        let mut p: usize = 0;
        while p < out.len() && bytes_le(out[p].as_slice(), x.as_slice())
            invariant
                0 <= p <= out.len(),
                forall|j: int| 0 <= j < p ==> leq(out@[j]@, x@),
                leq == seq_leq(),
            decreases out.len() - p,
        {
            p = p + 1;
        }
        let ghost old_out = byte_views(out@);
        let ghost xv = x@;
        out.insert(p, x);
        proof {
            assert(byte_views(out@) =~= old_out.insert(p as int, xv));
            let nv = byte_views(out@);
            assert forall|a: int, b: int| 0 <= a < b < nv.len() implies #[trigger] leq(
                nv[a],
                nv[b],
            ) by {
                if b < p {
                } else if a < p && b == p {
                } else if a < p && b > p {
                    assert(nv[b] == old_out[b - 1]);
                    assert(leq(old_out[a], old_out[b - 1]));
                } else if a == p {
                    assert(!leq(old_out[p as int], xv));
                    assert(leq(xv, old_out[p as int]));
                    if b - 1 > p {
                        assert(leq(old_out[p as int], old_out[b - 1]));
                    }
                } else {
                    assert(leq(old_out[a - 1], old_out[b - 1]));
                }
            }
            vstd::seq_lib::to_multiset_insert(old_out, p as int, xv);
            let pre = orig.take(i as int);
            assert(orig.take(i + 1) =~= pre.push(xv));
            vstd::seq_lib::to_multiset_build(pre, xv);
        }
        i = i + 1;
    }
    proof {
        assert(orig.take(n as int) =~= orig);
        orig.lemma_sort_by_ensures(leq);
        vstd::seq_lib::lemma_sorted_unique(byte_views(out@), orig.sort_by(leq), leq);
    }
    out
}

/// The order of strings: lexicographic on their UTF-8 bytes (the order of
/// Rust's `Ord` for `String`).
pub open spec fn utf8_leq() -> spec_fn(Seq<char>, Seq<char>) -> bool {
    |a: Seq<char>, b: Seq<char>| lex_le(encode_utf8(a), encode_utf8(b))
}

/// The string order is a total order.
pub proof fn lemma_utf8_leq_total()
    ensures
        total_ordering(utf8_leq()),
{
    lemma_seq_leq_total();
    let leq = utf8_leq();
    let bl = seq_leq();
    assert forall|x: Seq<char>| #[trigger] leq(x, x) by {
        assert(bl(encode_utf8(x), encode_utf8(x)));
    }
    assert forall|x: Seq<char>, y: Seq<char>| #[trigger] leq(x, y) && #[trigger] leq(y, x) implies x
        == y by {
        assert(bl(encode_utf8(x), encode_utf8(y)));
        assert(bl(encode_utf8(y), encode_utf8(x)));
        assert(encode_utf8(x) == encode_utf8(y));
        encode_utf8_decode_utf8(x);
        encode_utf8_decode_utf8(y);
    }
    assert forall|x: Seq<char>, y: Seq<char>, z: Seq<char>|
        #[trigger] leq(x, y) && #[trigger] leq(y, z) implies leq(x, z) by {
        assert(bl(encode_utf8(x), encode_utf8(y)));
        assert(bl(encode_utf8(y), encode_utf8(z)));
        assert(bl(encode_utf8(x), encode_utf8(z)));
    }
    assert forall|x: Seq<char>, y: Seq<char>| #[trigger] leq(x, y) || #[trigger] leq(y, x) by {
        assert(bl(encode_utf8(x), encode_utf8(y)) || bl(encode_utf8(y), encode_utf8(x)));
    }
}

/// Compares two strings by their UTF-8 bytes.
pub fn string_le(a: &String, b: &String) -> (r: bool)
    ensures
        r == utf8_leq()(a@, b@),
{
    bytes_le(a.as_str().as_bytes(), b.as_str().as_bytes())
}

/// Sorted copies of strings, in the order of their UTF-8 bytes (insertion sort).
pub fn sort_strings(v: &[String]) -> (r: Vec<String>)
    ensures
        string_views(r@) == string_views(v@).sort_by(utf8_leq()),
{
    broadcast use vstd::seq_lib::group_to_multiset_ensures;

    proof {
        lemma_utf8_leq_total();
    }
    let ghost leq = utf8_leq();
    let mut out: Vec<String> = Vec::new();
    let mut i: usize = 0;
    while i < v.len()
        invariant
            0 <= i <= v@.len(),
            leq == utf8_leq(),
            total_ordering(leq),
            sorted_by(string_views(out@), leq),
            string_views(out@).to_multiset() == string_views(v@.subrange(0, i as int)).to_multiset(),
        decreases v@.len() - i,
    {
        let x = v[i].clone();
        let mut p: usize = 0;
        while p < out.len() && string_le(&out[p], &x)
            invariant
                0 <= p <= out.len(),
                forall|j: int| 0 <= j < p ==> leq(out@[j]@, x@),
                leq == utf8_leq(),
            decreases out.len() - p,
        {
            p = p + 1;
        }
        let ghost old_out = string_views(out@);
        let ghost xv = x@;
        out.insert(p, x);
        proof {
            assert(string_views(out@) =~= old_out.insert(p as int, xv));
            let nv = string_views(out@);
            assert forall|a: int, b: int| 0 <= a < b < nv.len() implies #[trigger] leq(
                nv[a],
                nv[b],
            ) by {
                if b < p {
                } else if a < p && b == p {
                } else if a < p && b > p {
                    assert(nv[b] == old_out[b - 1]);
                    assert(leq(old_out[a], old_out[b - 1]));
                } else if a == p {
                    assert(!leq(old_out[p as int], xv));
                    assert(leq(xv, old_out[p as int]));
                    if b - 1 > p {
                        assert(leq(old_out[p as int], old_out[b - 1]));
                    }
                } else {
                    assert(leq(old_out[a - 1], old_out[b - 1]));
                }
            }
            vstd::seq_lib::to_multiset_insert(old_out, p as int, xv);
            let pre = string_views(v@.subrange(0, i as int));
            assert(string_views(v@.subrange(0, i + 1)) =~= pre.push(xv));
            vstd::seq_lib::to_multiset_build(pre, xv);
        }
        i = i + 1;
    }
    proof {
        assert(v@.subrange(0, v@.len() as int) =~= v@);
        string_views(v@).lemma_sort_by_ensures(leq);
        vstd::seq_lib::lemma_sorted_unique(string_views(out@), string_views(v@).sort_by(leq), leq);
    }
    out
}

} // verus!
