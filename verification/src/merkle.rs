//! Sorted Merkle commitments, inclusion proofs and the order-independent
//! commutative aggregate.

use vstd::prelude::*;
use vstd::relations::*;

use crate::error::{CoreError, CoreResult};
use crate::hash::{
    spec_digest, HashAlgorithm, Hasher, TAG_COMMUTATIVE, TAG_MERKLE_LEAF, TAG_MERKLE_NODE,
};
use crate::order::{hash_eq, hash_views, lemma_seq_leq_total, seq_leq, sort_hashes, Hash32};
use crate::text::push_slice;

verus! {

/// The leaf hash of a fingerprint.
pub open spec fn spec_leaf(alg: HashAlgorithm, fp: Seq<u8>) -> Seq<u8> {
    spec_digest(alg, seq![TAG_MERKLE_LEAF] + fp)
}

/// The hash of an inner node.
pub open spec fn spec_node(alg: HashAlgorithm, left: Seq<u8>, right: Seq<u8>) -> Seq<u8> {
    spec_digest(alg, seq![TAG_MERKLE_NODE] + left + right)
}

/// A layer of odd length gets its last hash repeated.
pub open spec fn pad_layer(layer: Seq<Seq<u8>>) -> Seq<Seq<u8>> {
    if layer.len() % 2 == 1 {
        layer.push(layer.last())
    } else {
        layer
    }
}

/// The layer above: each pair of the padded layer hashed into one node.
pub open spec fn next_layer(alg: HashAlgorithm, layer: Seq<Seq<u8>>) -> Seq<Seq<u8>> {
    let p = pad_layer(layer);
    Seq::new(p.len() / 2, |i: int| spec_node(alg, p[2 * i], p[2 * i + 1]))
}

/// The root of the tree built over a non-empty layer.
pub open spec fn tree_root(alg: HashAlgorithm, layer: Seq<Seq<u8>>) -> Seq<u8>
    decreases layer.len(),
{
    if layer.len() <= 1 {
        layer[0]
    } else {
        tree_root(alg, next_layer(alg, layer))
    }
}

/// Thirty-two zero bytes.
pub open spec fn zero_hash() -> Seq<u8> {
    Seq::new(32, |i: int| 0u8)
}

/// The root of an empty set of leaves.
pub open spec fn spec_empty_root(alg: HashAlgorithm) -> Seq<u8> {
    spec_digest(alg, seq![TAG_MERKLE_LEAF] + zero_hash())
}

/// The Merkle root of a set of leaves: the tree over the leaves in sorted order.
pub open spec fn spec_merkle_root(alg: HashAlgorithm, leaves: Seq<Seq<u8>>) -> Seq<u8> {
    if leaves.len() == 0 {
        spec_empty_root(alg)
    } else {
        tree_root(alg, leaves.sort_by(seq_leq()))
    }
}

/// The sibling hashes from the leaf at `index` up to the root.
pub open spec fn spec_path(alg: HashAlgorithm, layer: Seq<Seq<u8>>, index: int) -> Seq<Seq<u8>>
    decreases layer.len(),
{
    if layer.len() <= 1 {
        seq![]
    } else {
        let p = pad_layer(layer);
        let sib = if index % 2 == 1 {
            index - 1
        } else {
            index + 1
        };
        seq![p[sib]] + spec_path(alg, next_layer(alg, layer), index / 2)
    }
}

/// The hash reached by folding a proof path into a leaf at `index`.
pub open spec fn spec_fold(
    alg: HashAlgorithm,
    current: Seq<u8>,
    proof: Seq<Seq<u8>>,
    index: int,
) -> Seq<u8>
    decreases proof.len(),
{
    if proof.len() == 0 {
        current
    } else {
        let next = if index % 2 == 0 {
            spec_node(alg, current, proof[0])
        } else {
            spec_node(alg, proof[0], current)
        };
        spec_fold(alg, next, proof.drop_first(), index / 2)
    }
}

/// `i` is the first position of `t` in `s`.
pub open spec fn is_first_index(s: Seq<Seq<u8>>, t: Seq<u8>, i: int) -> bool {
    0 <= i < s.len() && s[i] == t && forall|j: int| 0 <= j < i ==> s[j] != t
}

/// The first position of `t` in `s` (meaningful when `s` contains `t`).
pub open spec fn first_index(s: Seq<Seq<u8>>, t: Seq<u8>) -> int {
    choose|i: int| is_first_index(s, t, i)
}

proof fn lemma_first_index_unique(s: Seq<Seq<u8>>, t: Seq<u8>, i: int)
    requires
        is_first_index(s, t, i),
    ensures
        first_index(s, t) == i,
{
    let k = first_index(s, t);
    assert(is_first_index(s, t, k));
    if k < i {
        assert(s[k] != t);
    }
    if i < k {
        assert(s[i] != t);
    }
}

/// Bitwise exclusive or of two 32-byte strings.
pub open spec fn xor_bytes(a: Seq<u8>, b: Seq<u8>) -> Seq<u8> {
    Seq::new(32, |i: int| a[i] ^ b[i])
}

/// The exclusive or of all the hashes, starting from zero.
pub open spec fn xor_fold(s: Seq<Seq<u8>>) -> Seq<u8>
    decreases s.len(),
{
    if s.len() == 0 {
        zero_hash()
    } else {
        xor_bytes(xor_fold(s.drop_last()), s.last())
    }
}

/// The commutative root of a set of fingerprints.
pub open spec fn spec_commutative_root(alg: HashAlgorithm, fps: Seq<Seq<u8>>) -> Seq<u8> {
    spec_digest(alg, seq![TAG_COMMUTATIVE] + xor_fold(fps.sort_by(seq_leq())))
}

/// The leaf hash of a fingerprint.
pub fn merkle_leaf<H: Hasher>(hasher: &H, fp: &Hash32) -> (r: Hash32)
    ensures
        r@ == spec_leaf(hasher.spec_algorithm(), fp@),
{
    let mut input: Vec<u8> = Vec::new();
    input.push(TAG_MERKLE_LEAF);
    push_slice(&mut input, fp.as_slice());
    assert(input@ =~= seq![TAG_MERKLE_LEAF] + fp@);
    hasher.hash(input.as_slice())
}

fn merkle_node<H: Hasher>(hasher: &H, left: &Hash32, right: &Hash32) -> (r: Hash32)
    ensures
        r@ == spec_node(hasher.spec_algorithm(), left@, right@),
{
    let mut input: Vec<u8> = Vec::new();
    input.push(TAG_MERKLE_NODE);
    push_slice(&mut input, left.as_slice());
    push_slice(&mut input, right.as_slice());
    assert(input@ =~= seq![TAG_MERKLE_NODE] + left@ + right@);
    hasher.hash(input.as_slice())
}

fn build_next_layer<H: Hasher>(hasher: &H, layer: &Vec<Hash32>) -> (r: Vec<Hash32>)
    requires
        layer@.len() >= 1,
    ensures
        hash_views(r@) == next_layer(hasher.spec_algorithm(), hash_views(layer@)),
        r@.len() == (layer@.len() + 1) / 2,
{
    let ghost alg = hasher.spec_algorithm();
    let ghost lv = hash_views(layer@);
    let ghost p = pad_layer(lv);
    let n = layer.len();
    let half = n / 2 + n % 2;
    let mut next: Vec<Hash32> = Vec::new();
    let mut k: usize = 0;
    while k < half
        invariant
            0 <= k <= half,
            half == n / 2 + n % 2,
            n == layer@.len(),
            n >= 1,
            alg == hasher.spec_algorithm(),
            lv == hash_views(layer@),
            p == pad_layer(lv),
            next@.len() == k,
            forall|j: int| 0 <= j < k ==> #[trigger] next@[j]@ == spec_node(alg, p[2 * j], p[2 * j + 1]),
        decreases half - k,
    {
        let i = 2 * k;
        let left = layer[i];
        let right = if i + 1 < n {
            layer[i + 1]
        } else {
            left
        };
        assert(p[i as int] == left@);
        assert(p[i + 1] == right@);
        let node = merkle_node(hasher, &left, &right);
        next.push(node);
        k = k + 1;
    }
    assert(hash_views(next@) =~= next_layer(alg, lv));
    next
}

/// The Merkle root of the leaves, taken in sorted order.
pub fn merkle_root<H: Hasher>(hasher: &H, leaves: Vec<Hash32>) -> (r: Hash32)
    ensures
        r@ == spec_merkle_root(hasher.spec_algorithm(), hash_views(leaves@)),
{
    let ghost alg = hasher.spec_algorithm();
    if leaves.len() == 0 {
        let mut input: Vec<u8> = Vec::new();
        input.push(TAG_MERKLE_LEAF);
        let mut i: usize = 0;
        while i < 32
            invariant
                0 <= i <= 32,
                input@ =~= seq![TAG_MERKLE_LEAF] + Seq::new(i as nat, |j: int| 0u8),
            decreases 32 - i,
        {
            input.push(0u8);
            i = i + 1;
        }
        return hasher.hash(input.as_slice());
    }
    let sorted = sort_hashes(&leaves);
    let mut layer = sorted;
    while layer.len() > 1
        invariant
            layer@.len() >= 1,
            alg == hasher.spec_algorithm(),
            tree_root(alg, hash_views(layer@)) == spec_merkle_root(alg, hash_views(leaves@)),
            leaves@.len() > 0,
        decreases layer@.len(),
    {
        layer = build_next_layer(hasher, &layer);
    }
    layer[0]
}

/// Inclusion proof: the sibling hashes from the target's leaf up to the root of
/// the tree over `sorted_leaves`.
pub fn merkle_proof<H: Hasher>(hasher: &H, sorted_leaves: &[Hash32], target: &Hash32) -> (r:
    CoreResult<Vec<Hash32>>)
    ensures
        hash_views(sorted_leaves@).contains(target@) ==> (r matches Ok(p) && hash_views(p@)
            == spec_path(
            hasher.spec_algorithm(),
            hash_views(sorted_leaves@),
            first_index(hash_views(sorted_leaves@), target@),
        )),
        !hash_views(sorted_leaves@).contains(target@) ==> (r matches Err(
            CoreError::MerkleLeafNotFound,
        )),
{
    let ghost alg = hasher.spec_algorithm();
    let mut idx: usize = 0;
    while idx < sorted_leaves.len() && !hash_eq(&sorted_leaves[idx], target)
        invariant
            0 <= idx <= sorted_leaves@.len(),
            forall|j: int| 0 <= j < idx ==> sorted_leaves@[j] != *target,
        decreases sorted_leaves@.len() - idx,
    {
        idx = idx + 1;
    }
    if idx == sorted_leaves.len() {
        proof {
            assert forall|j: int| 0 <= j < sorted_leaves@.len() implies hash_views(sorted_leaves@)[j]
                != target@ by {
                if sorted_leaves@[j]@ == target@ {
                    assert(sorted_leaves@[j] =~= *target);
                }
            }
        }
        return Err(CoreError::MerkleLeafNotFound);
    }
    proof {
        assert forall|j: int| 0 <= j < idx implies hash_views(sorted_leaves@)[j] != target@ by {
            if sorted_leaves@[j]@ == target@ {
                assert(sorted_leaves@[j] =~= *target);
            }
        }
        lemma_first_index_unique(hash_views(sorted_leaves@), target@, idx as int);
        assert(hash_views(sorted_leaves@)[idx as int] == target@);
    }
    let mut layer: Vec<Hash32> = Vec::new();
    let mut i: usize = 0;
    while i < sorted_leaves.len()
        invariant
            0 <= i <= sorted_leaves@.len(),
            layer@ == sorted_leaves@.subrange(0, i as int),
        decreases sorted_leaves@.len() - i,
    {
        layer.push(sorted_leaves[i]);
        assert(sorted_leaves@.subrange(0, i + 1) =~= sorted_leaves@.subrange(0, i as int).push(
            sorted_leaves@[i as int],
        ));
        i = i + 1;
    }
    assert(layer@ =~= sorted_leaves@);
    let ghost whole = spec_path(alg, hash_views(sorted_leaves@), idx as int);
    let mut index = idx;
    let mut proof: Vec<Hash32> = Vec::new();
    while layer.len() > 1
        invariant
            0 <= index < layer@.len(),
            alg == hasher.spec_algorithm(),
            hash_views(proof@) + spec_path(alg, hash_views(layer@), index as int) == whole,
        decreases layer@.len(),
    {
        let n = layer.len();
        let sib = if index % 2 == 1 {
            index - 1
        } else {
            index + 1
        };
        let sibling = if sib < n {
            layer[sib]
        } else {
            layer[n - 1]
        };
        let ghost lv = hash_views(layer@);
        assert(pad_layer(lv)[sib as int] == sibling@);
        let ghost old_proof = proof@;
        proof.push(sibling);
        assert(hash_views(proof@) =~= hash_views(old_proof) + seq![sibling@]);
        let next = build_next_layer(hasher, &layer);
        assert(spec_path(alg, lv, index as int) == seq![sibling@] + spec_path(
            alg,
            next_layer(alg, lv),
            index as int / 2,
        ));
        assert(hash_views(proof@) + spec_path(alg, hash_views(next@), index as int / 2) =~= hash_views(old_proof) + spec_path(alg, lv, index as int));
        layer = next;
        index = index / 2;
    }
    assert(hash_views(proof@) =~= whole);
    Ok(proof)
}

/// Order-independent aggregate over fingerprint hashes.
pub fn commutative_root<H: Hasher>(hasher: &H, fps: Vec<Hash32>) -> (r: Hash32)
    ensures
        r@ == spec_commutative_root(hasher.spec_algorithm(), hash_views(fps@)),
{
    let sorted = sort_hashes(&fps);
    let mut acc: Vec<u8> = Vec::new();
    let mut i: usize = 0;
    while i < 32
        invariant
            0 <= i <= 32,
            acc@ =~= Seq::new(i as nat, |j: int| 0u8),
        decreases 32 - i,
    {
        acc.push(0u8);
        i = i + 1;
    }
    assert(acc@ =~= xor_fold(hash_views(sorted@.take(0))));
    let mut k: usize = 0;
    while k < sorted.len()
        invariant
            0 <= k <= sorted@.len(),
            acc@ == xor_fold(hash_views(sorted@.take(k as int))),
            acc@.len() == 32,
        decreases sorted@.len() - k,
    {
        let fp = sorted[k];
        let mut next: Vec<u8> = Vec::new();
        let mut j: usize = 0;
        while j < 32
            invariant
                0 <= j <= 32,
                acc@.len() == 32,
                next@.len() == j,
                forall|t: int| 0 <= t < j ==> #[trigger] next@[t] == acc@[t] ^ fp@[t],
            decreases 32 - j,
        {
            next.push(acc[j] ^ fp[j]);
            j = j + 1;
        }
        assert(hash_views(sorted@.take(k + 1)).drop_last() =~= hash_views(sorted@.take(k as int)));
        assert(next@ =~= xor_bytes(acc@, fp@));
        acc = next;
        k = k + 1;
    }
    assert(sorted@.take(sorted@.len() as int) =~= sorted@);
    let mut input: Vec<u8> = Vec::new();
    input.push(TAG_COMMUTATIVE);
    push_slice(&mut input, acc.as_slice());
    assert(input@ =~= seq![TAG_COMMUTATIVE] + acc@);
    hasher.hash(input.as_slice())
}

/// Checks an inclusion proof for the leaf at a known sorted index.
pub fn verify_merkle_proof_with_index<H: Hasher>(
    hasher: &H,
    root: &Hash32,
    leaf: &Hash32,
    proof: &[Hash32],
    index: usize,
) -> (r: bool)
    ensures
        r == (spec_fold(hasher.spec_algorithm(), leaf@, hash_views(proof@), index as int) == root@),
{
    broadcast use vstd::array::group_array_axioms;

    let ghost alg = hasher.spec_algorithm();
    let mut current = *leaf;
    let mut idx = index;
    let mut i: usize = 0;
    assert(hash_views(proof@).skip(0) =~= hash_views(proof@));
    while i < proof.len()
        invariant
            0 <= i <= proof@.len(),
            alg == hasher.spec_algorithm(),
            spec_fold(alg, leaf@, hash_views(proof@), index as int) == spec_fold(
                alg,
                current@,
                hash_views(proof@).skip(i as int),
                idx as int,
            ),
        decreases proof@.len() - i,
    {
        let sibling = proof[i];
        assert(hash_views(proof@).skip(i as int)[0] == sibling@);
        assert(hash_views(proof@).skip(i as int).drop_first() =~= hash_views(proof@).skip(i + 1));
        if idx % 2 == 0 {
            current = merkle_node(hasher, &current, &sibling);
        } else {
            current = merkle_node(hasher, &sibling, &current);
        }
        idx = idx / 2;
        i = i + 1;
    }
    assert(hash_views(proof@).skip(proof@.len() as int) =~= Seq::<Seq<u8>>::empty());
    let eq = hash_eq(&current, root);
    assert(eq == (current@ == root@)) by {
        if current@ == root@ {
            assert(current =~= *root);
        }
    }
    eq
}

/// Checks an inclusion proof when the sorted leaf index is unknown: true when
/// some index below `leaf_count` makes the proof fold to the root.
pub fn verify_merkle_proof<H: Hasher>(
    hasher: &H,
    root: &Hash32,
    leaf: &Hash32,
    proof: &[Hash32],
    leaf_count: usize,
) -> (r: bool)
    ensures
        r == (exists|i: int|
            0 <= i < leaf_count && #[trigger] spec_fold(
                hasher.spec_algorithm(),
                leaf@,
                hash_views(proof@),
                i,
            ) == root@),
{
    let mut idx: usize = 0;
    while idx < leaf_count
        invariant
            0 <= idx <= leaf_count,
            forall|i: int|
                0 <= i < idx ==> #[trigger] spec_fold(
                    hasher.spec_algorithm(),
                    leaf@,
                    hash_views(proof@),
                    i,
                ) != root@,
        decreases leaf_count - idx,
    {
        if verify_merkle_proof_with_index(hasher, root, leaf, proof, idx) {
            return true;
        }
        idx = idx + 1;
    }
    false
}

proof fn lemma_first_index_exists(s: Seq<Seq<u8>>, t: Seq<u8>)
    requires
        s.contains(t),
    ensures
        is_first_index(s, t, first_index(s, t)),
    decreases s.len(),
{
    if s[0] == t {
        assert(is_first_index(s, t, 0));
    } else {
        let k = choose|k: int| 0 <= k < s.len() && s[k] == t;
        assert(s.drop_first()[k - 1] == t);
        lemma_first_index_exists(s.drop_first(), t);
        let j = first_index(s.drop_first(), t);
        assert forall|m: int| 0 <= m < j + 1 implies s[m] != t by {
            if m > 0 {
                assert(s[m] == s.drop_first()[m - 1]);
            }
        }
        assert(is_first_index(s, t, j + 1));
    }
}

proof fn lemma_tree_inclusion(alg: HashAlgorithm, layer: Seq<Seq<u8>>, i: int)
    requires
        0 <= i < layer.len(),
    ensures
        spec_fold(alg, layer[i], spec_path(alg, layer, i), i) == tree_root(alg, layer),
    decreases layer.len(),
{
    if layer.len() > 1 {
        let p = pad_layer(layer);
        let n = next_layer(alg, layer);
        let sib = if i % 2 == 1 {
            i - 1
        } else {
            i + 1
        };
        let path = spec_path(alg, layer, i);
        assert(path[0] == p[sib]);
        assert(path.drop_first() =~= spec_path(alg, n, i / 2));
        assert(p[i] == layer[i]);
        assert(i / 2 < n.len());
        if i % 2 == 0 {
            assert(2 * (i / 2) == i);
            assert(spec_node(alg, layer[i], p[sib]) == n[i / 2]);
        } else {
            assert(2 * (i / 2) == i - 1);
            assert(spec_node(alg, p[sib], layer[i]) == n[i / 2]);
        }
        lemma_tree_inclusion(alg, n, i / 2);
    }
}

proof fn lemma_sort_sorted(s: Seq<Seq<u8>>)
    requires
        sorted_by(s, seq_leq()),
    ensures
        s.sort_by(seq_leq()) == s,
{
    lemma_seq_leq_total();
    s.lemma_sort_by_ensures(seq_leq());
    vstd::seq_lib::lemma_sorted_unique(s.sort_by(seq_leq()), s, seq_leq());
}

proof fn lemma_same_sort(a: Seq<Seq<u8>>, b: Seq<Seq<u8>>)
    requires
        a.to_multiset() == b.to_multiset(),
    ensures
        a.sort_by(seq_leq()) == b.sort_by(seq_leq()),
        a.len() == b.len(),
{
    lemma_seq_leq_total();
    a.lemma_sort_by_ensures(seq_leq());
    b.lemma_sort_by_ensures(seq_leq());
    vstd::seq_lib::lemma_sorted_unique(a.sort_by(seq_leq()), b.sort_by(seq_leq()), seq_leq());
    vstd::seq_lib::to_multiset_len(a);
    vstd::seq_lib::to_multiset_len(b);
}

/// Inclusion: over sorted leaves that hold the target, the proof path that
/// `merkle_proof` returns, folded into the target at its first sorted index,
/// gives the Merkle root of those leaves; so both verifiers accept it.
pub proof fn law_inclusion_proof_verifies(
    alg: HashAlgorithm,
    sorted_leaves: Seq<Seq<u8>>,
    target: Seq<u8>,
)
    requires
        sorted_by(sorted_leaves, seq_leq()),
        sorted_leaves.contains(target),
    ensures
        0 <= first_index(sorted_leaves, target) < sorted_leaves.len(),
        spec_fold(
            alg,
            target,
            spec_path(alg, sorted_leaves, first_index(sorted_leaves, target)),
            first_index(sorted_leaves, target),
        ) == spec_merkle_root(alg, sorted_leaves),
{
    lemma_first_index_exists(sorted_leaves, target);
    lemma_sort_sorted(sorted_leaves);
    let i = first_index(sorted_leaves, target);
    lemma_tree_inclusion(alg, sorted_leaves, i);
}

/// The Merkle root depends only on the multiset of leaves, not on their order.
pub proof fn law_merkle_root_order_independent(
    alg: HashAlgorithm,
    a: Seq<Seq<u8>>,
    b: Seq<Seq<u8>>,
)
    requires
        a.to_multiset() == b.to_multiset(),
    ensures
        spec_merkle_root(alg, a) == spec_merkle_root(alg, b),
{
    lemma_same_sort(a, b);
}

/// The commutative root depends only on the multiset of fingerprints.
pub proof fn law_commutative_root_order_independent(
    alg: HashAlgorithm,
    a: Seq<Seq<u8>>,
    b: Seq<Seq<u8>>,
)
    requires
        a.to_multiset() == b.to_multiset(),
    ensures
        spec_commutative_root(alg, a) == spec_commutative_root(alg, b),
{
    lemma_same_sort(a, b);
}

/// `⌈log2 n⌉`: the number of halvings (rounding up) that bring `n` to one.
pub open spec fn ceil_log2(n: nat) -> nat
    decreases n,
{
    if n <= 1 {
        0
    } else {
        1 + ceil_log2(((n + 1) / 2) as nat)
    }
}

proof fn lemma_ceil_log2_bounds(n: nat)
    requires
        n >= 1,
    ensures
        n <= vstd::arithmetic::power2::pow2(ceil_log2(n)),
        ceil_log2(n) > 0 ==> vstd::arithmetic::power2::pow2((ceil_log2(n) - 1) as nat) < n,
    decreases n,
{
    vstd::arithmetic::power2::lemma2_to64();
    if n > 1 {
        let m = ((n + 1) / 2) as nat;
        let k = ceil_log2(m);
        lemma_ceil_log2_bounds(m);
        vstd::arithmetic::power2::lemma_pow2_unfold(k + 1);
        if k > 0 {
            vstd::arithmetic::power2::lemma_pow2_unfold(k);
        }
    }
}

proof fn lemma_path_len(alg: HashAlgorithm, layer: Seq<Seq<u8>>, index: int)
    requires
        layer.len() >= 1,
    ensures
        spec_path(alg, layer, index).len() == ceil_log2(layer.len()),
    decreases layer.len(),
{
    if layer.len() > 1 {
        let next = next_layer(alg, layer);
        assert(next.len() == (layer.len() + 1) / 2);
        lemma_path_len(alg, next, index / 2);
    }
}

/// The inclusion path over `n >= 1` leaves has `⌈log2 n⌉` siblings, whatever
/// the leaf: `n <= 2^len`, and `2^(len - 1) < n` when the path is not empty.
pub proof fn law_inclusion_path_length(alg: HashAlgorithm, sorted_leaves: Seq<Seq<u8>>, index: int)
    requires
        sorted_leaves.len() >= 1,
    ensures
        spec_path(alg, sorted_leaves, index).len() == ceil_log2(sorted_leaves.len()),
        sorted_leaves.len() <= vstd::arithmetic::power2::pow2(
            spec_path(alg, sorted_leaves, index).len(),
        ),
        spec_path(alg, sorted_leaves, index).len() > 0 ==> vstd::arithmetic::power2::pow2(
            (spec_path(alg, sorted_leaves, index).len() - 1) as nat,
        ) < sorted_leaves.len(),
{
    lemma_path_len(alg, sorted_leaves, index);
    lemma_ceil_log2_bounds(sorted_leaves.len());
}

/// The node hash gives 32 bytes, and on 32-byte children it is injective:
/// two nodes over 32-byte children are equal only over equal children.
pub open spec fn node_injective(alg: HashAlgorithm) -> bool {
    &&& forall|l: Seq<u8>, r: Seq<u8>| (#[trigger] spec_node(alg, l, r)).len() == 32
    &&& forall|l1: Seq<u8>, r1: Seq<u8>, l2: Seq<u8>, r2: Seq<u8>|
        l1.len() == 32 && r1.len() == 32 && l2.len() == 32 && r2.len() == 32 && #[trigger] spec_node(
            alg,
            l1,
            r1,
        ) == #[trigger] spec_node(alg, l2, r2) ==> l1 == l2 && r1 == r2
}

/// Every hash of a path is 32 bytes.
pub open spec fn hashes_32(p: Seq<Seq<u8>>) -> bool {
    forall|j: int| 0 <= j < p.len() ==> (#[trigger] p[j]).len() == 32
}

proof fn lemma_fold_injective(alg: HashAlgorithm, c1: Seq<u8>, c2: Seq<u8>, p: Seq<Seq<u8>>, i: int)
    requires
        node_injective(alg),
        c1.len() == 32,
        c2.len() == 32,
        hashes_32(p),
        spec_fold(alg, c1, p, i) == spec_fold(alg, c2, p, i),
    ensures
        c1 == c2,
    decreases p.len(),
{
    if p.len() > 0 {
        let n1 = if i % 2 == 0 {
            spec_node(alg, c1, p[0])
        } else {
            spec_node(alg, p[0], c1)
        };
        let n2 = if i % 2 == 0 {
            spec_node(alg, c2, p[0])
        } else {
            spec_node(alg, p[0], c2)
        };
        assert(p[0].len() == 32);
        assert(hashes_32(p.drop_first())) by {
            assert forall|j: int| 0 <= j < p.drop_first().len() implies (#[trigger] p.drop_first()[j]).len() == 32 by {
                assert(p[j + 1].len() == 32);
            }
        }
        lemma_fold_injective(alg, n1, n2, p.drop_first(), i / 2);
    }
}

/// A tampered path fails: when the node hash gives 32 bytes and is injective
/// on 32-byte children, a path of 32-byte hashes from a 32-byte leaf folds to
/// a different hash once one sibling is replaced by another 32-byte hash; so
/// a path that verified against a root no longer does.
pub proof fn law_tampered_path_fails(
    alg: HashAlgorithm,
    leaf: Seq<u8>,
    p: Seq<Seq<u8>>,
    p2: Seq<Seq<u8>>,
    index: int,
    k: int,
)
    requires
        node_injective(alg),
        leaf.len() == 32,
        hashes_32(p),
        hashes_32(p2),
        p2.len() == p.len(),
        0 <= k < p.len(),
        p2[k] != p[k],
        forall|j: int| 0 <= j < p.len() && j != k ==> p2[j] == p[j],
    ensures
        spec_fold(alg, leaf, p2, index) != spec_fold(alg, leaf, p, index),
    decreases k,
{
    let n1 = if index % 2 == 0 {
        spec_node(alg, leaf, p[0])
    } else {
        spec_node(alg, p[0], leaf)
    };
    let n2 = if index % 2 == 0 {
        spec_node(alg, leaf, p2[0])
    } else {
        spec_node(alg, p2[0], leaf)
    };
    assert(p[0].len() == 32 && p2[0].len() == 32);
    assert(hashes_32(p.drop_first())) by {
        assert forall|j: int| 0 <= j < p.drop_first().len() implies (#[trigger] p.drop_first()[j]).len() == 32 by {
            assert(p[j + 1].len() == 32);
        }
    }
    assert(hashes_32(p2.drop_first())) by {
        assert forall|j: int| 0 <= j < p2.drop_first().len() implies (#[trigger] p2.drop_first()[j]).len() == 32 by {
            assert(p2[j + 1].len() == 32);
        }
    }
    if k == 0 {
        assert(p2.drop_first() =~= p.drop_first());
        if spec_fold(alg, leaf, p2, index) == spec_fold(alg, leaf, p, index) {
            lemma_fold_injective(alg, n2, n1, p.drop_first(), index / 2);
        }
    } else {
        assert(p2[0] == p[0]);
        assert(n1 == n2);
        assert forall|j: int| 0 <= j < p.drop_first().len() && j != k - 1 implies p2.drop_first()[j]
            == p.drop_first()[j] by {
            assert(p2[j + 1] == p[j + 1]);
        }
        law_tampered_path_fails(alg, n1, p.drop_first(), p2.drop_first(), index / 2, k - 1);
    }
}

} // verus!
