//! Reconciliation of source and sink fingerprints: matching per identity,
//! drops, duplicates, mutations and the verdict.

use vstd::prelude::*;
use vstd::relations::sorted_by;

use crate::canon::{
    agree_on, canon_content, canon_fields_kind, canon_identity, kind_of,
    law_content_depends_only_on_content_fields, spec_canon_content, spec_canon_identity, Outcome,
    OutcomeKind,
};
use crate::error::{CoreError, CoreResult, ErrorView};
use crate::hash::{
    fingerprint_hashes, hasher_for, spec_fingerprint_hashes, spec_parse_algorithm, HashAlgorithm,
    Hasher,
};
use crate::identity::{identity_field_names, identity_fields, parse_identity_rule};
use crate::merkle::{
    first_index, law_inclusion_proof_verifies, merkle_leaf, merkle_proof, merkle_root, spec_fold,
    spec_leaf, spec_merkle_root, spec_path,
};
use crate::model::{
    Commitment, DuplicatePolicy, DuplicatedRecord, Fingerprint, MissingRecord, MutatedRecord,
    Policy, Position, PositionKind, ReconResult, Tolerances, Verdict,
};
use crate::record::{CanonValue, Record};
use crate::text::string_views;
use crate::order::{
    lex_le, hash_eq, hash_views, lemma_seq_leq_total, seq_leq, sort_hashes, sort_strings, Hash32,
};

verus! {

/// The fingerprints whose identity hash is `h`, in input order.
pub open spec fn group(fps: Seq<Fingerprint>, h: Seq<u8>) -> Seq<Fingerprint>
    decreases fps.len(),
{
    if fps.len() == 0 {
        seq![]
    } else {
        let g = group(fps.drop_last(), h);
        if fps.last().id_hash@ == h {
            g.push(fps.last())
        } else {
            g
        }
    }
}

/// The fingerprints at the given positions.
pub open spec fn at_indices(fps: Seq<Fingerprint>, idx: Seq<usize>) -> Seq<Fingerprint> {
    idx.map_values(|j: usize| fps[j as int])
}

/// The first position in `k` whose content hash is `c`.
pub open spec fn find_content(k: Seq<Fingerprint>, c: Hash32) -> Option<int>
    decreases k.len(),
{
    if k.len() == 0 {
        None
    } else if k[0].content_hash == c {
        Some(0)
    } else {
        match find_content(k.drop_first(), c) {
            Some(j) => Some(j + 1),
            None => None,
        }
    }
}

/// The result of matching one identity's source and sink fingerprints.
pub struct Matching {
    /// Fingerprints of the matched source records, in order.
    pub matched: Seq<Hash32>,
    /// Source records left without a sink record of equal content.
    pub s_rest: Seq<Fingerprint>,
    /// Sink records left over.
    pub k_rest: Seq<Fingerprint>,
}

/// Greedy matching: each source record, in order, takes the first remaining
/// sink record of equal content.
pub open spec fn greedy(s: Seq<Fingerprint>, k: Seq<Fingerprint>) -> Matching
    decreases s.len(),
{
    if s.len() == 0 {
        Matching { matched: seq![], s_rest: seq![], k_rest: k }
    } else {
        match find_content(k, s[0].content_hash) {
            Some(j) => {
                let g = greedy(s.drop_first(), k.remove(j));
                Matching { matched: seq![s[0].fp] + g.matched, s_rest: g.s_rest, k_rest: g.k_rest }
            },
            None => {
                let g = greedy(s.drop_first(), k);
                Matching { matched: g.matched, s_rest: seq![s[0]] + g.s_rest, k_rest: g.k_rest }
            },
        }
    }
}

/// Greedy matching accounts for every record of both sides once.
pub proof fn lemma_greedy_counts(s: Seq<Fingerprint>, k: Seq<Fingerprint>)
    ensures
        greedy(s, k).matched.len() + greedy(s, k).s_rest.len() == s.len(),
        greedy(s, k).matched.len() + greedy(s, k).k_rest.len() == k.len(),
    decreases s.len(),
{
    if s.len() > 0 {
        match find_content(k, s[0].content_hash) {
            Some(j) => {
                lemma_find_content_range(k, s[0].content_hash);
                lemma_greedy_counts(s.drop_first(), k.remove(j));
            },
            None => {
                lemma_greedy_counts(s.drop_first(), k);
            },
        }
    }
}

proof fn lemma_find_content_range(k: Seq<Fingerprint>, c: Hash32)
    ensures
        find_content(k, c) matches Some(j) ==> 0 <= j < k.len() && k[j].content_hash == c,
    decreases k.len(),
{
    if k.len() > 0 {
        lemma_find_content_range(k.drop_first(), c);
    }
}

proof fn lemma_find_content(k: Seq<Fingerprint>, c: Hash32, j: int)
    requires
        0 <= j <= k.len(),
        forall|t: int| 0 <= t < j ==> k[t].content_hash != c,
        j < k.len() ==> k[j].content_hash == c,
    ensures
        find_content(k, c) == (if j < k.len() {
            Some(j)
        } else {
            None::<int>
        }),
    decreases k.len(),
{
    if k.len() > 0 && j > 0 {
        lemma_find_content(k.drop_first(), c, j - 1);
    }
}

/// The positions of the fingerprints whose identity hash is `h`.
fn group_indices(fps: &[Fingerprint], h: &Hash32) -> (r: Vec<usize>)
    ensures
        at_indices(fps@, r@) == group(fps@, h@),
        forall|j: int| 0 <= j < r@.len() ==> r@[j] < fps@.len(),
{
    broadcast use vstd::array::group_array_axioms;

    let mut out: Vec<usize> = Vec::new();
    let mut i: usize = 0;
    while i < fps.len()
        invariant
            0 <= i <= fps@.len(),
            at_indices(fps@, out@) == group(fps@.take(i as int), h@),
            forall|j: int| 0 <= j < out@.len() ==> out@[j] < fps@.len(),
        decreases fps@.len() - i,
    {
        let ghost pre = fps@.take(i as int);
        assert(fps@.take(i + 1).drop_last() =~= pre);
        let same = hash_eq(&fps[i].id_hash, h);
        assert(same == (fps@[i as int].id_hash@ == h@)) by {
            if fps@[i as int].id_hash@ == h@ {
                assert(fps@[i as int].id_hash =~= *h);
            }
        }
        if same {
            out.push(i);
            assert(at_indices(fps@, out@) =~= group(pre, h@).push(fps@[i as int]));
        }
        i = i + 1;
    }
    assert(fps@.take(fps@.len() as int) =~= fps@);
    out
}

/// Greedy matching over the positions of one identity's source and sink records.
fn greedy_match(
    source: &[Fingerprint],
    sink: &[Fingerprint],
    s_init: Vec<usize>,
    k_init: Vec<usize>,
) -> (r: (Vec<Hash32>, Vec<usize>, Vec<usize>))
    requires
        forall|j: int| 0 <= j < s_init@.len() ==> s_init@[j] < source@.len(),
        forall|j: int| 0 <= j < k_init@.len() ==> k_init@[j] < sink@.len(),
    ensures
        ({
            let g = greedy(at_indices(source@, s_init@), at_indices(sink@, k_init@));
            &&& r.0@ == g.matched
            &&& at_indices(source@, r.1@) == g.s_rest
            &&& at_indices(sink@, r.2@) == g.k_rest
        }),
        forall|j: int| 0 <= j < r.1@.len() ==> r.1@[j] < source@.len(),
        forall|j: int| 0 <= j < r.2@.len() ==> r.2@[j] < sink@.len(),
{
    let ghost g0 = greedy(at_indices(source@, s_init@), at_indices(sink@, k_init@));
    let mut s_list = s_init;
    let mut k_list = k_init;
    let mut matched: Vec<Hash32> = Vec::new();
    let mut i: usize = 0;
    proof {
        let sv = at_indices(source@, s_list@);
        assert(sv.skip(0) =~= sv);
        assert(sv.take(0) + g0.s_rest =~= g0.s_rest);
        assert(matched@ + g0.matched =~= g0.matched);
    }
    while i < s_list.len()
        invariant
            0 <= i <= s_list@.len(),
            forall|j: int| 0 <= j < s_list@.len() ==> s_list@[j] < source@.len(),
            forall|j: int| 0 <= j < k_list@.len() ==> k_list@[j] < sink@.len(),
            ({
                let sv = at_indices(source@, s_list@);
                let g = greedy(sv.skip(i as int), at_indices(sink@, k_list@));
                &&& g0.matched == matched@ + g.matched
                &&& g0.s_rest == sv.take(i as int) + g.s_rest
                &&& g0.k_rest == g.k_rest
            }),
        decreases s_list@.len() - i,
    {
        let ghost sv = at_indices(source@, s_list@);
        let ghost kv = at_indices(sink@, k_list@);
        let ghost x = sv.skip(i as int);
        let sj = s_list[i];
        let c = source[sj].content_hash;
        assert(x[0] == source@[sj as int]);
        let mut j: usize = 0;
        while j < k_list.len() && !hash_eq(&sink[k_list[j]].content_hash, &c)
            invariant
                0 <= j <= k_list@.len(),
                kv == at_indices(sink@, k_list@),
                forall|j: int| 0 <= j < k_list@.len() ==> k_list@[j] < sink@.len(),
                forall|t: int| 0 <= t < j ==> kv[t].content_hash != c,
            decreases k_list@.len() - j,
        {
            j = j + 1;
        }
        proof {
            lemma_find_content(kv, c, j as int);
        }
        if j < k_list.len() {
            let ghost g1 = greedy(x.drop_first(), kv.remove(j as int));
            assert(greedy(x, kv).matched == seq![source@[sj as int].fp] + g1.matched);
            matched.push(source[sj].fp);
            s_list.remove(i);
            k_list.remove(j);
            assert(at_indices(source@, s_list@).skip(i as int) =~= x.drop_first());
            assert(at_indices(source@, s_list@).take(i as int) =~= sv.take(i as int));
            assert(at_indices(sink@, k_list@) =~= kv.remove(j as int));
            assert(g0.matched =~= matched@ + g1.matched);
        } else {
            assert(sv.skip(i + 1) =~= x.drop_first());
            assert(sv.take(i + 1) =~= sv.take(i as int) + seq![x[0]]);
            i = i + 1;
        }
    }
    proof {
        let sv = at_indices(source@, s_list@);
        assert(sv.skip(i as int) =~= Seq::<Fingerprint>::empty());
        assert(sv.take(i as int) =~= sv);
        assert(matched@ =~= matched@ + Seq::<Hash32>::empty());
    }
    (matched, s_list, k_list)
}

/// The verdict that the evidence counts and the tolerances give.
pub open spec fn spec_verdict(
    missing_count: int,
    duplicated_count: int,
    mutated_count: int,
    unverified: bool,
    tolerances: Tolerances,
) -> Verdict {
    if unverified {
        Verdict::Unverified
    } else if missing_count > tolerances.max_drops {
        Verdict::Fail
    } else if mutated_count > tolerances.max_mutations {
        Verdict::Fail
    } else if duplicated_count > 0 && tolerances.duplicates == DuplicatePolicy::Forbid {
        Verdict::Fail
    } else {
        Verdict::Pass
    }
}

proof fn lemma_find_content_none(k: Seq<Fingerprint>, c: Hash32)
    ensures
        find_content(k, c) is None ==> forall|i: int| 0 <= i < k.len() ==> (#[trigger] k[i]).content_hash != c,
    decreases k.len(),
{
    if k.len() > 0 {
        lemma_find_content_none(k.drop_first(), c);
        if find_content(k, c) is None {
            assert forall|i: int| 0 <= i < k.len() implies (#[trigger] k[i]).content_hash != c by {
                if i > 0 {
                    assert(k[i] == k.drop_first()[i - 1]);
                }
            }
        }
    }
}

proof fn lemma_greedy_k_rest_subset(s: Seq<Fingerprint>, k: Seq<Fingerprint>)
    ensures
        forall|y: Fingerprint| #[trigger] greedy(s, k).k_rest.contains(y) ==> k.contains(y),
    decreases s.len(),
{
    if s.len() > 0 {
        let t = s.drop_first();
        match find_content(k, s[0].content_hash) {
            Some(j) => {
                lemma_find_content_range(k, s[0].content_hash);
                lemma_greedy_k_rest_subset(t, k.remove(j));
                assert(greedy(s, k).k_rest == greedy(t, k.remove(j)).k_rest);
                assert forall|y: Fingerprint| #[trigger] greedy(s, k).k_rest.contains(y) implies k.contains(y) by {
                    assert(greedy(t, k.remove(j)).k_rest.contains(y));
                    assert(k.remove(j).contains(y));
                    let i = choose|i: int| 0 <= i < k.remove(j).len() && k.remove(j)[i] == y;
                    if i < j {
                        assert(k[i] == y);
                    } else {
                        assert(k[i + 1] == y);
                    }
                }
            },
            None => {
                lemma_greedy_k_rest_subset(t, k);
                assert(greedy(s, k).k_rest == greedy(t, k).k_rest);
            },
        }
    } else {
        assert(greedy(s, k).k_rest == k);
    }
}

/// Greedy matching leaves no source record and sink record of equal
/// content both unmatched.
proof fn lemma_greedy_leftovers_differ(s: Seq<Fingerprint>, k: Seq<Fingerprint>)
    ensures
        forall|a: int, b: int|
            0 <= a < greedy(s, k).s_rest.len() && 0 <= b < greedy(s, k).k_rest.len() ==> (
            #[trigger] greedy(s, k).s_rest[a]).content_hash != (
            #[trigger] greedy(s, k).k_rest[b]).content_hash,
    decreases s.len(),
{
    if s.len() > 0 {
        let t = s.drop_first();
        match find_content(k, s[0].content_hash) {
            Some(j) => {
                lemma_greedy_leftovers_differ(t, k.remove(j));
            },
            None => {
                lemma_greedy_leftovers_differ(t, k);
                lemma_greedy_k_rest_subset(t, k);
                lemma_find_content_none(k, s[0].content_hash);
                let g = greedy(t, k);
                assert forall|a: int, b: int|
                    0 <= a < greedy(s, k).s_rest.len() && 0 <= b < greedy(s, k).k_rest.len()
                        implies (#[trigger] greedy(s, k).s_rest[a]).content_hash != (
                    #[trigger] greedy(s, k).k_rest[b]).content_hash by {
                    let y = g.k_rest[b];
                    assert(greedy(s, k).k_rest[b] == y);
                    if a == 0 {
                        assert(g.k_rest.contains(y));
                        assert(k.contains(y));
                        let i = choose|i: int| 0 <= i < k.len() && k[i] == y;
                        assert(k[i].content_hash != s[0].content_hash);
                    } else {
                        assert(greedy(s, k).s_rest[a] == g.s_rest[a - 1]);
                    }
                }
            },
        }
    }
}

proof fn lemma_recon_mutated_differ(src: Seq<Fingerprint>, snk: Seq<Fingerprint>, ids: Seq<Seq<u8>>)
    ensures
        forall|j: int|
            0 <= j < recon_over(src, snk, ids).mutated.len() ==> (#[trigger] recon_over(
                src,
                snk,
                ids,
            ).mutated[j]).1 != recon_over(src, snk, ids).mutated[j].2,
    decreases ids.len(),
{
    if ids.len() > 0 {
        let d = ids.drop_last();
        let h = ids.last();
        lemma_recon_mutated_differ(src, snk, d);
        let prev = recon_over(src, snk, d).mutated;
        let o = id_outcome(src, snk, h).mutated;
        let g = greedy(group(src, h), group(snk, h));
        lemma_greedy_leftovers_differ(group(src, h), group(snk, h));
        assert forall|j: int| 0 <= j < recon_over(src, snk, ids).mutated.len() implies (
        #[trigger] recon_over(src, snk, ids).mutated[j]).1 != recon_over(
            src,
            snk,
            ids,
        ).mutated[j].2 by {
            if j < prev.len() {
                assert(recon_over(src, snk, ids).mutated[j] == prev[j]);
            } else {
                assert(recon_over(src, snk, ids).mutated[j] == o[j - prev.len()]);
                assert(g.s_rest[0].content_hash != g.k_rest[0].content_hash);
            }
        }
    }
}

/// No mutation is reported between equal contents: every mutated identity
/// reports a source content hash different from its sink content hash.
/// Positions play no part in matching, so a source and a sink record of the
/// same identity and content are never left unmatched together.
pub proof fn law_mutations_have_different_contents(
    alg: HashAlgorithm,
    src: Seq<Fingerprint>,
    snk: Seq<Fingerprint>,
    tolerances: Tolerances,
    out: ReconcileOutput,
)
    requires
        reconcile_ok(alg, src, snk, tolerances, out),
    ensures
        forall|j: int|
            0 <= j < out.result.mutated@.len() ==> (#[trigger] out.result.mutated@[j]).source_content_hash
                != out.result.mutated@[j].sink_content_hash,
{
    lemma_recon_mutated_differ(src, snk, id_order(src, snk));
    let sm = spec_reconcile(src, snk).mutated;
    assert forall|j: int| 0 <= j < out.result.mutated@.len() implies (
    #[trigger] out.result.mutated@[j]).source_content_hash
        != out.result.mutated@[j].sink_content_hash by {
        assert(sm[j].1 != sm[j].2);
    }
}

/// What matching looks at in a fingerprint: its identity hash and content
/// hash (not its position).
pub open spec fn fp_key(f: Fingerprint) -> (Seq<u8>, Hash32) {
    (f.id_hash@, f.content_hash)
}

/// The keys of fingerprints, in order.
pub open spec fn fp_keys(fps: Seq<Fingerprint>) -> Seq<(Seq<u8>, Hash32)> {
    fps.map_values(|f: Fingerprint| fp_key(f))
}

/// The content hashes of fingerprints, in order.
pub open spec fn fp_contents(fps: Seq<Fingerprint>) -> Seq<Hash32> {
    fps.map_values(|f: Fingerprint| f.content_hash)
}

proof fn lemma_empty_seq_count<A>(x: A)
    ensures
        Seq::<A>::empty().to_multiset().count(x) == 0,
{
    broadcast use vstd::multiset::group_multiset_axioms;

    vstd::seq_lib::to_multiset_len(Seq::<A>::empty());
    vstd::multiset::lemma_multiset_empty_len(Seq::<A>::empty().to_multiset());
}

proof fn lemma_group_content_count(fps: Seq<Fingerprint>, h: Seq<u8>, c: Hash32)
    ensures
        fp_contents(group(fps, h)).to_multiset().count(c) == fp_keys(fps).to_multiset().count(
            (h, c),
        ),
    decreases fps.len(),
{
    broadcast use vstd::seq_lib::group_to_multiset_ensures, vstd::multiset::group_multiset_axioms;

    if fps.len() > 0 {
        let d = fps.drop_last();
        let f = fps.last();
        lemma_group_content_count(d, h, c);
        assert(fp_keys(fps) =~= fp_keys(d).push(fp_key(f)));
        if f.id_hash@ == h {
            assert(fp_contents(group(fps, h)) =~= fp_contents(group(d, h)).push(f.content_hash));
        } else {
            assert(group(fps, h) == group(d, h));
        }
    } else {
        assert(fp_contents(group(fps, h)) =~= Seq::<Hash32>::empty());
        assert(fp_keys(fps) =~= Seq::<(Seq<u8>, Hash32)>::empty());
        lemma_empty_seq_count(c);
        lemma_empty_seq_count((h, c));
    }
}

/// Greedy matching matches everything when both sides hold the same
/// contents, however they are ordered.
proof fn lemma_greedy_all_matched(s: Seq<Fingerprint>, k: Seq<Fingerprint>)
    requires
        fp_contents(s).to_multiset() == fp_contents(k).to_multiset(),
    ensures
        greedy(s, k).s_rest.len() == 0,
        greedy(s, k).k_rest.len() == 0,
    decreases s.len(),
{
    broadcast use vstd::seq_lib::group_to_multiset_ensures, vstd::multiset::group_multiset_axioms;

    if s.len() == 0 {
        vstd::seq_lib::to_multiset_len(fp_contents(s));
        vstd::seq_lib::to_multiset_len(fp_contents(k));
        assert(greedy(s, k).k_rest == k);
    } else {
        let c = s[0].content_hash;
        let t = s.drop_first();
        assert(fp_contents(s)[0] == c);
        assert(fp_contents(s).contains(c));
        vstd::seq_lib::to_multiset_contains(fp_contents(s), c);
        vstd::seq_lib::to_multiset_contains(fp_contents(k), c);
        assert(fp_contents(k).contains(c));
        let i = choose|i: int| 0 <= i < fp_contents(k).len() && fp_contents(k)[i] == c;
        assert(k[i].content_hash == c);
        lemma_find_content_none(k, c);
        lemma_find_content_range(k, c);
        let j = find_content(k, c)->0;
        assert(k[j].content_hash == c);
        vstd::seq_lib::to_multiset_remove(fp_contents(s), 0);
        assert(fp_contents(s).remove(0) =~= fp_contents(t));
        vstd::seq_lib::to_multiset_remove(fp_contents(k), j);
        assert(fp_contents(k).remove(j) =~= fp_contents(k.remove(j)));
        lemma_greedy_all_matched(t, k.remove(j));
        assert(greedy(s, k).s_rest == greedy(t, k.remove(j)).s_rest);
        assert(greedy(s, k).k_rest == greedy(t, k.remove(j)).k_rest);
    }
}

proof fn lemma_recon_same_keys(src: Seq<Fingerprint>, snk: Seq<Fingerprint>, ids: Seq<Seq<u8>>)
    requires
        fp_keys(src).to_multiset() == fp_keys(snk).to_multiset(),
    ensures
        recon_over(src, snk, ids).missing.len() == 0,
        recon_over(src, snk, ids).duplicated.len() == 0,
        recon_over(src, snk, ids).mutated.len() == 0,
    decreases ids.len(),
{
    broadcast use vstd::seq_lib::group_to_multiset_ensures;

    if ids.len() > 0 {
        let h = ids.last();
        lemma_recon_same_keys(src, snk, ids.drop_last());
        let cs = fp_contents(group(src, h));
        let ck = fp_contents(group(snk, h));
        assert(cs.to_multiset() =~= ck.to_multiset()) by {
            assert forall|c: Hash32| cs.to_multiset().count(c) == ck.to_multiset().count(c) by {
                lemma_group_content_count(src, h, c);
                lemma_group_content_count(snk, h, c);
            }
        }
        lemma_greedy_all_matched(group(src, h), group(snk, h));
        vstd::seq_lib::to_multiset_len(cs);
        vstd::seq_lib::to_multiset_len(ck);
    }
}

/// Reconciliation looks only at identity and content hashes: when the sink
/// holds the same identity and content pairs as the source, as many times
/// each, wherever they were read from (their positions may all differ), every
/// source record is matched, nothing is reported missing, duplicated or
/// mutated, and the verdict is a pass.
pub proof fn law_reconcile_ignores_positions(
    alg: HashAlgorithm,
    src: Seq<Fingerprint>,
    snk: Seq<Fingerprint>,
    tolerances: Tolerances,
    out: ReconcileOutput,
)
    requires
        reconcile_ok(alg, src, snk, tolerances, out),
        fp_keys(src).to_multiset() == fp_keys(snk).to_multiset(),
    ensures
        out.result.verdict == Verdict::Pass,
        out.result.matched.count == src.len(),
        out.result.missing@.len() == 0,
        out.result.duplicated@.len() == 0,
        out.result.mutated@.len() == 0,
{
    lemma_recon_same_keys(src, snk, id_order(src, snk));
    law_source_conservation(alg, src, snk, tolerances, out);
}

/// The verdict follows the tolerances: with a reason it is unverified; else
/// more missing records than `max_drops`, more mutated ones than
/// `max_mutations`, or any duplicate under a forbidding policy each make it a
/// fail, whatever the other counts and tolerances are; and it is a pass
/// exactly when none of these holds.
pub proof fn law_verdict_follows_tolerances(
    missing_count: int,
    duplicated_count: int,
    mutated_count: int,
    unverified: bool,
    t: Tolerances,
)
    ensures
        unverified ==> spec_verdict(missing_count, duplicated_count, mutated_count, unverified, t)
            == Verdict::Unverified,
        !unverified && missing_count > t.max_drops ==> spec_verdict(
            missing_count,
            duplicated_count,
            mutated_count,
            unverified,
            t,
        ) == Verdict::Fail,
        !unverified && mutated_count > t.max_mutations ==> spec_verdict(
            missing_count,
            duplicated_count,
            mutated_count,
            unverified,
            t,
        ) == Verdict::Fail,
        !unverified && duplicated_count > 0 && t.duplicates == DuplicatePolicy::Forbid
            ==> spec_verdict(missing_count, duplicated_count, mutated_count, unverified, t)
            == Verdict::Fail,
        !unverified ==> (spec_verdict(missing_count, duplicated_count, mutated_count, unverified, t)
            == Verdict::Pass <==> (missing_count <= t.max_drops && mutated_count
            <= t.max_mutations && !(duplicated_count > 0 && t.duplicates
            == DuplicatePolicy::Forbid))),
{
}

/// Decides the verdict. It is unverified whenever a reason is given; otherwise a
/// fail when there are more missing or mutated records than tolerated, or
/// duplicated ones that the policy forbids; otherwise a pass.
pub fn derive_verdict(
    missing_count: u64,
    duplicated_count: u64,
    mutated_count: u64,
    unverified_reason: Option<String>,
    tolerances: &Tolerances,
) -> (r: Verdict)
    ensures
        r == spec_verdict(
            missing_count as int,
            duplicated_count as int,
            mutated_count as int,
            unverified_reason is Some,
            *tolerances,
        ),
{
    if unverified_reason.is_some() {
        return Verdict::Unverified;
    }
    if missing_count > tolerances.max_drops {
        return Verdict::Fail;
    }
    if mutated_count > tolerances.max_mutations {
        return Verdict::Fail;
    }
    if duplicated_count > 0 && tolerances.duplicates == DuplicatePolicy::Forbid {
        return Verdict::Fail;
    }
    Verdict::Pass
}

/// The evidence of a reconciliation, in the order it is reported.
pub struct ReconSpec {
    /// Fingerprints of the matched source records.
    pub matched: Seq<Hash32>,
    /// Source records reported missing.
    pub missing: Seq<Fingerprint>,
    /// Identity, source multiplicity and sink multiplicity of each duplicated identity.
    pub duplicated: Seq<(Seq<u8>, nat, nat)>,
    /// Identity, source content hash and sink content hash of each mutated identity.
    pub mutated: Seq<(Seq<u8>, Hash32, Hash32)>,
}

/// The evidence for one identity: its greedy matching; when both a source
/// and a sink record are left over, the first of each makes a mutation and
/// the other source leftovers are missing, else all source leftovers are
/// missing; and a duplicate when the sink holds the identity more often.
pub open spec fn id_outcome(src: Seq<Fingerprint>, snk: Seq<Fingerprint>, h: Seq<u8>) -> ReconSpec {
    let s = group(src, h);
    let k = group(snk, h);
    let g = greedy(s, k);
    let mutation = g.s_rest.len() > 0 && g.k_rest.len() > 0;
    ReconSpec {
        matched: g.matched,
        missing: if mutation {
            g.s_rest.drop_first()
        } else {
            g.s_rest
        },
        duplicated: if k.len() > s.len() {
            seq![(h, s.len(), k.len())]
        } else {
            seq![]
        },
        mutated: if mutation {
            seq![(h, g.s_rest[0].content_hash, g.k_rest[0].content_hash)]
        } else {
            seq![]
        },
    }
}

/// The evidence over the given identities, in their order.
pub open spec fn recon_over(src: Seq<Fingerprint>, snk: Seq<Fingerprint>, ids: Seq<Seq<u8>>) -> ReconSpec
    decreases ids.len(),
{
    if ids.len() == 0 {
        ReconSpec { matched: seq![], missing: seq![], duplicated: seq![], mutated: seq![] }
    } else {
        let r = recon_over(src, snk, ids.drop_last());
        let o = id_outcome(src, snk, ids.last());
        ReconSpec {
            matched: r.matched + o.matched,
            missing: r.missing + o.missing,
            duplicated: r.duplicated + o.duplicated,
            mutated: r.mutated + o.mutated,
        }
    }
}

/// The identity hashes of the fingerprints.
pub open spec fn fp_ids(fps: Seq<Fingerprint>) -> Seq<Seq<u8>> {
    fps.map_values(|f: Fingerprint| f.id_hash@)
}

/// A sorted sequence without its repeated neighbours.
pub open spec fn dedup_sorted(s: Seq<Seq<u8>>) -> Seq<Seq<u8>>
    decreases s.len(),
{
    if s.len() <= 1 {
        s
    } else {
        let d = dedup_sorted(s.drop_last());
        if s.last() == s[s.len() - 2] {
            d
        } else {
            d.push(s.last())
        }
    }
}

/// Every identity of source or sink, once each, in sorted order.
pub open spec fn id_order(src: Seq<Fingerprint>, snk: Seq<Fingerprint>) -> Seq<Seq<u8>> {
    dedup_sorted((fp_ids(src) + fp_ids(snk)).sort_by(seq_leq()))
}

/// The evidence of reconciling `src` against `snk`.
pub open spec fn spec_reconcile(src: Seq<Fingerprint>, snk: Seq<Fingerprint>) -> ReconSpec {
    recon_over(src, snk, id_order(src, snk))
}

/// The Merkle leaves of the fingerprints, in their order.
pub open spec fn fp_leaves(alg: HashAlgorithm, fps: Seq<Fingerprint>) -> Seq<Seq<u8>> {
    fps.map_values(|f: Fingerprint| spec_leaf(alg, f.fp@))
}

/// The sorted Merkle leaves of the source fingerprints.
pub open spec fn source_leaves(alg: HashAlgorithm, src: Seq<Fingerprint>) -> Seq<Seq<u8>> {
    fp_leaves(alg, src).sort_by(seq_leq())
}

/// The Merkle leaves of fingerprint hashes.
pub open spec fn leaves_of(alg: HashAlgorithm, fps: Seq<Hash32>) -> Seq<Seq<u8>> {
    fps.map_values(|fp: Hash32| spec_leaf(alg, fp@))
}

/// A missing record reports a source fingerprint: its identity, position,
/// leaf and the inclusion proof of that leaf among the source leaves.
pub open spec fn missing_matches(
    alg: HashAlgorithm,
    leaves: Seq<Seq<u8>>,
    m: MissingRecord,
    f: Fingerprint,
) -> bool {
    &&& m.id_hash == f.id_hash
    &&& m.source_pos@ == f.pos@
    &&& m.merkle_leaf@ == spec_leaf(alg, f.fp@)
    &&& hash_views(m.inclusion_proof@) == spec_path(
        alg,
        leaves,
        first_index(leaves, spec_leaf(alg, f.fp@)),
    )
}

/// Missing records report the given fingerprints, one for one.
pub open spec fn missing_rel(
    alg: HashAlgorithm,
    leaves: Seq<Seq<u8>>,
    v: Seq<MissingRecord>,
    s: Seq<Fingerprint>,
) -> bool {
    v.len() == s.len() && forall|j: int| 0 <= j < v.len() ==> #[trigger] missing_matches(
        alg,
        leaves,
        v[j],
        s[j],
    )
}

/// Duplicate records report the given identities and multiplicities.
pub open spec fn duplicated_rel(v: Seq<DuplicatedRecord>, s: Seq<(Seq<u8>, nat, nat)>) -> bool {
    v.len() == s.len() && forall|j: int|
        0 <= j < v.len() ==> {
            &&& (#[trigger] v[j]).id_hash@ == s[j].0
            &&& v[j].source_multiplicity == s[j].1
            &&& v[j].sink_multiplicity == s[j].2
        }
}

/// Mutation records report the given identities and content hashes.
pub open spec fn mutated_rel(v: Seq<MutatedRecord>, s: Seq<(Seq<u8>, Hash32, Hash32)>) -> bool {
    v.len() == s.len() && forall|j: int|
        0 <= j < v.len() ==> {
            &&& (#[trigger] v[j]).id_hash@ == s[j].0
            &&& v[j].source_content_hash == s[j].1
            &&& v[j].sink_content_hash == s[j].2
        }
}

proof fn lemma_leaf_in_source_leaves(alg: HashAlgorithm, src: Seq<Fingerprint>, k: int)
    requires
        0 <= k < src.len(),
    ensures
        source_leaves(alg, src).contains(spec_leaf(alg, src[k].fp@)),
{
    broadcast use vstd::seq_lib::group_to_multiset_ensures;

    let u = fp_leaves(alg, src);
    let x = spec_leaf(alg, src[k].fp@);
    assert(u[k] == x);
    assert(u.contains(x));
    lemma_seq_leq_total();
    u.lemma_sort_by_ensures(seq_leq());
    assert(u.to_multiset().count(x) > 0);
    assert(u.sort_by(seq_leq()).to_multiset().count(x) > 0);
}

/// Identities of source and sink, sorted, each once.
fn collect_ids(source: &[Fingerprint], sink: &[Fingerprint]) -> (r: Vec<Hash32>)
    ensures
        hash_views(r@) == id_order(source@, sink@),
{
    let mut all: Vec<Hash32> = Vec::new();
    let mut i: usize = 0;
    while i < source.len()
        invariant
            0 <= i <= source@.len(),
            hash_views(all@) == fp_ids(source@.take(i as int)),
        decreases source@.len() - i,
    {
        let ghost old_all = all@;
        all.push(source[i].id_hash);
        proof {
            assert(source@.take(i + 1) =~= source@.take(i as int).push(source@[i as int]));
            assert(fp_ids(source@.take(i + 1)) =~= fp_ids(source@.take(i as int)).push(
                source@[i as int].id_hash@,
            ));
            assert(hash_views(all@) =~= hash_views(old_all).push(source@[i as int].id_hash@));
        }
        i = i + 1;
    }
    assert(source@.take(source@.len() as int) =~= source@);
    let mut i: usize = 0;
    while i < sink.len()
        invariant
            0 <= i <= sink@.len(),
            hash_views(all@) == fp_ids(source@) + fp_ids(sink@.take(i as int)),
        decreases sink@.len() - i,
    {
        let ghost old_all = all@;
        all.push(sink[i].id_hash);
        proof {
            assert(sink@.take(i + 1) =~= sink@.take(i as int).push(sink@[i as int]));
            assert(fp_ids(sink@.take(i + 1)) =~= fp_ids(sink@.take(i as int)).push(
                sink@[i as int].id_hash@,
            ));
            assert(hash_views(all@) =~= hash_views(old_all).push(sink@[i as int].id_hash@));
        }
        i = i + 1;
    }
    assert(sink@.take(sink@.len() as int) =~= sink@);
    let sorted = sort_hashes(&all);
    let ghost sv = hash_views(sorted@);
    let mut ids: Vec<Hash32> = Vec::new();
    let mut i: usize = 0;
    while i < sorted.len()
        invariant
            0 <= i <= sorted@.len(),
            sv == hash_views(sorted@),
            hash_views(ids@) == dedup_sorted(sv.take(i as int)),
            i > 0 ==> ids@.len() > 0 && ids@.last()@ == sv[i - 1],
        decreases sorted@.len() - i,
    {
        let ghost t = sv.take(i + 1);
        assert(t.drop_last() =~= sv.take(i as int));
        if i == 0 {
            ids.push(sorted[i]);
            assert(hash_views(ids@) =~= t);
        } else {
            let last = ids[ids.len() - 1];
            let same = hash_eq(&last, &sorted[i]);
            assert(same == (sv[i - 1] == sv[i as int])) by {
                if sv[i - 1] == sv[i as int] {
                    assert(last =~= sorted@[i as int]);
                }
            }
            if !same {
                ids.push(sorted[i]);
                assert(hash_views(ids@) =~= dedup_sorted(sv.take(i as int)).push(sv[i as int]));
            }
        }
        i = i + 1;
    }
    assert(sv.take(sv.len() as int) =~= sv);
    ids
}

/// Appends the evidence for identity `h`.
fn reconcile_id<H: Hasher>(
    hasher: &H,
    source: &[Fingerprint],
    sink: &[Fingerprint],
    leaves: &Vec<Hash32>,
    h: Hash32,
    matched: &mut Vec<Hash32>,
    missing: &mut Vec<MissingRecord>,
    duplicated: &mut Vec<DuplicatedRecord>,
    mutated: &mut Vec<MutatedRecord>,
) -> (r: CoreResult<()>)
    requires
        hash_views(leaves@) == source_leaves(hasher.spec_algorithm(), source@),
    ensures
        r is Ok,
        ({
            let o = id_outcome(source@, sink@, h@);
            let alg = hasher.spec_algorithm();
            let sl = source_leaves(alg, source@);
            &&& final(matched)@ == old(matched)@ + o.matched
            &&& final(missing)@.len() == old(missing)@.len() + o.missing.len()
            &&& forall|j: int| 0 <= j < old(missing)@.len() ==> final(missing)@[j] == old(missing)@[j]
            &&& forall|j: int| 0 <= j < o.missing.len() ==> #[trigger] missing_matches(
                alg,
                sl,
                final(missing)@[old(missing)@.len() + j],
                o.missing[j],
            )
            &&& final(duplicated)@ == old(duplicated)@ + final(duplicated)@.skip(old(duplicated)@.len() as int)
            &&& duplicated_rel(final(duplicated)@.skip(old(duplicated)@.len() as int), o.duplicated)
            &&& final(mutated)@ == old(mutated)@ + final(mutated)@.skip(old(mutated)@.len() as int)
            &&& mutated_rel(final(mutated)@.skip(old(mutated)@.len() as int), o.mutated)
        }),
{
    let ghost alg = hasher.spec_algorithm();
    let ghost o = id_outcome(source@, sink@, h@);
    let s_idx = group_indices(source, &h);
    let k_idx = group_indices(sink, &h);
    let s_len = s_idx.len();
    let k_len = k_idx.len();
    let (m, s_rest, k_rest) = greedy_match(source, sink, s_idx, k_idx);
    let ghost g = greedy(group(source@, h@), group(sink@, h@));
    proof {
        lemma_greedy_counts(group(source@, h@), group(sink@, h@));
    }
    let mut i: usize = 0;
    let ghost m0 = matched@;
    while i < m.len()
        invariant
            0 <= i <= m@.len(),
            matched@ == m0 + m@.take(i as int),
        decreases m@.len() - i,
    {
        matched.push(m[i]);
        assert(m@.take(i + 1) =~= m@.take(i as int).push(m@[i as int]));
        i = i + 1;
    }
    assert(m@.take(m@.len() as int) =~= m@);
    let mutation = s_rest.len() > 0 && k_len > 0 && k_rest.len() > 0;
    let ghost mut0 = mutated@;
    if mutation {
        mutated.push(
            MutatedRecord {
                id_hash: h,
                source_content_hash: source[s_rest[0]].content_hash,
                sink_content_hash: sink[k_rest[0]].content_hash,
            },
        );
    }
    assert(mutated@.skip(mut0.len() as int) =~= mutated@.subrange(mut0.len() as int, mutated@.len() as int));
    assert(mutated@ =~= mut0 + mutated@.skip(mut0.len() as int));
    let start: usize = if mutation {
        1
    } else {
        0
    };
    let ghost miss0 = missing@;
    let mut r: usize = start;
    while r < s_rest.len()
        invariant
            start <= r <= s_rest@.len(),
            start == (if mutation { 1usize } else { 0usize }),
            alg == hasher.spec_algorithm(),
            hash_views(leaves@) == source_leaves(alg, source@),
            at_indices(source@, s_rest@) == g.s_rest,
            forall|j: int| 0 <= j < s_rest@.len() ==> s_rest@[j] < source@.len(),
            missing@.len() == miss0.len() + (r - start),
            forall|j: int| 0 <= j < miss0.len() ==> missing@[j] == miss0[j],
            forall|j: int|
                0 <= j < r - start ==> #[trigger] missing_matches(
                    alg,
                    source_leaves(alg, source@),
                    missing@[miss0.len() + j],
                    g.s_rest[start + j],
                ),
        decreases s_rest@.len() - r,
    {
        let k = s_rest[r];
        let leaf = merkle_leaf(hasher, &source[k].fp);
        proof {
            lemma_leaf_in_source_leaves(alg, source@, k as int);
        }
        let proof_path = match merkle_proof(hasher, leaves.as_slice(), &leaf) {
            Ok(p) => p,
            Err(e) => {
                return Err(e);
            },
        };
        missing.push(
            MissingRecord {
                id_hash: source[k].id_hash,
                source_pos: source[k].pos.copy(),
                merkle_leaf: leaf,
                inclusion_proof: proof_path,
            },
        );
        assert(g.s_rest[r as int] == source@[k as int]);
        r = r + 1;
    }
    proof {
        assert(mutation == (g.s_rest.len() > 0 && g.k_rest.len() > 0));
        if mutation {
            assert(o.missing =~= g.s_rest.drop_first());
        }
        assert forall|j: int| 0 <= j < o.missing.len() implies #[trigger] missing_matches(
            alg,
            source_leaves(alg, source@),
            missing@[miss0.len() + j],
            o.missing[j],
        ) by {
            assert(o.missing[j] == g.s_rest[start + j]);
        }
    }
    let ghost dup0 = duplicated@;
    if k_len > s_len {
        duplicated.push(
            DuplicatedRecord {
                id_hash: h,
                source_multiplicity: s_len as u64,
                sink_multiplicity: k_len as u64,
            },
        );
    }
    assert(duplicated@ =~= dup0 + duplicated@.skip(dup0.len() as int));
    Ok(())
}

/// The reconciliation result together with the sorted source leaves.
#[derive(Debug, Clone, PartialEq, Eq)]
pub struct ReconcileOutput {
    pub result: ReconResult,
    pub source_leaves: Vec<Hash32>,
}

/// What a reconciliation output reports about `src` against `snk`.
pub open spec fn reconcile_ok(
    alg: HashAlgorithm,
    src: Seq<Fingerprint>,
    snk: Seq<Fingerprint>,
    tolerances: Tolerances,
    out: ReconcileOutput,
) -> bool {
    let sp = spec_reconcile(src, snk);
    let sl = source_leaves(alg, src);
    &&& hash_views(out.source_leaves@) == sl
    &&& out.result.matched.count == sp.matched.len()
    &&& out.result.matched.merkle_root@ == spec_merkle_root(alg, leaves_of(alg, sp.matched))
    &&& missing_rel(alg, sl, out.result.missing@, sp.missing)
    &&& duplicated_rel(out.result.duplicated@, sp.duplicated)
    &&& mutated_rel(out.result.mutated@, sp.mutated)
    &&& out.result.verdict == spec_verdict(
        out.result.missing@.len() as int,
        out.result.duplicated@.len() as int,
        out.result.mutated@.len() as int,
        false,
        tolerances,
    )
    &&& out.result.unverified_reason is None
}

/// Reconciles source fingerprints against sink fingerprints: per identity (in
/// sorted order) greedy content matching, then missing, mutated and
/// duplicated evidence, the matched commitment and the verdict.
pub fn reconcile<H: Hasher>(
    source: &[Fingerprint],
    sink: &[Fingerprint],
    policy: &Policy,
    hasher: &H,
) -> (r: CoreResult<ReconcileOutput>)
    ensures
        r matches Ok(out) && reconcile_ok(
            hasher.spec_algorithm(),
            source@,
            sink@,
            policy.tolerances,
            out,
        ),
{
    let ghost alg = hasher.spec_algorithm();
    let mut raw: Vec<Hash32> = Vec::new();
    let mut i: usize = 0;
    while i < source.len()
        invariant
            0 <= i <= source@.len(),
            alg == hasher.spec_algorithm(),
            hash_views(raw@) == fp_leaves(alg, source@.take(i as int)),
        decreases source@.len() - i,
    {
        let leaf = merkle_leaf(hasher, &source[i].fp);
        let ghost old_raw = raw@;
        raw.push(leaf);
        proof {
            assert(source@.take(i + 1) =~= source@.take(i as int).push(source@[i as int]));
            assert(fp_leaves(alg, source@.take(i + 1)) =~= fp_leaves(alg, source@.take(i as int)).push(
                spec_leaf(alg, source@[i as int].fp@),
            ));
            assert(hash_views(raw@) =~= hash_views(old_raw).push(leaf@));
        }
        i = i + 1;
    }
    assert(source@.take(source@.len() as int) =~= source@);
    let leaves = sort_hashes(&raw);

    let ids = collect_ids(source, sink);
    let ghost idv = hash_views(ids@);
    let mut matched: Vec<Hash32> = Vec::new();
    let mut missing: Vec<MissingRecord> = Vec::new();
    let mut duplicated: Vec<DuplicatedRecord> = Vec::new();
    let mut mutated: Vec<MutatedRecord> = Vec::new();
    let mut t: usize = 0;
    while t < ids.len()
        invariant
            0 <= t <= ids@.len(),
            alg == hasher.spec_algorithm(),
            idv == hash_views(ids@),
            hash_views(leaves@) == source_leaves(alg, source@),
            ({
                let sp = recon_over(source@, sink@, idv.take(t as int));
                &&& matched@ == sp.matched
                &&& missing_rel(alg, source_leaves(alg, source@), missing@, sp.missing)
                &&& duplicated_rel(duplicated@, sp.duplicated)
                &&& mutated_rel(mutated@, sp.mutated)
            }),
        decreases ids@.len() - t,
    {
        let ghost pre = recon_over(source@, sink@, idv.take(t as int));
        let ghost dup0 = duplicated@;
        let ghost mut0 = mutated@;
        let res = reconcile_id(
            hasher,
            source,
            sink,
            &leaves,
            ids[t],
            &mut matched,
            &mut missing,
            &mut duplicated,
            &mut mutated,
        );
        proof {
            assert(idv.take(t + 1).drop_last() =~= idv.take(t as int));
            assert(idv.take(t + 1).last() == ids@[t as int]@);
            let sp = recon_over(source@, sink@, idv.take(t + 1));
            let o = id_outcome(source@, sink@, ids@[t as int]@);
            assert(sp.missing == pre.missing + o.missing);
            assert forall|j: int| 0 <= j < missing@.len() implies #[trigger] missing_matches(
                alg,
                source_leaves(alg, source@),
                missing@[j],
                sp.missing[j],
            ) by {
                if j >= pre.missing.len() {
                    let jj = j - pre.missing.len();
                    assert(missing_matches(
                        alg,
                        source_leaves(alg, source@),
                        missing@[pre.missing.len() + jj],
                        o.missing[jj],
                    ));
                }
            }
            let dnew = duplicated@.skip(dup0.len() as int);
            assert forall|j: int| 0 <= j < duplicated@.len() implies {
                &&& (#[trigger] duplicated@[j]).id_hash@ == sp.duplicated[j].0
                &&& duplicated@[j].source_multiplicity == sp.duplicated[j].1
                &&& duplicated@[j].sink_multiplicity == sp.duplicated[j].2
            } by {
                if j >= dup0.len() {
                    assert(duplicated@[j] == dnew[j - dup0.len()]);
                } else {
                    assert(duplicated@[j] == dup0[j]);
                }
            }
            let mnew = mutated@.skip(mut0.len() as int);
            assert forall|j: int| 0 <= j < mutated@.len() implies {
                &&& (#[trigger] mutated@[j]).id_hash@ == sp.mutated[j].0
                &&& mutated@[j].source_content_hash == sp.mutated[j].1
                &&& mutated@[j].sink_content_hash == sp.mutated[j].2
            } by {
                if j >= mut0.len() {
                    assert(mutated@[j] == mnew[j - mut0.len()]);
                } else {
                    assert(mutated@[j] == mut0[j]);
                }
            }
        }
        match res {
            Ok(()) => {},
            Err(e) => {
                return Err(e);
            },
        }
        t = t + 1;
    }
    assert(idv.take(idv.len() as int) =~= idv);

    let mut matched_leaves: Vec<Hash32> = Vec::new();
    let mut i: usize = 0;
    while i < matched.len()
        invariant
            0 <= i <= matched@.len(),
            alg == hasher.spec_algorithm(),
            hash_views(matched_leaves@) == leaves_of(alg, matched@.take(i as int)),
        decreases matched@.len() - i,
    {
        let leaf = merkle_leaf(hasher, &matched[i]);
        let ghost old_ml = matched_leaves@;
        matched_leaves.push(leaf);
        proof {
            assert(matched@.take(i + 1) =~= matched@.take(i as int).push(matched@[i as int]));
            assert(leaves_of(alg, matched@.take(i + 1)) =~= leaves_of(alg, matched@.take(i as int)).push(
                spec_leaf(alg, matched@[i as int]@),
            ));
            assert(hash_views(matched_leaves@) =~= hash_views(old_ml).push(leaf@));
        }
        i = i + 1;
    }
    assert(matched@.take(matched@.len() as int) =~= matched@);
    let matched_root = merkle_root(hasher, matched_leaves);

    let verdict = derive_verdict(
        missing.len() as u64,
        duplicated.len() as u64,
        mutated.len() as u64,
        None,
        &policy.tolerances,
    );
    Ok(
        ReconcileOutput {
            result: ReconResult {
                matched: Commitment { count: matched.len() as u64, merkle_root: matched_root },
                missing,
                duplicated,
                mutated,
                verdict,
                unverified_reason: None,
            },
            source_leaves: leaves,
        },
    )
}

/// The total size of the groups of the given identities.
pub open spec fn sum_groups(fps: Seq<Fingerprint>, ids: Seq<Seq<u8>>) -> nat
    decreases ids.len(),
{
    if ids.len() == 0 {
        0
    } else {
        sum_groups(fps, ids.drop_last()) + group(fps, ids.last()).len()
    }
}

proof fn lemma_sum_groups_push(fps: Seq<Fingerprint>, x: Fingerprint, ids: Seq<Seq<u8>>)
    requires
        ids.no_duplicates(),
    ensures
        sum_groups(fps.push(x), ids) == sum_groups(fps, ids) + (if ids.contains(x.id_hash@) {
            1nat
        } else {
            0nat
        }),
    decreases ids.len(),
{
    if ids.len() > 0 {
        let d = ids.drop_last();
        assert(d.no_duplicates());
        lemma_sum_groups_push(fps, x, d);
        assert(fps.push(x).drop_last() =~= fps);
        if ids.last() == x.id_hash@ {
            assert(!d.contains(x.id_hash@));
        }
        if d.contains(x.id_hash@) {
            let i = choose|i: int| 0 <= i < d.len() && d[i] == x.id_hash@;
            assert(ids[i] == d[i]);
            assert(ids.contains(x.id_hash@));
        }
        if ids.contains(x.id_hash@) && ids.last() != x.id_hash@ {
            let i = choose|i: int| 0 <= i < ids.len() && ids[i] == x.id_hash@;
            assert(i != ids.len() - 1);
            assert(d[i] == x.id_hash@);
        }
    }
}

proof fn lemma_sum_groups_covering(fps: Seq<Fingerprint>, ids: Seq<Seq<u8>>)
    requires
        ids.no_duplicates(),
        forall|i: int| 0 <= i < fps.len() ==> ids.contains(#[trigger] fps[i].id_hash@),
    ensures
        sum_groups(fps, ids) == fps.len(),
    decreases fps.len(),
{
    if fps.len() == 0 {
        lemma_sum_groups_empty(ids);
        assert(fps =~= Seq::<Fingerprint>::empty());
    } else {
        let d = fps.drop_last();
        assert forall|i: int| 0 <= i < d.len() implies ids.contains(#[trigger] d[i].id_hash@) by {
            assert(d[i] == fps[i]);
        }
        lemma_sum_groups_covering(d, ids);
        assert(d.push(fps.last()) =~= fps);
        assert(ids.contains(fps[fps.len() - 1].id_hash@));
        lemma_sum_groups_push(d, fps.last(), ids);
    }
}

proof fn lemma_sum_groups_empty(ids: Seq<Seq<u8>>)
    ensures
        sum_groups(Seq::<Fingerprint>::empty(), ids) == 0,
    decreases ids.len(),
{
    if ids.len() > 0 {
        lemma_sum_groups_empty(ids.drop_last());
    }
}

proof fn lemma_recon_counts(src: Seq<Fingerprint>, snk: Seq<Fingerprint>, ids: Seq<Seq<u8>>)
    ensures
        ({
            let r = recon_over(src, snk, ids);
            &&& r.matched.len() + r.missing.len() + r.mutated.len() == sum_groups(src, ids)
            &&& r.matched.len() <= sum_groups(snk, ids)
        }),
    decreases ids.len(),
{
    if ids.len() > 0 {
        lemma_recon_counts(src, snk, ids.drop_last());
        let h = ids.last();
        lemma_greedy_counts(group(src, h), group(snk, h));
    }
}

proof fn lemma_dedup_contains(s: Seq<Seq<u8>>)
    ensures
        forall|x: Seq<u8>| s.contains(x) <==> #[trigger] dedup_sorted(s).contains(x),
        s.len() > 0 ==> dedup_sorted(s).len() > 0 && dedup_sorted(s).last() == s.last(),
    decreases s.len(),
{
    if s.len() > 1 {
        let d = s.drop_last();
        lemma_dedup_contains(d);
        let e = dedup_sorted(d);
        let same = s.last() == s[s.len() - 2];
        assert forall|x: Seq<u8>| s.contains(x) implies #[trigger] dedup_sorted(s).contains(x) by {
            let i = choose|i: int| 0 <= i < s.len() && s[i] == x;
            if i < s.len() - 1 {
                assert(d[i] == x);
                assert(d.contains(x));
                assert(e.contains(x));
                if !same {
                    let k = choose|k: int| 0 <= k < e.len() && e[k] == x;
                    assert(e.push(s.last())[k] == x);
                }
            } else if same {
                assert(d[s.len() - 2] == x);
                assert(d.contains(x));
                assert(e.contains(x));
            } else {
                assert(e.push(s.last())[e.len() as int] == x);
            }
        }
        assert forall|x: Seq<u8>| #[trigger] dedup_sorted(s).contains(x) implies s.contains(x) by {
            if same {
                assert(e.contains(x));
                assert(d.contains(x));
                let k = choose|k: int| 0 <= k < d.len() && d[k] == x;
                assert(s[k] == x);
            } else {
                let f = e.push(s.last());
                let i = choose|i: int| 0 <= i < f.len() && f[i] == x;
                if i < e.len() {
                    assert(e[i] == x);
                    assert(e.contains(x));
                    assert(d.contains(x));
                    let k = choose|k: int| 0 <= k < d.len() && d[k] == x;
                    assert(s[k] == x);
                } else {
                    assert(s[s.len() - 1] == x);
                }
            }
        }
    }
}

proof fn lemma_dedup_no_duplicates(s: Seq<Seq<u8>>)
    requires
        sorted_by(s, seq_leq()),
    ensures
        dedup_sorted(s).no_duplicates(),
    decreases s.len(),
{
    lemma_seq_leq_total();
    if s.len() > 1 {
        let d = s.drop_last();
        assert(sorted_by(d, seq_leq()));
        lemma_dedup_no_duplicates(d);
        lemma_dedup_contains(d);
        if s.last() != s[s.len() - 2] {
            let e = dedup_sorted(d);
            assert forall|x: Seq<u8>| #[trigger] e.contains(x) implies x != s.last() by {
                let k = choose|k: int| 0 <= k < d.len() && d[k] == x;
                let leq = seq_leq();
                if k < d.len() - 1 {
                    assert(leq(d[k], d[d.len() - 1]));
                }
                assert(leq(x, s[s.len() - 2]));
                assert(leq(s[s.len() - 2], s.last()));
                if x == s.last() {
                    assert(leq(s.last(), s[s.len() - 2]));
                }
            }
            assert forall|i: int, j: int|
                0 <= i < e.push(s.last()).len() && 0 <= j < e.push(s.last()).len() && i != j implies
                e.push(s.last())[i] != e.push(s.last())[j] by {
                if i < e.len() && j < e.len() {
                } else if i < e.len() {
                    assert(e.contains(e[i]));
                } else {
                    assert(e.contains(e[j]));
                }
            }
        }
    }
}

proof fn lemma_id_order(src: Seq<Fingerprint>, snk: Seq<Fingerprint>)
    ensures
        id_order(src, snk).no_duplicates(),
        forall|i: int| 0 <= i < src.len() ==> id_order(src, snk).contains(#[trigger] src[i].id_hash@),
        forall|i: int| 0 <= i < snk.len() ==> id_order(src, snk).contains(#[trigger] snk[i].id_hash@),
{
    broadcast use vstd::seq_lib::group_to_multiset_ensures;

    lemma_seq_leq_total();
    let all = fp_ids(src) + fp_ids(snk);
    all.lemma_sort_by_ensures(seq_leq());
    let sorted = all.sort_by(seq_leq());
    lemma_dedup_no_duplicates(sorted);
    lemma_dedup_contains(sorted);
    assert forall|i: int| 0 <= i < src.len() implies id_order(src, snk).contains(
        #[trigger] src[i].id_hash@,
    ) by {
        assert(all[i] == src[i].id_hash@);
        assert(all.to_multiset().count(src[i].id_hash@) > 0);
        assert(sorted.to_multiset().count(src[i].id_hash@) > 0);
    }
    assert forall|i: int| 0 <= i < snk.len() implies id_order(src, snk).contains(
        #[trigger] snk[i].id_hash@,
    ) by {
        assert(all[fp_ids(src).len() + i] == snk[i].id_hash@);
        assert(all.to_multiset().count(snk[i].id_hash@) > 0);
        assert(sorted.to_multiset().count(snk[i].id_hash@) > 0);
    }
}

proof fn lemma_greedy_self(s: Seq<Fingerprint>)
    ensures
        greedy(s, s).s_rest.len() == 0,
        greedy(s, s).k_rest.len() == 0,
    decreases s.len(),
{
    if s.len() > 0 {
        assert(find_content(s, s[0].content_hash) == Some(0int));
        assert(s.remove(0) =~= s.drop_first());
        lemma_greedy_self(s.drop_first());
    }
}

proof fn lemma_recon_self(src: Seq<Fingerprint>, ids: Seq<Seq<u8>>)
    ensures
        recon_over(src, src, ids).missing.len() == 0,
        recon_over(src, src, ids).duplicated.len() == 0,
        recon_over(src, src, ids).mutated.len() == 0,
    decreases ids.len(),
{
    if ids.len() > 0 {
        lemma_recon_self(src, ids.drop_last());
        lemma_greedy_self(group(src, ids.last()));
    }
}

proof fn lemma_group_subset(fps: Seq<Fingerprint>, h: Seq<u8>)
    ensures
        forall|x: Fingerprint| #[trigger] group(fps, h).contains(x) ==> fps.contains(x),
    decreases fps.len(),
{
    if fps.len() > 0 {
        let d = fps.drop_last();
        lemma_group_subset(d, h);
        assert forall|x: Fingerprint| #[trigger] group(fps, h).contains(x) implies fps.contains(x) by {
            if group(d, h).contains(x) {
                let i = choose|i: int| 0 <= i < d.len() && d[i] == x;
                assert(fps[i] == x);
            } else {
                assert(fps[fps.len() - 1] == x);
            }
        }
    }
}

proof fn lemma_greedy_rest_subset(s: Seq<Fingerprint>, k: Seq<Fingerprint>)
    ensures
        forall|x: Fingerprint| #[trigger] greedy(s, k).s_rest.contains(x) ==> s.contains(x),
    decreases s.len(),
{
    if s.len() > 0 {
        let t = s.drop_first();
        match find_content(k, s[0].content_hash) {
            Some(j) => {
                lemma_greedy_rest_subset(t, k.remove(j));
            },
            None => {
                lemma_greedy_rest_subset(t, k);
            },
        }
        assert forall|x: Fingerprint| #[trigger] greedy(s, k).s_rest.contains(x) implies s.contains(
            x,
        ) by {
            let r = greedy(s, k).s_rest;
            let i = choose|i: int| 0 <= i < r.len() && r[i] == x;
            if x != s[0] {
                match find_content(k, s[0].content_hash) {
                    Some(j) => {
                        assert(greedy(t, k.remove(j)).s_rest.contains(x));
                    },
                    None => {
                        assert(greedy(t, k).s_rest[i - 1] == x);
                        assert(greedy(t, k).s_rest.contains(x));
                    },
                }
                let m = choose|m: int| 0 <= m < t.len() && t[m] == x;
                assert(s[m + 1] == x);
            } else {
                assert(s[0] == x);
            }
        }
    }
}

proof fn lemma_recon_missing_subset(src: Seq<Fingerprint>, snk: Seq<Fingerprint>, ids: Seq<Seq<u8>>)
    ensures
        forall|x: Fingerprint| #[trigger] recon_over(src, snk, ids).missing.contains(x) ==> src.contains(x),
    decreases ids.len(),
{
    if ids.len() > 0 {
        let d = ids.drop_last();
        let h = ids.last();
        lemma_recon_missing_subset(src, snk, d);
        lemma_group_subset(src, h);
        lemma_greedy_rest_subset(group(src, h), group(snk, h));
        assert forall|x: Fingerprint| #[trigger] recon_over(src, snk, ids).missing.contains(x) implies src.contains(x) by {
            let prev = recon_over(src, snk, d).missing;
            let o = id_outcome(src, snk, h).missing;
            let g = greedy(group(src, h), group(snk, h));
            let all = recon_over(src, snk, ids).missing;
            let i = choose|i: int| 0 <= i < all.len() && all[i] == x;
            if i < prev.len() {
                assert(prev[i] == x);
                assert(prev.contains(x));
            } else {
                assert(o[i - prev.len()] == x);
                if g.s_rest.len() > 0 && g.k_rest.len() > 0 {
                    assert(g.s_rest[i - prev.len() + 1] == x);
                } else {
                    assert(g.s_rest[i - prev.len()] == x);
                }
                assert(g.s_rest.contains(x));
                assert(group(src, h).contains(x));
            }
        }
    }
}

/// A reconciliation with a reason to be unverified is never a pass, nor a
/// fail: it is unverified whatever the evidence and tolerances.
pub proof fn law_unverified_never_passes(
    missing_count: int,
    duplicated_count: int,
    mutated_count: int,
    tolerances: Tolerances,
)
    ensures
        spec_verdict(missing_count, duplicated_count, mutated_count, true, tolerances)
            == Verdict::Unverified,
{
}

/// Identical source and sink reconcile cleanly: every record is matched,
/// there is no missing, duplicated or mutated evidence, and the verdict is a
/// pass whatever the tolerances.
pub proof fn law_identical_sets_pass(
    alg: HashAlgorithm,
    src: Seq<Fingerprint>,
    tolerances: Tolerances,
    out: ReconcileOutput,
)
    requires
        reconcile_ok(alg, src, src, tolerances, out),
    ensures
        out.result.verdict == Verdict::Pass,
        out.result.matched.count == src.len(),
        out.result.missing@.len() == 0,
        out.result.duplicated@.len() == 0,
        out.result.mutated@.len() == 0,
{
    let ids = id_order(src, src);
    lemma_recon_self(src, ids);
    lemma_recon_counts(src, src, ids);
    lemma_id_order(src, src);
    lemma_sum_groups_covering(src, ids);
}

/// Every source record is accounted for exactly once: matched, reported
/// missing, or the source side of a mutation; and no more records are
/// matched than the sink holds.
pub proof fn law_source_conservation(
    alg: HashAlgorithm,
    src: Seq<Fingerprint>,
    snk: Seq<Fingerprint>,
    tolerances: Tolerances,
    out: ReconcileOutput,
)
    requires
        reconcile_ok(alg, src, snk, tolerances, out),
    ensures
        out.result.matched.count + out.result.missing@.len() + out.result.mutated@.len() == src.len(),
        out.result.matched.count <= snk.len(),
{
    let ids = id_order(src, snk);
    lemma_recon_counts(src, snk, ids);
    lemma_id_order(src, snk);
    lemma_sum_groups_covering(src, ids);
    lemma_sum_groups_covering(snk, ids);
}

proof fn lemma_empty_count(x: Fingerprint)
    ensures
        Seq::<Fingerprint>::empty().to_multiset().count(x) == 0,
{
    broadcast use vstd::multiset::group_multiset_axioms;

    vstd::seq_lib::to_multiset_len(Seq::<Fingerprint>::empty());
    vstd::multiset::lemma_multiset_empty_len(Seq::<Fingerprint>::empty().to_multiset());
}

proof fn lemma_group_count(fps: Seq<Fingerprint>, h: Seq<u8>, x: Fingerprint)
    ensures
        group(fps, h).to_multiset().count(x) == (if x.id_hash@ == h {
            fps.to_multiset().count(x)
        } else {
            0
        }),
    decreases fps.len(),
{
    broadcast use vstd::seq_lib::group_to_multiset_ensures, vstd::multiset::group_multiset_axioms;

    if fps.len() > 0 {
        let d = fps.drop_last();
        lemma_group_count(d, h, x);
        assert(fps =~= d.push(fps.last()));
    } else {
        assert(group(fps, h) =~= Seq::<Fingerprint>::empty());
        assert(fps =~= Seq::<Fingerprint>::empty());
        lemma_empty_count(x);
    }
}

proof fn lemma_count_drop_first(s: Seq<Fingerprint>, x: Fingerprint)
    requires
        s.len() > 0,
    ensures
        s.to_multiset().count(x) == s.drop_first().to_multiset().count(x) + (if s[0] == x {
            1int
        } else {
            0int
        }),
{
    broadcast use vstd::multiset::group_multiset_axioms;

    assert(s =~= seq![s[0]] + s.drop_first());
    vstd::seq_lib::lemma_multiset_commutative(seq![s[0]], s.drop_first());
    assert(seq![s[0]] =~= Seq::<Fingerprint>::empty().push(s[0]));
    vstd::seq_lib::to_multiset_build(Seq::<Fingerprint>::empty(), s[0]);
    lemma_empty_count(x);
}

proof fn lemma_greedy_rest_count(s: Seq<Fingerprint>, k: Seq<Fingerprint>, x: Fingerprint)
    ensures
        greedy(s, k).s_rest.to_multiset().count(x) <= s.to_multiset().count(x),
    decreases s.len(),
{
    if s.len() > 0 {
        let t = s.drop_first();
        lemma_count_drop_first(s, x);
        match find_content(k, s[0].content_hash) {
            Some(j) => {
                lemma_greedy_rest_count(t, k.remove(j), x);
            },
            None => {
                lemma_greedy_rest_count(t, k, x);
                let r = greedy(s, k).s_rest;
                assert(r.drop_first() =~= greedy(t, k).s_rest);
                lemma_count_drop_first(r, x);
            },
        }
    } else {
        broadcast use vstd::multiset::group_multiset_axioms;

        assert(greedy(s, k).s_rest =~= Seq::<Fingerprint>::empty());
        lemma_empty_count(x);
    }
}

proof fn lemma_outcome_missing_count(
    src: Seq<Fingerprint>,
    snk: Seq<Fingerprint>,
    h: Seq<u8>,
    x: Fingerprint,
)
    ensures
        id_outcome(src, snk, h).missing.to_multiset().count(x) <= group(src, h).to_multiset().count(
            x,
        ),
{
    let g = greedy(group(src, h), group(snk, h));
    lemma_greedy_rest_count(group(src, h), group(snk, h), x);
    if g.s_rest.len() > 0 && g.k_rest.len() > 0 {
        lemma_count_drop_first(g.s_rest, x);
    }
}

proof fn lemma_missing_count(
    src: Seq<Fingerprint>,
    snk: Seq<Fingerprint>,
    ids: Seq<Seq<u8>>,
    x: Fingerprint,
)
    requires
        ids.no_duplicates(),
    ensures
        recon_over(src, snk, ids).missing.to_multiset().count(x) <= (if ids.contains(x.id_hash@) {
            src.to_multiset().count(x)
        } else {
            0
        }),
    decreases ids.len(),
{
    broadcast use vstd::multiset::group_multiset_axioms;

    if ids.len() > 0 {
        let d = ids.drop_last();
        let h = ids.last();
        assert(d.no_duplicates());
        lemma_missing_count(src, snk, d, x);
        let prev = recon_over(src, snk, d).missing;
        let o = id_outcome(src, snk, h).missing;
        vstd::seq_lib::lemma_multiset_commutative(prev, o);
        lemma_outcome_missing_count(src, snk, h, x);
        lemma_group_count(src, h, x);
        assert(ids =~= d.push(h));
        if x.id_hash@ == h {
            assert(!d.contains(h)) by {
                if d.contains(h) {
                    let i = choose|i: int| 0 <= i < d.len() && d[i] == h;
                    assert(ids[i] == ids[ids.len() - 1]);
                }
            }
        }
        assert(ids.contains(x.id_hash@) <==> d.contains(x.id_hash@) || x.id_hash@ == h) by {
            if ids.contains(x.id_hash@) {
                let i = choose|i: int| 0 <= i < ids.len() && ids[i] == x.id_hash@;
                if i < d.len() {
                    assert(d[i] == x.id_hash@);
                }
            }
            if d.contains(x.id_hash@) {
                let i = choose|i: int| 0 <= i < d.len() && d[i] == x.id_hash@;
                assert(ids[i] == x.id_hash@);
            }
        }
    } else {
        lemma_empty_count(x);
    }
}

/// Missing records name distinct source records: each reports the identity
/// and position of a source fingerprint, one for one, and together these
/// fingerprints occur no more often than in the source, so no source record
/// is reported missing twice.
pub proof fn law_missing_records_distinct_sources(
    alg: HashAlgorithm,
    src: Seq<Fingerprint>,
    snk: Seq<Fingerprint>,
    tolerances: Tolerances,
    out: ReconcileOutput,
)
    requires
        reconcile_ok(alg, src, snk, tolerances, out),
    ensures
        ({
            let sm = spec_reconcile(src, snk).missing;
            &&& out.result.missing@.len() == sm.len()
            &&& forall|j: int|
                0 <= j < sm.len() ==> (#[trigger] out.result.missing@[j]).id_hash == sm[j].id_hash
                    && out.result.missing@[j].source_pos@ == sm[j].pos@
            &&& sm.to_multiset().subset_of(src.to_multiset())
        }),
{
    let sm = spec_reconcile(src, snk).missing;
    let sl = source_leaves(alg, src);
    assert forall|j: int| 0 <= j < sm.len() implies (#[trigger] out.result.missing@[j]).id_hash
        == sm[j].id_hash && out.result.missing@[j].source_pos@ == sm[j].pos@ by {
        assert(missing_matches(alg, sl, out.result.missing@[j], sm[j]));
    }
    lemma_id_order(src, snk);
    assert forall|x: Fingerprint| sm.to_multiset().count(x) <= src.to_multiset().count(x) by {
        lemma_missing_count(src, snk, id_order(src, snk), x);
    }
}

/// Drops are detected: when the source holds more records than the sink, at
/// least that many records are reported missing or mutated, and with zero
/// drop and mutation tolerances the verdict is a fail.
pub proof fn law_drop_detected(
    alg: HashAlgorithm,
    src: Seq<Fingerprint>,
    snk: Seq<Fingerprint>,
    tolerances: Tolerances,
    out: ReconcileOutput,
)
    requires
        reconcile_ok(alg, src, snk, tolerances, out),
        src.len() > snk.len(),
    ensures
        out.result.missing@.len() + out.result.mutated@.len() >= src.len() - snk.len(),
        tolerances.max_drops == 0 && tolerances.max_mutations == 0 ==> out.result.verdict
            == Verdict::Fail,
{
    law_source_conservation(alg, src, snk, tolerances, out);
}

/// Every missing record reports a source record (its identity and position)
/// and carries an inclusion proof of its leaf that folds to the Merkle root
/// of all source leaves.
pub proof fn law_missing_records_provable(
    alg: HashAlgorithm,
    src: Seq<Fingerprint>,
    snk: Seq<Fingerprint>,
    tolerances: Tolerances,
    out: ReconcileOutput,
    j: int,
)
    requires
        reconcile_ok(alg, src, snk, tolerances, out),
        0 <= j < out.result.missing@.len(),
    ensures
        ({
            let m = out.result.missing@[j];
            let sl = hash_views(out.source_leaves@);
            &&& sl.contains(m.merkle_leaf@)
            &&& spec_fold(
                alg,
                m.merkle_leaf@,
                hash_views(m.inclusion_proof@),
                first_index(sl, m.merkle_leaf@),
            ) == spec_merkle_root(alg, fp_leaves(alg, src))
            &&& exists|k: int|
                0 <= k < src.len() && (#[trigger] src[k]).id_hash == m.id_hash && src[k].pos@
                    == m.source_pos@
        }),
{
    let sp = spec_reconcile(src, snk);
    let f = sp.missing[j];
    assert(missing_matches(alg, source_leaves(alg, src), out.result.missing@[j], f));
    lemma_recon_missing_subset(src, snk, id_order(src, snk));
    assert(sp.missing.contains(f));
    let k = choose|k: int| 0 <= k < src.len() && src[k] == f;
    assert(src[k].id_hash == out.result.missing@[j].id_hash);
    lemma_leaf_in_source_leaves(alg, src, k);
    let sl = source_leaves(alg, src);
    lemma_seq_leq_total();
    fp_leaves(alg, src).lemma_sort_by_ensures(seq_leq());
    law_inclusion_proof_verifies(alg, sl, spec_leaf(alg, f.fp@));
    sl.lemma_sort_by_ensures(seq_leq());
    vstd::seq_lib::lemma_sorted_unique(sl.sort_by(seq_leq()), sl, seq_leq());
    broadcast use vstd::seq_lib::group_to_multiset_ensures;
    vstd::seq_lib::to_multiset_len(fp_leaves(alg, src));
    vstd::seq_lib::to_multiset_len(sl);
}

// ---------------------------------------------------------------------------
// Fingerprints of records
// ---------------------------------------------------------------------------

/// The two canonical encodings of a record under a policy: identity, then
/// content; an invalid identity rule, or the first encoding that fails or
/// panics, decides the outcome.
pub open spec fn spec_record_canons(
    rec: Map<Seq<char>, CanonValue>,
    content_fields: Seq<Seq<char>>,
    policy: Policy,
) -> Outcome<(Seq<u8>, Seq<u8>)> {
    match parse_identity_rule(policy.identity_rule@) {
        None => Outcome::Fails(ErrorView::InvalidIdentityRule(policy.identity_rule@)),
        Some(rule) => match spec_canon_identity(rec, rule.1, policy.canon) {
            Outcome::Fails(e) => Outcome::Fails(e),
            Outcome::Panics => Outcome::Panics,
            Outcome::Done(id_canon) => match spec_canon_content(rec, content_fields, policy.canon) {
                Outcome::Fails(e) => Outcome::Fails(e),
                Outcome::Panics => Outcome::Panics,
                Outcome::Done(content_canon) => Outcome::Done((id_canon, content_canon)),
            },
        },
    }
}

/// The identity hash, content hash and fingerprint of a record under a
/// policy and an algorithm, from its two canonical encodings.
pub open spec fn spec_build_fingerprint(
    alg: HashAlgorithm,
    rec: Map<Seq<char>, CanonValue>,
    content_fields: Seq<Seq<char>>,
    salt: Seq<u8>,
    policy: Policy,
) -> Outcome<(Seq<u8>, Seq<u8>, Seq<u8>)> {
    match spec_record_canons(rec, content_fields, policy) {
        Outcome::Done(cs) => Outcome::Done(spec_fingerprint_hashes(alg, salt, cs.0, cs.1)),
        Outcome::Fails(e) => Outcome::Fails(e),
        Outcome::Panics => Outcome::Panics,
    }
}

/// The fingerprint of a record with a given hasher.
pub fn build_fingerprint_with_hasher<H: Hasher>(
    record: &Record,
    content_fields: &[String],
    salt: &[u8],
    pos: Position,
    policy: &Policy,
    hasher: &H,
) -> (r: CoreResult<Fingerprint>)
    requires
        !(spec_record_canons(record@, string_views(content_fields@), *policy) is Panics),
    ensures
        spec_build_fingerprint(
            hasher.spec_algorithm(),
            record@,
            string_views(content_fields@),
            salt@,
            *policy,
        ) matches Outcome::Done(h) ==> r matches Ok(f) && (f.id_hash@, f.content_hash@, f.fp@) == h
            && f.pos == pos,
        spec_build_fingerprint(
            hasher.spec_algorithm(),
            record@,
            string_views(content_fields@),
            salt@,
            *policy,
        ) matches Outcome::Fails(e) ==> r matches Err(x) && x@ == e,
{
    let id_rule = match identity_fields(policy.identity_rule.as_str()) {
        Ok(rule) => rule,
        Err(e) => return Err(e),
    };
    let id_canon = match canon_identity(record, &id_rule, &policy.canon) {
        Ok(b) => b,
        Err(e) => return Err(e),
    };
    let content_canon = match canon_content(record, content_fields, &policy.canon) {
        Ok(b) => b,
        Err(e) => return Err(e),
    };
    let (id_hash, content_hash, fp) = fingerprint_hashes(
        hasher,
        salt,
        id_canon.as_slice(),
        content_canon.as_slice(),
    );
    Ok(Fingerprint { id_hash, content_hash, fp, pos })
}

/// The fingerprint of a record with the hasher that the policy names.
pub fn build_fingerprint(
    record: &Record,
    content_fields: &[String],
    salt: &[u8],
    pos: Position,
    policy: &Policy,
) -> (r: CoreResult<Fingerprint>)
    requires
        spec_parse_algorithm(policy.hash_algorithm@) is Some ==> !(spec_record_canons(
            record@,
            string_views(content_fields@),
            *policy,
        ) is Panics),
    ensures
        match spec_parse_algorithm(policy.hash_algorithm@) {
            None => r matches Err(CoreError::UnknownHashAlgorithm(t)) && t@
                == policy.hash_algorithm@,
            Some(alg) => {
                &&& spec_build_fingerprint(
                    alg,
                    record@,
                    string_views(content_fields@),
                    salt@,
                    *policy,
                ) matches Outcome::Done(h) ==> r matches Ok(f) && (f.id_hash@, f.content_hash@, f.fp@)
                    == h && f.pos == pos
                &&& spec_build_fingerprint(
                    alg,
                    record@,
                    string_views(content_fields@),
                    salt@,
                    *policy,
                ) matches Outcome::Fails(e) ==> r matches Err(x) && x@ == e
            },
        },
{
    let hasher = match hasher_for(policy.hash_algorithm.as_str()) {
        Ok(h) => h,
        Err(e) => return Err(e),
    };
    build_fingerprint_with_hasher(record, content_fields, salt, pos, policy, &hasher)
}

/// Which way encoding a record under a policy goes: bytes, an error or a
/// panic.
pub fn record_canons_kind(record: &Record, content_fields: &[String], policy: &Policy) -> (r:
    OutcomeKind)
    ensures
        r == kind_of(spec_record_canons(record@, string_views(content_fields@), *policy)),
{
    let rule = match identity_fields(policy.identity_rule.as_str()) {
        Ok(rule) => rule,
        Err(_) => return OutcomeKind::Fails,
    };
    if policy.canon.version != 1 {
        return OutcomeKind::Fails;
    }
    let k = canon_fields_kind(record, identity_field_names(&rule), &policy.canon);
    if k != OutcomeKind::Done {
        return k;
    }
    let sorted = sort_strings(content_fields);
    canon_fields_kind(record, sorted.as_slice(), &policy.canon)
}

/// The fingerprint of a record with the hasher that the policy names, or
/// `None` where encoding the record would panic (a decimal whose fraction
/// would be cut inside a character).
pub fn build_fingerprint_checked(
    record: &Record,
    content_fields: &[String],
    salt: &[u8],
    pos: Position,
    policy: &Policy,
) -> (r: Option<CoreResult<Fingerprint>>)
    ensures
        match spec_parse_algorithm(policy.hash_algorithm@) {
            None => r matches Some(Err(CoreError::UnknownHashAlgorithm(t))) && t@
                == policy.hash_algorithm@,
            Some(alg) => match spec_build_fingerprint(
                alg,
                record@,
                string_views(content_fields@),
                salt@,
                *policy,
            ) {
                Outcome::Done(h) => r matches Some(Ok(f)) && (f.id_hash@, f.content_hash@, f.fp@)
                    == h && f.pos == pos,
                Outcome::Fails(e) => r matches Some(Err(x)) && x@ == e,
                Outcome::Panics => r is None,
            },
        },
{
    let hasher = match hasher_for(policy.hash_algorithm.as_str()) {
        Ok(h) => h,
        Err(e) => return Some(Err(e)),
    };
    if record_canons_kind(record, content_fields, policy) == OutcomeKind::Panics {
        return None;
    }
    Some(build_fingerprint_with_hasher(record, content_fields, salt, pos, policy, &hasher))
}

/// What fingerprinting one record under a policy gives: its identity hash,
/// content hash and fingerprint with the hasher that the policy names, an
/// error (an unknown algorithm among them), or a panic.
pub open spec fn spec_record_fingerprint(
    rec: Map<Seq<char>, CanonValue>,
    content_fields: Seq<Seq<char>>,
    salt: Seq<u8>,
    policy: Policy,
) -> Outcome<(Seq<u8>, Seq<u8>, Seq<u8>)> {
    match spec_parse_algorithm(policy.hash_algorithm@) {
        None => Outcome::Fails(ErrorView::UnknownHashAlgorithm(policy.hash_algorithm@)),
        Some(alg) => spec_build_fingerprint(alg, rec, content_fields, salt, policy),
    }
}

/// Every row before `k` fingerprints.
pub open spec fn rows_done_before(
    rows: Seq<(Record, Position)>,
    content_fields: Seq<Seq<char>>,
    salt: Seq<u8>,
    policy: Policy,
    k: int,
) -> bool {
    forall|j: int|
        0 <= j < k ==> #[trigger] spec_record_fingerprint(
            rows[j].0@,
            content_fields,
            salt,
            policy,
        ) is Done
}

/// Fingerprints decoded rows, each record at its position, in order; the
/// first row that fails decides the error.
pub fn fingerprint_rows(
    rows: &[(Record, Position)],
    content_fields: &[String],
    salt: &[u8],
    policy: &Policy,
) -> (r: CoreResult<Vec<Fingerprint>>)
    requires
        forall|i: int|
            0 <= i < rows@.len() && rows_done_before(
                rows@,
                string_views(content_fields@),
                salt@,
                *policy,
                i,
            ) ==> !(#[trigger] spec_record_fingerprint(
                rows@[i].0@,
                string_views(content_fields@),
                salt@,
                *policy,
            ) is Panics),
    ensures
        rows_done_before(rows@, string_views(content_fields@), salt@, *policy, rows@.len() as int)
            ==> (r matches Ok(v) && v@.len() == rows@.len() && forall|i: int|
            0 <= i < rows@.len() ==> (#[trigger] v@[i].id_hash@, v@[i].content_hash@, v@[i].fp@)
                == spec_record_fingerprint(
                rows@[i].0@,
                string_views(content_fields@),
                salt@,
                *policy,
            )->Done_0 && v@[i].pos@ == rows@[i].1@),
        forall|k: int|
            0 <= k < rows@.len() && rows_done_before(
                rows@,
                string_views(content_fields@),
                salt@,
                *policy,
                k,
            ) && #[trigger] spec_record_fingerprint(
                rows@[k].0@,
                string_views(content_fields@),
                salt@,
                *policy,
            ) is Fails ==> (r matches Err(x) && x@ == spec_record_fingerprint(
                rows@[k].0@,
                string_views(content_fields@),
                salt@,
                *policy,
            )->Fails_0),
{
    let ghost cf = string_views(content_fields@);
    let mut out: Vec<Fingerprint> = Vec::new();
    let mut i: usize = 0;
    while i < rows.len()
        invariant
            0 <= i <= rows@.len(),
            cf == string_views(content_fields@),
            out@.len() == i,
            rows_done_before(rows@, cf, salt@, *policy, i as int),
            forall|i: int|
                0 <= i < rows@.len() && rows_done_before(rows@, cf, salt@, *policy, i) ==> !(
                #[trigger] spec_record_fingerprint(rows@[i].0@, cf, salt@, *policy) is Panics),
            forall|j: int|
                0 <= j < i ==> (#[trigger] out@[j].id_hash@, out@[j].content_hash@, out@[j].fp@)
                    == spec_record_fingerprint(rows@[j].0@, cf, salt@, *policy)->Done_0
                    && out@[j].pos@ == rows@[j].1@,
        decreases rows@.len() - i,
    {
        let ghost o = spec_record_fingerprint(rows@[i as int].0@, cf, salt@, *policy);
        let pos = rows[i].1.copy();
        match build_fingerprint(&rows[i].0, content_fields, salt, pos, policy) {
            Ok(f) => {
                assert(o is Done);
                out.push(f);
                assert(rows_done_before(rows@, cf, salt@, *policy, i + 1));
            },
            Err(e) => {
                assert(o matches Outcome::Fails(x) && x == e@);
                assert forall|k: int|
                    0 <= k < rows@.len() && rows_done_before(rows@, cf, salt@, *policy, k) && (
                    #[trigger] spec_record_fingerprint(rows@[k].0@, cf, salt@, *policy) is Fails)
                    implies k == i by {
                    if k < i {
                        assert(spec_record_fingerprint(rows@[k].0@, cf, salt@, *policy) is Done);
                    }
                    if k > i {
                        assert(spec_record_fingerprint(rows@[i as int].0@, cf, salt@, *policy) is Done);
                    }
                }
                return Err(e);
            },
        }
        i = i + 1;
    }
    Ok(out)
}

/// The eight big-endian bytes of a 64-bit number.
pub open spec fn be64(n: u64) -> Seq<u8> {
    seq![
        (n >> 56u64) as u8,
        (n >> 48u64) as u8,
        (n >> 40u64) as u8,
        (n >> 32u64) as u8,
        (n >> 24u64) as u8,
        (n >> 16u64) as u8,
        (n >> 8u64) as u8,
        n as u8,
    ]
}

/// The position of a Kafka offset: its eight big-endian bytes.
pub fn kafka_pos(offset: u64) -> (r: Position)
    ensures
        r@ == (PositionKind::KafkaOffset, be64(offset)),
{
    let value: Vec<u8> = vec![
        (offset >> 56u64) as u8,
        (offset >> 48u64) as u8,
        (offset >> 40u64) as u8,
        (offset >> 32u64) as u8,
        (offset >> 24u64) as u8,
        (offset >> 16u64) as u8,
        (offset >> 8u64) as u8,
        offset as u8,
    ];
    assert(value@ =~= be64(offset));
    Position { kind: PositionKind::KafkaOffset, value }
}

/// One step of a lexicographic comparison: a smaller byte decides, an equal
/// byte leaves it to the rest.
pub open spec fn lex_step(x: u8, y: u8, rest: bool) -> bool {
    x < y || (x == y && rest)
}

proof fn lemma_be64_order(
    a: u64,
    b: u64,
    a0: u8, a1: u8, a2: u8, a3: u8, a4: u8, a5: u8, a6: u8, a7: u8,
    b0: u8, b1: u8, b2: u8, b3: u8, b4: u8, b5: u8, b6: u8, b7: u8,
    r0: bool, r1: bool, r2: bool, r3: bool, r4: bool, r5: bool, r6: bool, r7: bool,
)
    by (bit_vector)
    requires
        a0 == (a >> 56u64) as u8,
        a1 == (a >> 48u64) as u8,
        a2 == (a >> 40u64) as u8,
        a3 == (a >> 32u64) as u8,
        a4 == (a >> 24u64) as u8,
        a5 == (a >> 16u64) as u8,
        a6 == (a >> 8u64) as u8,
        a7 == a as u8,
        b0 == (b >> 56u64) as u8,
        b1 == (b >> 48u64) as u8,
        b2 == (b >> 40u64) as u8,
        b3 == (b >> 32u64) as u8,
        b4 == (b >> 24u64) as u8,
        b5 == (b >> 16u64) as u8,
        b6 == (b >> 8u64) as u8,
        b7 == b as u8,
        r7 == lex_step(a7, b7, true),
        r6 == lex_step(a6, b6, r7),
        r5 == lex_step(a5, b5, r6),
        r4 == lex_step(a4, b4, r5),
        r3 == lex_step(a3, b3, r4),
        r2 == lex_step(a2, b2, r3),
        r1 == lex_step(a1, b1, r2),
        r0 == lex_step(a0, b0, r1),
    ensures
        a <= b <==> r0,
{
}

proof fn lemma_lex_le_unfold(a: Seq<u8>, b: Seq<u8>)
    requires
        a.len() > 0,
        b.len() > 0,
    ensures
        lex_le(a, b) == lex_step(a[0], b[0], lex_le(a.drop_first(), b.drop_first())),
{
}

/// Kafka positions sort as their offsets do: the big-endian bytes of one
/// offset are lexicographically at most those of another exactly when the
/// first offset is at most the second; and equal bytes mean equal offsets.
pub proof fn law_kafka_pos_order(a: u64, b: u64)
    ensures
        lex_le(be64(a), be64(b)) <==> a <= b,
        be64(a) == be64(b) <==> a == b,
{
    lemma_be64_le(a, b);
    lemma_be64_le(b, a);
    if be64(a) == be64(b) {
        assert(lex_le(be64(a), be64(b)) && lex_le(be64(b), be64(a))) by {
            lemma_be64_le(a, b);
        }
    }
}

proof fn lemma_be64_le(a: u64, b: u64)
    ensures
        lex_le(be64(a), be64(b)) <==> a <= b,
        be64(a) == be64(b) ==> lex_le(be64(a), be64(b)),
{
    let s0 = be64(a);
    let t0 = be64(b);
    let s1 = s0.drop_first();
    let t1 = t0.drop_first();
    let s2 = s1.drop_first();
    let t2 = t1.drop_first();
    let s3 = s2.drop_first();
    let t3 = t2.drop_first();
    let s4 = s3.drop_first();
    let t4 = t3.drop_first();
    let s5 = s4.drop_first();
    let t5 = t4.drop_first();
    let s6 = s5.drop_first();
    let t6 = t5.drop_first();
    let s7 = s6.drop_first();
    let t7 = t6.drop_first();
    let s8 = s7.drop_first();
    let t8 = t7.drop_first();
    assert(lex_le(s8, t8));
    lemma_lex_le_unfold(s7, t7);
    lemma_lex_le_unfold(s6, t6);
    lemma_lex_le_unfold(s5, t5);
    lemma_lex_le_unfold(s4, t4);
    lemma_lex_le_unfold(s3, t3);
    lemma_lex_le_unfold(s2, t2);
    lemma_lex_le_unfold(s1, t1);
    lemma_lex_le_unfold(s0, t0);
    lemma_be64_order(
        a, b,
        s0[0], s1[0], s2[0], s3[0], s4[0], s5[0], s6[0], s7[0],
        t0[0], t1[0], t2[0], t3[0], t4[0], t5[0], t6[0], t7[0],
        lex_le(s0, t0), lex_le(s1, t1), lex_le(s2, t2), lex_le(s3, t3),
        lex_le(s4, t4), lex_le(s5, t5), lex_le(s6, t6), lex_le(s7, t7),
    );
    if s0 == t0 {
        lemma_be64_order(
            a, a,
            s0[0], s1[0], s2[0], s3[0], s4[0], s5[0], s6[0], s7[0],
            s0[0], s1[0], s2[0], s3[0], s4[0], s5[0], s6[0], s7[0],
            lex_le(s0, s0), lex_le(s1, s1), lex_le(s2, s2), lex_le(s3, s3),
            lex_le(s4, s4), lex_le(s5, s5), lex_le(s6, s6), lex_le(s7, s7),
        );
    }
}

/// The content hash of a record depends on its content fields alone: two
/// records that agree on them (differing, say, in a metadata field) get the
/// same content hash under the same salt, policy and algorithm.
pub proof fn law_content_hash_ignores_other_fields(
    alg: HashAlgorithm,
    rec1: Map<Seq<char>, CanonValue>,
    rec2: Map<Seq<char>, CanonValue>,
    content_fields: Seq<Seq<char>>,
    salt: Seq<u8>,
    policy: Policy,
)
    requires
        agree_on(rec1, rec2, content_fields),
        spec_build_fingerprint(alg, rec1, content_fields, salt, policy) is Done,
        spec_build_fingerprint(alg, rec2, content_fields, salt, policy) is Done,
    ensures
        spec_build_fingerprint(alg, rec1, content_fields, salt, policy)->Done_0.1
            == spec_build_fingerprint(alg, rec2, content_fields, salt, policy)->Done_0.1,
{
    law_content_depends_only_on_content_fields(rec1, rec2, content_fields, policy.canon);
}

proof fn lemma_group_ids(fps: Seq<Fingerprint>, h: Seq<u8>)
    ensures
        forall|i: int| 0 <= i < group(fps, h).len() ==> (#[trigger] group(fps, h)[i]).id_hash@ == h,
        forall|i: int| 0 <= i < group(fps, h).len() ==> fps.contains(#[trigger] group(fps, h)[i]),
    decreases fps.len(),
{
    if fps.len() > 0 {
        let d = fps.drop_last();
        lemma_group_ids(d, h);
        let g = group(fps, h);
        assert forall|i: int| 0 <= i < g.len() implies fps.contains(#[trigger] g[i]) by {
            if i < group(d, h).len() {
                assert(g[i] == group(d, h)[i]);
                let j = choose|j: int| 0 <= j < d.len() && d[j] == g[i];
                assert(fps[j] == g[i]);
            } else {
                assert(g[i] == fps.last());
                assert(fps[fps.len() - 1] == g[i]);
            }
        }
    }
}

proof fn lemma_dup_in_recon_over(
    src: Seq<Fingerprint>,
    snk: Seq<Fingerprint>,
    ids: Seq<Seq<u8>>,
    h: Seq<u8>,
)
    requires
        ids.contains(h),
        group(snk, h).len() > group(src, h).len(),
    ensures
        recon_over(src, snk, ids).duplicated.contains(
            (h, group(src, h).len(), group(snk, h).len()),
        ),
    decreases ids.len(),
{
    let d = ids.drop_last();
    let e = (h, group(src, h).len(), group(snk, h).len());
    let r = recon_over(src, snk, d);
    let o = id_outcome(src, snk, ids.last());
    assert(recon_over(src, snk, ids).duplicated == r.duplicated + o.duplicated);
    if ids.last() == h {
        assert(o.duplicated == seq![e]);
        assert((r.duplicated + o.duplicated)[r.duplicated.len() as int] == e);
    } else {
        let i = choose|i: int| 0 <= i < ids.len() && ids[i] == h;
        assert(i < ids.len() - 1);
        assert(d[i] == h);
        lemma_dup_in_recon_over(src, snk, d, h);
        let k = choose|k: int| 0 <= k < r.duplicated.len() && r.duplicated[k] == e;
        assert((r.duplicated + o.duplicated)[k] == e);
    }
}

/// Duplicates are detected: an identity that the sink holds more often than
/// the source is reported with both multiplicities, and when the policy
/// forbids duplicates the verdict is not a pass.
pub proof fn law_duplicate_detected(
    alg: HashAlgorithm,
    src: Seq<Fingerprint>,
    snk: Seq<Fingerprint>,
    tolerances: Tolerances,
    out: ReconcileOutput,
    h: Seq<u8>,
)
    requires
        reconcile_ok(alg, src, snk, tolerances, out),
        group(snk, h).len() > group(src, h).len(),
    ensures
        exists|j: int|
            0 <= j < out.result.duplicated@.len() && (#[trigger] out.result.duplicated@[j]).id_hash@
                == h && out.result.duplicated@[j].source_multiplicity == group(src, h).len()
                && out.result.duplicated@[j].sink_multiplicity == group(snk, h).len(),
        tolerances.duplicates == DuplicatePolicy::Forbid ==> out.result.verdict == Verdict::Fail,
{
    lemma_group_ids(snk, h);
    let x = group(snk, h)[0];
    let k = choose|k: int| 0 <= k < snk.len() && snk[k] == x;
    lemma_id_order(src, snk);
    assert(id_order(src, snk).contains(snk[k].id_hash@));
    lemma_dup_in_recon_over(src, snk, id_order(src, snk), h);
    let sd = spec_reconcile(src, snk).duplicated;
    let e = (h, group(src, h).len(), group(snk, h).len());
    let j = choose|j: int| 0 <= j < sd.len() && sd[j] == e;
    assert(out.result.duplicated@[j].id_hash@ == h);
}

proof fn lemma_mut_in_recon_over(
    src: Seq<Fingerprint>,
    snk: Seq<Fingerprint>,
    ids: Seq<Seq<u8>>,
    h: Seq<u8>,
    e: (Seq<u8>, Hash32, Hash32),
)
    requires
        ids.contains(h),
        id_outcome(src, snk, h).mutated == seq![e],
    ensures
        recon_over(src, snk, ids).mutated.contains(e),
    decreases ids.len(),
{
    let d = ids.drop_last();
    let r = recon_over(src, snk, d);
    let o = id_outcome(src, snk, ids.last());
    assert(recon_over(src, snk, ids).mutated == r.mutated + o.mutated);
    if ids.last() == h {
        assert((r.mutated + o.mutated)[r.mutated.len() as int] == e);
    } else {
        let i = choose|i: int| 0 <= i < ids.len() && ids[i] == h;
        assert(i < ids.len() - 1);
        assert(d[i] == h);
        lemma_mut_in_recon_over(src, snk, d, h, e);
        let k = choose|k: int| 0 <= k < r.mutated.len() && r.mutated[k] == e;
        assert((r.mutated + o.mutated)[k] == e);
    }
}

/// Mutations are detected: when the source and the sink each hold one record
/// of an identity and their contents differ, the identity is reported
/// mutated with both content hashes, and with no mutation tolerated the
/// verdict is a fail.
pub proof fn law_mutation_detected(
    alg: HashAlgorithm,
    src: Seq<Fingerprint>,
    snk: Seq<Fingerprint>,
    tolerances: Tolerances,
    out: ReconcileOutput,
    h: Seq<u8>,
)
    requires
        reconcile_ok(alg, src, snk, tolerances, out),
        group(src, h).len() == 1,
        group(snk, h).len() == 1,
        group(src, h)[0].content_hash != group(snk, h)[0].content_hash,
    ensures
        exists|j: int|
            0 <= j < out.result.mutated@.len() && (#[trigger] out.result.mutated@[j]).id_hash@ == h
                && out.result.mutated@[j].source_content_hash == group(src, h)[0].content_hash
                && out.result.mutated@[j].sink_content_hash == group(snk, h)[0].content_hash,
        tolerances.max_mutations == 0 ==> out.result.verdict == Verdict::Fail,
{
    let s = group(src, h);
    let k = group(snk, h);
    let a = s[0];
    let b = k[0];
    assert(k.drop_first().len() == 0);
    assert(find_content(k.drop_first(), a.content_hash) is None);
    assert(find_content(k, a.content_hash) is None);
    assert(s.drop_first() =~= Seq::<Fingerprint>::empty());
    let g0 = greedy(s.drop_first(), k);
    assert(g0.k_rest == k);
    assert(g0.s_rest =~= Seq::<Fingerprint>::empty());
    let g = greedy(s, k);
    assert(g.s_rest == seq![a] + g0.s_rest);
    assert(g.s_rest =~= seq![a]);
    assert(g.k_rest == k);
    let e = (h, a.content_hash, b.content_hash);
    assert(id_outcome(src, snk, h).mutated =~= seq![e]);
    lemma_group_ids(src, h);
    let i = choose|i: int| 0 <= i < src.len() && src[i] == a;
    lemma_id_order(src, snk);
    assert(id_order(src, snk).contains(src[i].id_hash@));
    lemma_mut_in_recon_over(src, snk, id_order(src, snk), h, e);
    let sm = spec_reconcile(src, snk).mutated;
    let j = choose|j: int| 0 <= j < sm.len() && sm[j] == e;
    assert(out.result.mutated@[j].id_hash@ == h);
}

proof fn lemma_dup_only_extra(
    src: Seq<Fingerprint>,
    snk: Seq<Fingerprint>,
    ids: Seq<Seq<u8>>,
    e: (Seq<u8>, nat, nat),
)
    requires
        recon_over(src, snk, ids).duplicated.contains(e),
    ensures
        e.1 == group(src, e.0).len() && e.2 == group(snk, e.0).len() && e.2 > e.1,
    decreases ids.len(),
{
    let d = ids.drop_last();
    let r = recon_over(src, snk, d);
    let o = id_outcome(src, snk, ids.last());
    let all = recon_over(src, snk, ids).duplicated;
    assert(all == r.duplicated + o.duplicated);
    let k = choose|k: int| 0 <= k < all.len() && all[k] == e;
    if k < r.duplicated.len() {
        assert(r.duplicated[k] == e);
        lemma_dup_only_extra(src, snk, d, e);
    } else {
        assert(o.duplicated[k - r.duplicated.len()] == e);
    }
}

/// Only extra sink copies are duplicates: every reported duplicate names an
/// identity that the sink holds more often than the source, with both
/// multiplicities; so when the sink never holds an identity more often than
/// the source, nothing is reported duplicated.
pub proof fn law_duplicates_are_extra_copies(
    alg: HashAlgorithm,
    src: Seq<Fingerprint>,
    snk: Seq<Fingerprint>,
    tolerances: Tolerances,
    out: ReconcileOutput,
)
    requires
        reconcile_ok(alg, src, snk, tolerances, out),
    ensures
        forall|j: int|
            0 <= j < out.result.duplicated@.len() ==> {
                let d = #[trigger] out.result.duplicated@[j];
                &&& d.source_multiplicity == group(src, d.id_hash@).len()
                &&& d.sink_multiplicity == group(snk, d.id_hash@).len()
                &&& d.sink_multiplicity > d.source_multiplicity
            },
        (forall|h: Seq<u8>| group(snk, h).len() <= #[trigger] group(src, h).len())
            ==> out.result.duplicated@.len() == 0,
{
    let sd = spec_reconcile(src, snk).duplicated;
    assert forall|j: int| 0 <= j < out.result.duplicated@.len() implies {
        let d = #[trigger] out.result.duplicated@[j];
        &&& d.source_multiplicity == group(src, d.id_hash@).len()
        &&& d.sink_multiplicity == group(snk, d.id_hash@).len()
        &&& d.sink_multiplicity > d.source_multiplicity
    } by {
        assert(sd.contains(sd[j]));
        lemma_dup_only_extra(src, snk, id_order(src, snk), sd[j]);
    }
    if out.result.duplicated@.len() > 0 {
        let d = out.result.duplicated@[0];
        assert(sd.contains(sd[0]));
        lemma_dup_only_extra(src, snk, id_order(src, snk), sd[0]);
        assert(group(snk, d.id_hash@).len() > group(src, d.id_hash@).len());
    }
}

} // verus!
