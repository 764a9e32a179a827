//! Naming and choosing proof documents in a proof store.

use vstd::prelude::*;

use crate::text::{copy_string, ends_with, str_ends_with};

verus! {

/// The file name of a proof: its id with `.vrp.json`.
pub fn proof_file_name(proof_id: &str) -> (r: String)
    ensures
        r@ == proof_id@ + ".vrp.json"@,
{
    let mut out = copy_string(proof_id);
    out.append(".vrp.json");
    out
}

/// The object key of a name under a prefix (the name itself without one).
pub fn object_key(prefix: &str, name: &str) -> (r: String)
    ensures
        r@ == (if prefix@.len() == 0 {
            name@
        } else {
            prefix@ + "/"@ + name@
        }),
{
    if prefix.unicode_len() == 0 {
        copy_string(name)
    } else {
        let mut out = copy_string(prefix);
        out.append("/");
        out.append(name);
        out
    }
}

/// The entry is a proof document (its name ends with `.vrp.json`).
pub open spec fn is_proof_entry(e: (Seq<char>, u64)) -> bool {
    ends_with(e.0, ".vrp.json"@)
}

/// The views of listed objects: name and modification time.
pub open spec fn listing_view(v: Seq<(String, u64)>) -> Seq<(Seq<char>, u64)> {
    v.map_values(|e: (String, u64)| (e.0@, e.1))
}

/// The latest proof among the first `n` listed objects: the first proof
/// entry with the greatest modification time.
pub open spec fn latest_upto(entries: Seq<(Seq<char>, u64)>, n: int) -> Option<int>
    decreases n,
{
    if n <= 0 {
        None
    } else {
        let best = latest_upto(entries, n - 1);
        let e = entries[n - 1];
        if !is_proof_entry(e) {
            best
        } else {
            match best {
                None => Some(n - 1),
                Some(b) => if e.1 > entries[b].1 {
                    Some(n - 1)
                } else {
                    Some(b)
                },
            }
        }
    }
}

/// The position of the latest proof in a listing of objects with their
/// modification times: the first proof with the greatest time.
pub fn latest_object(entries: &[(String, u64)]) -> (r: Option<usize>)
    ensures
        r matches Some(i) ==> (i as int) < entries@.len(),
        r == (match latest_upto(listing_view(entries@), entries@.len() as int) {
            Some(i) => Some(i as usize),
            None => None::<usize>,
        }),
{
    let ghost ev = listing_view(entries@);
    let mut best: Option<usize> = None;
    let mut i: usize = 0;
    while i < entries.len()
        invariant
            0 <= i <= entries@.len(),
            ev == listing_view(entries@),
            best == (match latest_upto(ev, i as int) {
                Some(j) => Some(j as usize),
                None => None::<usize>,
            }),
            latest_upto(ev, i as int) matches Some(j) ==> 0 <= j < i,
        decreases entries@.len() - i,
    {
        let e = &entries[i];
        assert(ev[i as int] == (e.0@, e.1));
        if str_ends_with(e.0.as_str(), ".vrp.json") {
            match best {
                None => {
                    best = Some(i);
                },
                Some(b) => {
                    assert(ev[b as int] == (entries@[b as int].0@, entries@[b as int].1));
                    if e.1 > entries[b].1 {
                        best = Some(i);
                    }
                },
            }
        }
        i = i + 1;
    }
    best
}

} // verus!
