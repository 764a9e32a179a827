//! Fault injection for end-to-end runs, and the check that a proof holds no
//! raw record values.

use vstd::prelude::*;

verus! {

/// A fault injected into the rows written to the sink.
#[derive(Debug, Clone, Copy)]
pub enum Fault {
    NoFault,
    Drop(usize),
    Duplicate(usize),
    Mutate { index: usize, field: &'static str, value: &'static str },
}

impl Default for Fault {
    fn default() -> (r: Self)
        ensures
            r is NoFault,
    {
        Fault::NoFault
    }
}

/// What an ingest wrote.
pub struct IngestResult {
    pub snapshot_id: i64,
    pub rows_written: usize,
}

/// What a fault does to a list of `len` rows.
#[derive(Debug, Clone, Copy, PartialEq, Eq)]
pub enum FaultAction {
    /// Leave the rows as they are.
    Keep,
    /// Remove the row at this index.
    Remove(usize),
    /// Append a copy of the row at this index.
    AppendCopy(usize),
    /// Set a field of the row at this index, if the row is an object.
    SetField { index: usize, field: &'static str, value: &'static str },
}

/// The action of a fault on `len` rows: a fault whose index is out of range
/// leaves the rows alone.
pub open spec fn spec_fault_action(fault: Fault, len: usize) -> FaultAction {
    match fault {
        Fault::NoFault => FaultAction::Keep,
        Fault::Drop(i) => if i < len {
            FaultAction::Remove(i)
        } else {
            FaultAction::Keep
        },
        Fault::Duplicate(i) => if i < len {
            FaultAction::AppendCopy(i)
        } else {
            FaultAction::Keep
        },
        Fault::Mutate { index, field, value } => if index < len {
            FaultAction::SetField { index, field, value }
        } else {
            FaultAction::Keep
        },
    }
}

/// The action of a fault on `len` rows.
pub fn fault_action(fault: Fault, len: usize) -> (r: FaultAction)
    ensures
        r == spec_fault_action(fault, len),
{
    match fault {
        Fault::NoFault => FaultAction::Keep,
        Fault::Drop(i) => if i < len {
            FaultAction::Remove(i)
        } else {
            FaultAction::Keep
        },
        Fault::Duplicate(i) => if i < len {
            FaultAction::AppendCopy(i)
        } else {
            FaultAction::Keep
        },
        Fault::Mutate { index, field, value } => if index < len {
            FaultAction::SetField { index, field, value }
        } else {
            FaultAction::Keep
        },
    }
}

/// `p` occurs in `s` as a contiguous piece (the empty text occurs everywhere).
pub open spec fn occurs_in(s: Seq<char>, p: Seq<char>) -> bool {
    exists|i: int| 0 <= i && i + p.len() <= s.len() && #[trigger] s.subrange(i, i + p.len()) == p
}

fn occurs_at(s: &str, p: &str, i: usize, m: usize) -> (r: bool)
    requires
        m == p@.len(),
        i + m <= s@.len(),
        s@.len() <= usize::MAX,
    ensures
        r == (s@.subrange(i as int, i + m) == p@),
{
    let mut j: usize = 0;
    while j < m
        invariant
            0 <= j <= m,
            m == p@.len(),
            i + m <= s@.len(),
            s@.len() <= usize::MAX,
            forall|k: int| 0 <= k < j ==> s@[i + k] == p@[k],
        decreases m - j,
    {
        if s.get_char(i + j) != p.get_char(j) {
            assert(s@.subrange(i as int, i + m)[j as int] != p@[j as int]);
            return false;
        }
        j = j + 1;
    }
    assert(s@.subrange(i as int, i + m) =~= p@);
    true
}

/// Tests whether `p` occurs in `s`.
pub fn str_contains(s: &str, p: &str) -> (r: bool)
    ensures
        r == occurs_in(s@, p@),
{
    let n = s.unicode_len();
    let m = p.unicode_len();
    if m > n {
        return false;
    }
    let last = n - m;
    let mut i: usize = 0;
    loop
        invariant_except_break
            0 <= i <= last,
            n == s@.len(),
            m == p@.len(),
            m <= n,
            last == n - m,
            forall|k: int| 0 <= k < i ==> #[trigger] s@.subrange(k, k + m) != p@,
        ensures
            forall|k: int| 0 <= k <= last ==> #[trigger] s@.subrange(k, k + m) != p@,
            last == n - m,
            m == p@.len(),
            n == s@.len(),
        decreases last - i,
    {
        if occurs_at(s, p, i, m) {
            return true;
        }
        if i == last {
            break;
        }
        i = i + 1;
    }
    false
}

/// The index of the first sample that occurs in a serialized proof, if any.
pub fn first_leaked_value(vrp_json: &str, samples: &[&str]) -> (r: Option<usize>)
    ensures
        match r {
            Some(k) => k < samples@.len() && occurs_in(vrp_json@, samples@[k as int]@) && forall|
                j: int,
            | 0 <= j < k ==> !occurs_in(vrp_json@, #[trigger] samples@[j]@),
            None => forall|j: int|
                0 <= j < samples@.len() ==> !occurs_in(vrp_json@, #[trigger] samples@[j]@),
        },
{
    let mut k: usize = 0;
    while k < samples.len()
        invariant
            0 <= k <= samples@.len(),
            forall|j: int| 0 <= j < k ==> !occurs_in(vrp_json@, #[trigger] samples@[j]@),
        decreases samples@.len() - k,
    {
        if str_contains(vrp_json, samples[k]) {
            return Some(k);
        }
        k = k + 1;
    }
    None
}

} // verus!
