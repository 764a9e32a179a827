//! The outcome of environment checks.

use vstd::prelude::*;

verus! {

/// Named checks, each passed or failed, with a detail.
pub struct DoctorReport {
    pub checks: Vec<(String, bool, String)>,
}

impl DoctorReport {
    /// Every check passed.
    pub fn all_ok(&self) -> (r: bool)
        ensures
            r == forall|i: int| 0 <= i < self.checks@.len() ==> #[trigger] self.checks@[i].1,
    {
        let mut i: usize = 0;
        while i < self.checks.len()
            invariant
                0 <= i <= self.checks@.len(),
                forall|j: int| 0 <= j < i ==> #[trigger] self.checks@[j].1,
            decreases self.checks@.len() - i,
        {
            if !self.checks[i].1 {
                return false;
            }
            i = i + 1;
        }
        true
    }
}

} // verus!
