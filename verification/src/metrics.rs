//! Counters of reconcile and verify operations, in Prometheus text format.

use vstd::prelude::*;

use crate::text::{decimal_text, push_decimal};

verus! {

/// Operation counters.
#[derive(Debug)]
pub struct Metrics {
    pub reconcile_total: u64,
    pub verify_pass: u64,
    pub verify_fail: u64,
}

impl Default for Metrics {
    fn default() -> (r: Self)
        ensures
            r.reconcile_total == 0,
            r.verify_pass == 0,
            r.verify_fail == 0,
    {
        Metrics { reconcile_total: 0, verify_pass: 0, verify_fail: 0 }
    }
}

/// The Prometheus exposition of the three counters.
pub open spec fn prometheus_text(reconcile_total: u64, verify_pass: u64, verify_fail: u64) -> Seq<
    char,
> {
    "# HELP veridata_reconcile_total Reconcile operations completed\n"@
        + "# TYPE veridata_reconcile_total counter\n"@ + "veridata_reconcile_total "@
        + decimal_text(reconcile_total as nat) + "\n"@
        + "# HELP veridata_verify_outcome_total Verify outcomes by result\n"@
        + "# TYPE veridata_verify_outcome_total counter\n"@
        + "veridata_verify_outcome_total{result=\"pass\"} "@ + decimal_text(verify_pass as nat)
        + "\n"@ + "veridata_verify_outcome_total{result=\"fail\"} "@ + decimal_text(
        verify_fail as nat,
    ) + "\n"@
}

impl Metrics {
    /// Counts one completed reconcile.
    pub fn record_reconcile(&mut self)
        requires
            old(self).reconcile_total < u64::MAX,
        ensures
            final(self).reconcile_total == old(self).reconcile_total + 1,
            final(self).verify_pass == old(self).verify_pass,
            final(self).verify_fail == old(self).verify_fail,
    {
        self.reconcile_total += 1;
    }

    /// Counts one verify outcome, passed or failed.
    pub fn record_verify(&mut self, pass: bool)
        requires
            pass ==> old(self).verify_pass < u64::MAX,
            !pass ==> old(self).verify_fail < u64::MAX,
        ensures
            final(self).reconcile_total == old(self).reconcile_total,
            final(self).verify_pass == old(self).verify_pass + (if pass { 1int } else { 0int }),
            final(self).verify_fail == old(self).verify_fail + (if pass { 0int } else { 1int }),
    {
        if pass {
            self.verify_pass += 1;
        } else {
            self.verify_fail += 1;
        }
    }

    /// The counters in Prometheus text exposition format.
    pub fn render_prometheus(&self) -> (r: String)
        ensures
            r@ == prometheus_text(self.reconcile_total, self.verify_pass, self.verify_fail),
    {
        let mut out = String::new();
        out.append("# HELP veridata_reconcile_total Reconcile operations completed\n");
        out.append("# TYPE veridata_reconcile_total counter\n");
        out.append("veridata_reconcile_total ");
        push_decimal(&mut out, self.reconcile_total);
        out.append("\n");
        out.append("# HELP veridata_verify_outcome_total Verify outcomes by result\n");
        out.append("# TYPE veridata_verify_outcome_total counter\n");
        out.append("veridata_verify_outcome_total{result=\"pass\"} ");
        push_decimal(&mut out, self.verify_pass);
        out.append("\n");
        out.append("veridata_verify_outcome_total{result=\"fail\"} ");
        push_decimal(&mut out, self.verify_fail);
        out.append("\n");
        assert(out@ =~= prometheus_text(self.reconcile_total, self.verify_pass, self.verify_fail));
        out
    }
}

} // verus!
