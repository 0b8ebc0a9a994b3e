//! Per-run statistics kept by a harness that drives repeated solve
//! attempts: how many attempts ran and how many of them failed.

use vstd::prelude::*;

verus! {

/// Counters behind a crash-rate report: executions seen so far and how
/// many of them crashed.
#[derive(Clone, Copy, Debug, PartialEq, Eq, Structural)]
pub struct CrashRateMetadata {
    pub crashes: u64,
    pub executions: u64,
}

impl Default for CrashRateMetadata {
    /// Fresh counters, before any execution ran.
    fn default() -> (m: CrashRateMetadata)
        ensures
            m.crashes == 0,
            m.executions == 0,
    {
        CrashRateMetadata { crashes: 0, executions: 0 }
    }
}

impl CrashRateMetadata {
    /// Fresh counters, before any execution ran.
    pub fn new() -> (m: CrashRateMetadata)
        ensures
            m.crashes == 0,
            m.executions == 0,
    {
        CrashRateMetadata { crashes: 0, executions: 0 }
    }

    /// Records one finished execution and whether it crashed.
    pub fn record_execution(&mut self, crashed: bool)
        requires
            old(self).executions < u64::MAX,
            old(self).crashes < u64::MAX,
        ensures
            final(self).executions == old(self).executions + 1,
            final(self).crashes == old(self).crashes + (if crashed {
                1int
            } else {
                0int
            }),
    {
        self.executions = self.executions + 1;
        if crashed {
            self.crashes = self.crashes + 1;
        }
    }
}

} // verus!
