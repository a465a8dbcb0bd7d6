//! The legacy (v1) scheduling document: symbolic tiers plus sparse bindings.

use vstd::prelude::*;
use crate::text::str_eq;

verus! {

/// Top-level system scheduling document.
#[derive(Clone, Debug, PartialEq, Eq)]
pub struct SystemSched {
    /// Symbolic tiers keyed by name.
    pub tiers: Vec<(String, TierDef)>,
    /// Sparse node-to-tier binding rules.
    pub assign: Vec<AssignRule>,
}

/// `[tiers.<name>]`: the portable head plus per-platform sub-tables. The head
/// carries no priority number; placement lives in the sub-tables.
#[derive(Clone, Debug, PartialEq, Eq)]
pub struct TierDef {
    /// `best_effort | real_time | time_triggered | interrupt`.
    pub class: Option<String>,
    /// Generic relative deadline (us).
    pub deadline_us: Option<u64>,
    /// Callback period (us).
    pub period_us: Option<u64>,
    /// Execution-time budget (us).
    pub budget_us: Option<u64>,
    /// `ignore | warn | skip | fault`.
    pub deadline_policy: Option<String>,
    /// Executor spin period (us).
    pub spin_period_us: Option<u64>,
    pub posix: Option<TierPlatformSpec>,
    pub freertos: Option<TierPlatformSpec>,
    pub zephyr: Option<TierPlatformSpec>,
    pub threadx: Option<TierPlatformSpec>,
    pub nuttx: Option<TierPlatformSpec>,
}

/// `[tiers.<name>.<target>]`: concrete per-platform placement.
#[derive(Clone, Debug, PartialEq, Eq)]
pub struct TierPlatformSpec {
    pub priority: i64,
    pub stack_bytes: Option<u32>,
    /// CPU core to pin to; `None` means unpinned.
    pub core: Option<u32>,
    /// POSIX scheduler class (e.g. `"SCHED_FIFO"`).
    pub sched_class: Option<String>,
    /// ThreadX preemption threshold.
    pub preempt_threshold: Option<i64>,
    /// Per-platform deadline override (us).
    pub deadline_us: Option<u64>,
    /// Per-platform sporadic execution budget (us).
    pub budget_us: Option<u64>,
    /// Per-platform sporadic replenishment period (us).
    pub period_us: Option<u64>,
    /// Per-platform round-robin time slice (us).
    pub time_slice_us: Option<u64>,
}

/// A sparse binding rule: a node matches if it is named in `nodes` or falls
/// under `scope`. Explicit `nodes` matches win over `scope` matches.
#[derive(Clone, Debug, PartialEq, Eq)]
pub struct AssignRule {
    pub tier: String,
    pub nodes: Vec<String>,
    pub scope: Option<String>,
}

/// The sub-table a resolve target reads.
pub open spec fn platform_of(t: TierDef, target: Seq<char>) -> Option<TierPlatformSpec> {
    if target == "posix"@ || target == "native"@ {
        t.posix
    } else if target == "freertos"@ {
        t.freertos
    } else if target == "zephyr"@ {
        t.zephyr
    } else if target == "threadx"@ {
        t.threadx
    } else if target == "nuttx"@ {
        t.nuttx
    } else {
        None
    }
}

impl TierDef {
    /// Pick the placement sub-table for a resolve target.
    pub fn platform(&self, target: &str) -> (r: Option<&TierPlatformSpec>)
        ensures
            match r {
                Some(s) => platform_of(*self, target@) == Some(*s),
                None => platform_of(*self, target@) is None,
            },
    {
        if str_eq(target, "posix") || str_eq(target, "native") {
            self.posix.as_ref()
        } else if str_eq(target, "freertos") {
            self.freertos.as_ref()
        } else if str_eq(target, "zephyr") {
            self.zephyr.as_ref()
        } else if str_eq(target, "threadx") {
            self.threadx.as_ref()
        } else if str_eq(target, "nuttx") {
            self.nuttx.as_ref()
        } else {
            None
        }
    }
}

} // verus!
