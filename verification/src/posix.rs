//! Typed `posix` (Linux) scheduling placement.
//!
//! Replaces the stringly-typed trio (`sched_class`, `priority`, `core`) with
//! types that cannot represent what Linux cannot execute: `SCHED_BATCH` has no
//! priority, `SCHED_FIFO` has no nice value, and `SCHED_DEADLINE` carries a
//! reservation instead of either. Unknown class names fail closed.

use vstd::prelude::*;
use crate::text::{
    debug_quoted, int_text, nat_text, push_debug_quoted, push_int, push_nat, push_str, trim,
    trimmed_chars, chars_eq_str, from_chars,
};
use crate::platform::{POSIX_RT_PRIORITY_MIN, POSIX_RT_PRIORITY_MAX};

verus! {

/// Errors building or validating a [`PosixPlacement`].
#[derive(Debug, Clone, PartialEq, Eq)]
pub enum PosixError {
    UnknownSchedClass { value: String },
    DeadlineWithCpuMask,
    PriorityOutOfRange { priority: i64, min: i64, max: i64 },
    NiceOutOfRange { nice: i64 },
    UclampOutOfRange { min: u32, max: u32 },
    EmptyCpuMask,
    DeadlineParamsUnordered { runtime_ns: u64, deadline_ns: u64, period_ns: u64 },
}

/// The largest legal utilization-clamp value (the kernel's scale is 0..=1024).
pub const UCLAMP_MAX: u32 = 1024;

/// The message for an unrecognized `sched_class` spelling `v`.
pub open spec fn unknown_class_text(v: Seq<char>) -> Seq<char> {
    "unknown POSIX scheduling class "@ + debug_quoted(v)
        + "; expected one of SCHED_OTHER, SCHED_BATCH, SCHED_IDLE, SCHED_FIFO, SCHED_RR, SCHED_DEADLINE"@
}

/// The human-readable text of a [`PosixError`].
pub open spec fn posix_error_text(e: PosixError) -> Seq<char> {
    match e {
        PosixError::UnknownSchedClass { value } => unknown_class_text(value@),
        PosixError::DeadlineWithCpuMask => "SCHED_DEADLINE cannot use an explicit CPU mask: a deadline thread's affinity may not be narrower than the root domain it was created on, so sched_setaffinity(2) returns EPERM. Use an exclusive cpuset partition instead."@,
        PosixError::PriorityOutOfRange { priority, min, max } => "real-time priority "@ + int_text(
            priority as int,
        ) + " is out of range "@ + int_text(min as int) + "..="@ + int_text(max as int),
        PosixError::NiceOutOfRange { nice } => "nice value "@ + int_text(nice as int)
            + " is out of range -20..=19"@,
        PosixError::UclampOutOfRange { min, max } => "uclamp range "@ + nat_text(min as nat)
            + "..="@ + nat_text(max as nat) + " is invalid (need min <= max <= 1024)"@,
        PosixError::EmptyCpuMask => "an empty CPU mask names no CPU to run on"@,
        PosixError::DeadlineParamsUnordered { runtime_ns, deadline_ns, period_ns } =>
            "SCHED_DEADLINE requires runtime <= deadline <= period, got "@ + nat_text(
            runtime_ns as nat,
        ) + "/"@ + nat_text(deadline_ns as nat) + "/"@ + nat_text(period_ns as nat) + " ns"@,
    }
}

impl PosixError {
    /// The message this error reads as.
    pub fn message(&self) -> (r: String)
        ensures
            r@ == posix_error_text(*self),
    {
        let mut s = String::new();
        match self {
            PosixError::UnknownSchedClass { value } => {
                push_str(&mut s, "unknown POSIX scheduling class ");
                push_debug_quoted(&mut s, value.as_str());
                push_str(
                    &mut s,
                    "; expected one of SCHED_OTHER, SCHED_BATCH, SCHED_IDLE, SCHED_FIFO, SCHED_RR, SCHED_DEADLINE",
                );
            },
            PosixError::DeadlineWithCpuMask => {
                push_str(
                    &mut s,
                    "SCHED_DEADLINE cannot use an explicit CPU mask: a deadline thread's affinity may not be narrower than the root domain it was created on, so sched_setaffinity(2) returns EPERM. Use an exclusive cpuset partition instead.",
                );
            },
            PosixError::PriorityOutOfRange { priority, min, max } => {
                push_str(&mut s, "real-time priority ");
                push_int(&mut s, *priority);
                push_str(&mut s, " is out of range ");
                push_int(&mut s, *min);
                push_str(&mut s, "..=");
                push_int(&mut s, *max);
            },
            PosixError::NiceOutOfRange { nice } => {
                push_str(&mut s, "nice value ");
                push_int(&mut s, *nice);
                push_str(&mut s, " is out of range -20..=19");
            },
            PosixError::UclampOutOfRange { min, max } => {
                push_str(&mut s, "uclamp range ");
                push_nat(&mut s, *min as u64);
                push_str(&mut s, "..=");
                push_nat(&mut s, *max as u64);
                push_str(&mut s, " is invalid (need min <= max <= 1024)");
            },
            PosixError::EmptyCpuMask => {
                push_str(&mut s, "an empty CPU mask names no CPU to run on");
            },
            PosixError::DeadlineParamsUnordered { runtime_ns, deadline_ns, period_ns } => {
                push_str(&mut s, "SCHED_DEADLINE requires runtime <= deadline <= period, got ");
                push_nat(&mut s, *runtime_ns);
                push_str(&mut s, "/");
                push_nat(&mut s, *deadline_ns);
                push_str(&mut s, "/");
                push_nat(&mut s, *period_ns);
                push_str(&mut s, " ns");
            },
        }
        assert(s@ =~= posix_error_text(*self));
        s
    }
}

/// Which Linux scheduling policy, naming only the parameters that policy has.
#[derive(Clone, Copy, Debug, PartialEq, Eq, Structural)]
pub enum PosixSched {
    /// `SCHED_IDLE`.
    Idle,
    /// `SCHED_BATCH`.
    Batch { nice: i32 },
    /// `SCHED_OTHER`, the default CFS policy.
    Other { nice: i32 },
    /// `SCHED_FIFO`.
    Fifo { priority: i32 },
    /// `SCHED_RR`.
    Rr { priority: i32 },
    /// `SCHED_DEADLINE`: a reservation of `runtime` every `period`, due within `deadline`.
    Deadline { runtime_ns: u64, deadline_ns: u64, period_ns: u64, overrun: bool },
}

/// The six values `sched_class` may legally take.
#[derive(Clone, Copy, Debug, PartialEq, Eq, Structural)]
pub enum PosixPolicyKind {
    Other,
    Batch,
    Idle,
    Fifo,
    Rr,
    Deadline,
}

/// The policy a (trimmed) `sched_class` spelling names, if any.
pub open spec fn policy_of(t: Seq<char>) -> Option<PosixPolicyKind> {
    if t == "SCHED_OTHER"@ || t == "SCHED_NORMAL"@ {
        Some(PosixPolicyKind::Other)
    } else if t == "SCHED_BATCH"@ {
        Some(PosixPolicyKind::Batch)
    } else if t == "SCHED_IDLE"@ {
        Some(PosixPolicyKind::Idle)
    } else if t == "SCHED_FIFO"@ {
        Some(PosixPolicyKind::Fifo)
    } else if t == "SCHED_RR"@ {
        Some(PosixPolicyKind::Rr)
    } else if t == "SCHED_DEADLINE"@ {
        Some(PosixPolicyKind::Deadline)
    } else {
        None
    }
}

/// The canonical spelling of a policy.
pub open spec fn policy_name(k: PosixPolicyKind) -> Seq<char> {
    match k {
        PosixPolicyKind::Other => "SCHED_OTHER"@,
        PosixPolicyKind::Batch => "SCHED_BATCH"@,
        PosixPolicyKind::Idle => "SCHED_IDLE"@,
        PosixPolicyKind::Fifo => "SCHED_FIFO"@,
        PosixPolicyKind::Rr => "SCHED_RR"@,
        PosixPolicyKind::Deadline => "SCHED_DEADLINE"@,
    }
}

pub open spec fn policy_is_real_time(k: PosixPolicyKind) -> bool {
    k is Fifo || k is Rr || k is Deadline
}

impl PosixPolicyKind {
    /// Parse a `sched_class` string (surrounding whitespace ignored),
    /// failing closed on anything that is not one of the legal spellings.
    pub fn parse(value: &str) -> (r: Result<Self, PosixError>)
        ensures
            match policy_of(trim(value@)) {
                Some(k) => r == Ok::<Self, PosixError>(k),
                None => r matches Err(PosixError::UnknownSchedClass { value: v }) && v@ == trim(
                    value@,
                ),
            },
    {
        let t = trimmed_chars(value);
        let ts = t.as_slice();
        if chars_eq_str(ts, "SCHED_OTHER") || chars_eq_str(ts, "SCHED_NORMAL") {
            Ok(PosixPolicyKind::Other)
        } else if chars_eq_str(ts, "SCHED_BATCH") {
            Ok(PosixPolicyKind::Batch)
        } else if chars_eq_str(ts, "SCHED_IDLE") {
            Ok(PosixPolicyKind::Idle)
        } else if chars_eq_str(ts, "SCHED_FIFO") {
            Ok(PosixPolicyKind::Fifo)
        } else if chars_eq_str(ts, "SCHED_RR") {
            Ok(PosixPolicyKind::Rr)
        } else if chars_eq_str(ts, "SCHED_DEADLINE") {
            Ok(PosixPolicyKind::Deadline)
        } else {
            Err(PosixError::UnknownSchedClass { value: from_chars(ts) })
        }
    }

    /// The canonical spelling, for round-tripping.
    pub fn as_str(self) -> (r: &'static str)
        ensures
            r@ == policy_name(self),
    {
        match self {
            PosixPolicyKind::Other => "SCHED_OTHER",
            PosixPolicyKind::Batch => "SCHED_BATCH",
            PosixPolicyKind::Idle => "SCHED_IDLE",
            PosixPolicyKind::Fifo => "SCHED_FIFO",
            PosixPolicyKind::Rr => "SCHED_RR",
            PosixPolicyKind::Deadline => "SCHED_DEADLINE",
        }
    }

    /// Is this one of the real-time policies (`SCHED_FIFO`/`RR`/`DEADLINE`)?
    pub fn is_real_time(self) -> (r: bool)
        ensures
            r == policy_is_real_time(self),
    {
        match self {
            PosixPolicyKind::Fifo | PosixPolicyKind::Rr | PosixPolicyKind::Deadline => true,
            _ => false,
        }
    }
}

pub open spec fn sched_kind(s: PosixSched) -> PosixPolicyKind {
    match s {
        PosixSched::Idle => PosixPolicyKind::Idle,
        PosixSched::Batch { .. } => PosixPolicyKind::Batch,
        PosixSched::Other { .. } => PosixPolicyKind::Other,
        PosixSched::Fifo { .. } => PosixPolicyKind::Fifo,
        PosixSched::Rr { .. } => PosixPolicyKind::Rr,
        PosixSched::Deadline { .. } => PosixPolicyKind::Deadline,
    }
}

pub open spec fn sched_priority(s: PosixSched) -> Option<i32> {
    match s {
        PosixSched::Fifo { priority } => Some(priority),
        PosixSched::Rr { priority } => Some(priority),
        _ => None,
    }
}

impl PosixSched {
    pub fn kind(&self) -> (r: PosixPolicyKind)
        ensures
            r == sched_kind(*self),
    {
        match self {
            PosixSched::Idle => PosixPolicyKind::Idle,
            PosixSched::Batch { .. } => PosixPolicyKind::Batch,
            PosixSched::Other { .. } => PosixPolicyKind::Other,
            PosixSched::Fifo { .. } => PosixPolicyKind::Fifo,
            PosixSched::Rr { .. } => PosixPolicyKind::Rr,
            PosixSched::Deadline { .. } => PosixPolicyKind::Deadline,
        }
    }

    /// The fixed priority, for the two policies that have one. `None` for
    /// `SCHED_DEADLINE`, which has no priority at all.
    pub fn priority(&self) -> (r: Option<i32>)
        ensures
            r == sched_priority(*self),
    {
        match self {
            PosixSched::Fifo { priority } => Some(*priority),
            PosixSched::Rr { priority } => Some(*priority),
            _ => None,
        }
    }

    pub fn is_real_time(&self) -> (r: bool)
        ensures
            r == policy_is_real_time(sched_kind(*self)),
    {
        self.kind().is_real_time()
    }

    /// Only `SCHED_DEADLINE` requires `SCHED_FLAG_RESET_ON_FORK`.
    pub fn requires_reset_on_fork(&self) -> (r: bool)
        ensures
            r == (*self is Deadline),
    {
        match self {
            PosixSched::Deadline { .. } => true,
            _ => false,
        }
    }
}

/// How a placement constrains which CPUs a node may run on.
#[derive(Clone, Debug, PartialEq, Eq)]
pub enum PosixAffinity {
    /// Leave affinity alone.
    Inherit,
    /// An explicit CPU mask.
    Cpus { cpus: Vec<u32> },
    /// Membership of a cgroup v2 cpuset partition, named by path.
    Cpuset { path: String },
}

/// A complete `posix` placement for one tier.
#[derive(Clone, Debug, PartialEq, Eq)]
pub struct PosixPlacement {
    pub sched: PosixSched,
    pub affinity: PosixAffinity,
    /// Utilization clamp `(min, max)` on the kernel's 0..=1024 scale.
    pub uclamp: Option<(u32, u32)>,
}

/// What is wrong with the scheduling policy's own parameters, if anything.
pub open spec fn sched_error(s: PosixSched) -> Option<PosixError> {
    match s {
        PosixSched::Fifo { priority } => if !(POSIX_RT_PRIORITY_MIN <= priority
            <= POSIX_RT_PRIORITY_MAX) {
            Some(
                PosixError::PriorityOutOfRange {
                    priority: priority as i64,
                    min: POSIX_RT_PRIORITY_MIN,
                    max: POSIX_RT_PRIORITY_MAX,
                },
            )
        } else {
            None
        },
        PosixSched::Rr { priority } => if !(POSIX_RT_PRIORITY_MIN <= priority
            <= POSIX_RT_PRIORITY_MAX) {
            Some(
                PosixError::PriorityOutOfRange {
                    priority: priority as i64,
                    min: POSIX_RT_PRIORITY_MIN,
                    max: POSIX_RT_PRIORITY_MAX,
                },
            )
        } else {
            None
        },
        PosixSched::Other { nice } => if !(-20 <= nice <= 19) {
            Some(PosixError::NiceOutOfRange { nice: nice as i64 })
        } else {
            None
        },
        PosixSched::Batch { nice } => if !(-20 <= nice <= 19) {
            Some(PosixError::NiceOutOfRange { nice: nice as i64 })
        } else {
            None
        },
        PosixSched::Deadline { runtime_ns, deadline_ns, period_ns, .. } => if !(runtime_ns
            <= deadline_ns && deadline_ns <= period_ns) {
            Some(PosixError::DeadlineParamsUnordered { runtime_ns, deadline_ns, period_ns })
        } else {
            None
        },
        PosixSched::Idle => None,
    }
}

/// What is wrong with a utilization clamp, if anything.
pub open spec fn uclamp_error(u: Option<(u32, u32)>) -> Option<PosixError> {
    match u {
        Some((min, max)) => if min > max || max > UCLAMP_MAX {
            Some(PosixError::UclampOutOfRange { min, max })
        } else {
            None
        },
        None => None,
    }
}

/// The first reason Linux could not execute placement `p`, in the order
/// the checks are made: policy parameters, then affinity, then uclamp.
pub open spec fn placement_error(p: PosixPlacement) -> Option<PosixError> {
    if sched_error(p.sched) is Some {
        sched_error(p.sched)
    } else if p.affinity matches PosixAffinity::Cpus { cpus } && cpus@.len() == 0 {
        Some(PosixError::EmptyCpuMask)
    } else if p.affinity is Cpus && p.sched is Deadline {
        Some(PosixError::DeadlineWithCpuMask)
    } else {
        uclamp_error(p.uclamp)
    }
}

impl PosixPlacement {
    /// Build and validate in one step.
    pub fn new(sched: PosixSched, affinity: PosixAffinity) -> (r: Result<Self, PosixError>)
        ensures
            ({
                let p = PosixPlacement { sched, affinity, uclamp: None };
                match placement_error(p) {
                    Some(e) => r == Err::<Self, PosixError>(e),
                    None => r == Ok::<Self, PosixError>(p),
                }
            }),
    {
        let p = PosixPlacement { sched, affinity, uclamp: None };
        match p.validate() {
            Ok(()) => Ok(p),
            Err(e) => Err(e),
        }
    }

    /// The same placement with a utilization clamp, validated.
    pub fn with_uclamp(self, min: u32, max: u32) -> (r: Result<Self, PosixError>)
        ensures
            ({
                let p = PosixPlacement { uclamp: Some((min, max)), ..self };
                match placement_error(p) {
                    Some(e) => r == Err::<Self, PosixError>(e),
                    None => r == Ok::<Self, PosixError>(p),
                }
            }),
    {
        let mut p = self;
        p.uclamp = Some((min, max));
        match p.validate() {
            Ok(()) => Ok(p),
            Err(e) => Err(e),
        }
    }

    /// Reject the combinations Linux cannot execute.
    pub fn validate(&self) -> (r: Result<(), PosixError>)
        ensures
            match placement_error(*self) {
                Some(e) => r == Err::<(), PosixError>(e),
                None => r == Ok::<(), PosixError>(()),
            },
    {
        match self.sched {
            PosixSched::Fifo { priority } | PosixSched::Rr { priority } => {
                let p = priority as i64;
                if !(POSIX_RT_PRIORITY_MIN <= p && p <= POSIX_RT_PRIORITY_MAX) {
                    return Err(
                        PosixError::PriorityOutOfRange {
                            priority: p,
                            min: POSIX_RT_PRIORITY_MIN,
                            max: POSIX_RT_PRIORITY_MAX,
                        },
                    );
                }
            },
            PosixSched::Other { nice } | PosixSched::Batch { nice } => {
                if !(-20 <= nice && nice <= 19) {
                    return Err(PosixError::NiceOutOfRange { nice: nice as i64 });
                }
            },
            PosixSched::Deadline { runtime_ns, deadline_ns, period_ns, .. } => {
                if !(runtime_ns <= deadline_ns && deadline_ns <= period_ns) {
                    return Err(
                        PosixError::DeadlineParamsUnordered { runtime_ns, deadline_ns, period_ns },
                    );
                }
            },
            PosixSched::Idle => {},
        }
        match &self.affinity {
            PosixAffinity::Cpus { cpus } => {
                if cpus.len() == 0 {
                    return Err(PosixError::EmptyCpuMask);
                }
                if let PosixSched::Deadline { .. } = self.sched {
                    return Err(PosixError::DeadlineWithCpuMask);
                }
            },
            _ => {},
        }
        if let Some((min, max)) = self.uclamp {
            if min > max || max > UCLAMP_MAX {
                return Err(PosixError::UclampOutOfRange { min, max });
            }
        }
        Ok(())
    }
}

} // verus!
