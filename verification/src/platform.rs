//! v2 platform files: `target` + `mapper` + `resources` + `overrides`.
//!
//! One file names one target. The `posix` (Linux RT) vocabulary is typed
//! here and validated at parse time, so a malformed override is a schema
//! error naming the node rather than an `EINVAL` after spawn. Any other
//! target's `resources`/`overrides` pass through as raw YAML values.

use vstd::prelude::*;
use crate::text::{
    int_text, nat_text, push_int, push_nat, push_str, push_debug_quoted, debug_quoted, owned,
    trim, to_chars, trimmed_chars, str_eq,
};
use crate::posix::{
    PosixPolicyKind, PosixError, policy_of, policy_name, posix_error_text, unknown_class_text,
    UCLAMP_MAX,
};
use crate::sched_types::SystemSched;

verus! {

/// The legal POSIX RT priority range for `SCHED_FIFO`/`SCHED_RR` on Linux.
pub const POSIX_RT_PRIORITY_MIN: i64 = 1;
/// See [`POSIX_RT_PRIORITY_MIN`].
pub const POSIX_RT_PRIORITY_MAX: i64 = 99;

/// A parsed YAML value, carried through untouched for targets this crate
/// does not interpret.
#[verifier::external_type_specification]
#[verifier::external_body]
pub struct ExYamlValue(serde_yaml_ng::Value);

/// Errors parsing a platform file (either schema).
#[derive(Debug, Clone, PartialEq)]
pub enum PlatformError {
    Io { path: String, reason: String },
    Yaml(String),
    TargetShape { target: String, reason: String },
    EmptyTarget,
    EmptyMapper,
    UnknownExtension(Option<String>),
    Legacy(String),
    InvalidPriorityBand { min: i64, max: i64, reason: String },
    InvalidOverride { node: String, reason: String },
    UnknownReservationMode { value: String },
}

impl PlatformError {
    /// The message this error reads as.
    pub fn message(&self) -> (r: String)
        ensures
            r@ == platform_error_text(*self),
    {
        let mut s = String::new();
        match self {
            PlatformError::Io { path, reason } => {
                push_str(&mut s, "failed to read platform file ");
                push_str(&mut s, path.as_str());
                push_str(&mut s, ": ");
                push_str(&mut s, reason.as_str());
            },
            PlatformError::Yaml(e) => {
                push_str(&mut s, "failed to parse platform file as YAML: ");
                push_str(&mut s, e.as_str());
            },
            PlatformError::TargetShape { target, reason } => {
                push_str(
                    &mut s,
                    "failed to parse platform file's `resources`/`overrides` for target `",
                );
                push_str(&mut s, target.as_str());
                push_str(&mut s, "`: ");
                push_str(&mut s, reason.as_str());
            },
            PlatformError::EmptyTarget => {
                push_str(&mut s, "platform file `target` must be non-empty");
            },
            PlatformError::EmptyMapper => {
                push_str(&mut s, "platform file `mapper` must be non-empty");
            },
            PlatformError::UnknownExtension(ext) => {
                push_str(&mut s, "unsupported platform file extension: ");
                match ext {
                    Some(e) => {
                        push_str(&mut s, "Some(");
                        push_debug_quoted(&mut s, e.as_str());
                        push_str(&mut s, ")");
                    },
                    None => {
                        push_str(&mut s, "None");
                    },
                }
                push_str(&mut s, " (expected `.yaml`/`.yml` or legacy `.toml`)");
            },
            PlatformError::Legacy(e) => {
                push_str(&mut s, "legacy TOML bridge failed to parse: ");
                push_str(&mut s, e.as_str());
            },
            PlatformError::InvalidPriorityBand { min, max, reason } => {
                push_str(&mut s, "`resources.rt_priority_band` { min: ");
                push_int(&mut s, *min);
                push_str(&mut s, ", max: ");
                push_int(&mut s, *max);
                push_str(&mut s, " } is invalid for target `posix`: ");
                push_str(&mut s, reason.as_str());
            },
            PlatformError::InvalidOverride { node, reason } => {
                push_str(&mut s, "overrides.");
                push_str(&mut s, node.as_str());
                push_str(&mut s, ": ");
                push_str(&mut s, reason.as_str());
            },
            PlatformError::UnknownReservationMode { value } => {
                push_str(&mut s, "`reservations` must be `off` or `required`, got ");
                push_debug_quoted(&mut s, value.as_str());
            },
        }
        assert(s@ =~= platform_error_text(*self));
        s
    }
}

/// The human-readable text of a [`PlatformError`].
pub open spec fn platform_error_text(e: PlatformError) -> Seq<char> {
    match e {
        PlatformError::Io { path, reason } => "failed to read platform file "@ + path@ + ": "@
            + reason@,
        PlatformError::Yaml(m) => "failed to parse platform file as YAML: "@ + m@,
        PlatformError::TargetShape { target, reason } =>
            "failed to parse platform file's `resources`/`overrides` for target `"@ + target@
            + "`: "@ + reason@,
        PlatformError::EmptyTarget => "platform file `target` must be non-empty"@,
        PlatformError::EmptyMapper => "platform file `mapper` must be non-empty"@,
        PlatformError::UnknownExtension(ext) => "unsupported platform file extension: "@ + match ext {
            Some(e) => "Some("@ + debug_quoted(e@) + ")"@,
            None => "None"@,
        } + " (expected `.yaml`/`.yml` or legacy `.toml`)"@,
        PlatformError::Legacy(m) => "legacy TOML bridge failed to parse: "@ + m@,
        PlatformError::InvalidPriorityBand { min, max, reason } =>
            "`resources.rt_priority_band` { min: "@ + int_text(min as int) + ", max: "@ + int_text(
            max as int,
        ) + " } is invalid for target `posix`: "@ + reason@,
        PlatformError::InvalidOverride { node, reason } => "overrides."@ + node@ + ": "@ + reason@,
        PlatformError::UnknownReservationMode { value } =>
            "`reservations` must be `off` or `required`, got "@ + debug_quoted(value@),
    }
}

/// An inclusive RT priority band, e.g. `{ min: 10, max: 40 }`.
#[derive(Clone, Copy, Debug, PartialEq, Eq, Structural)]
pub struct PriorityBand {
    pub min: i64,
    pub max: i64,
}

/// Why a band is not usable for `posix`, if it is not.
pub open spec fn band_reason(b: PriorityBand) -> Option<Seq<char>> {
    if b.min > b.max {
        Some("min ("@ + int_text(b.min as int) + ") > max ("@ + int_text(b.max as int) + ")"@)
    } else if b.min < POSIX_RT_PRIORITY_MIN || b.max > POSIX_RT_PRIORITY_MAX {
        Some(
            "band must lie within the POSIX SCHED_FIFO/SCHED_RR real-time priority range 1..=99"@,
        )
    } else {
        None
    }
}

impl PriorityBand {
    /// `true` when `min <= max`.
    pub fn is_valid(&self) -> (r: bool)
        ensures
            r == (self.min <= self.max),
    {
        self.min <= self.max
    }

    /// `true` when `priority` falls within `[min, max]`.
    pub fn contains(&self, priority: i64) -> (r: bool)
        ensures
            r == (self.min <= priority <= self.max),
    {
        priority >= self.min && priority <= self.max
    }

    /// Validate this band for the `posix` target: ordered, and inside
    /// Linux's `SCHED_FIFO`/`SCHED_RR` range (1..=99).
    pub fn validate_posix(&self) -> (r: Result<(), String>)
        ensures
            match band_reason(*self) {
                Some(t) => r matches Err(m) && m@ == t,
                None => r is Ok,
            },
    {
        if self.min > self.max {
            let mut m = String::new();
            push_str(&mut m, "min (");
            push_int(&mut m, self.min);
            push_str(&mut m, ") > max (");
            push_int(&mut m, self.max);
            push_str(&mut m, ")");
            assert(m@ =~= band_reason(*self)->0);
            return Err(m);
        }
        if self.min < POSIX_RT_PRIORITY_MIN || self.max > POSIX_RT_PRIORITY_MAX {
            return Err(
                owned(
                    "band must lie within the POSIX SCHED_FIFO/SCHED_RR real-time priority range 1..=99",
                ),
            );
        }
        Ok(())
    }
}

/// `posix` platform facts: `resources:` for `target: posix`.
#[derive(Clone, Debug, PartialEq)]
pub struct PosixResources {
    /// The RT priority band derived priorities are spread within.
    pub rt_priority_band: Option<PriorityBand>,
    /// CPU cores reserved for isolated (RT) workloads; advisory.
    pub isolated_cpus: Vec<u32>,
    /// The host's global `SCHED_RR` time slice, in microseconds. Absent means unknown.
    pub rr_timeslice_us: Option<u64>,
}

impl PosixResources {
    /// No band, no isolated CPUs, slice unknown.
    pub fn empty() -> (r: Self)
        ensures
            r.rt_priority_band is None,
            r.isolated_cpus@.len() == 0,
            r.rr_timeslice_us is None,
    {
        PosixResources { rt_priority_band: None, isolated_cpus: Vec::new(), rr_timeslice_us: None }
    }
}

/// `posix` override entry: `overrides.<node>` for `target: posix`.
#[derive(Clone, Debug, PartialEq)]
pub struct PosixOverride {
    pub priority: Option<i64>,
    /// Single-CPU pin; the one-element alias of `cpus`.
    pub core: Option<u32>,
    pub sched_class: Option<String>,
    /// CPU mask. Mutually exclusive with `core`.
    pub cpus: Vec<u32>,
    /// CFS nice value, `-20..=19`.
    pub nice: Option<i32>,
    /// Utilization-clamp floor, `0..=1024`.
    pub uclamp_min: Option<u32>,
    /// Utilization-clamp ceiling, `0..=1024`.
    pub uclamp_max: Option<u32>,
    /// Declared execution cost, in microseconds.
    pub budget_us: Option<u64>,
}

/// The parsed `resources:` block, typed for `posix` and raw otherwise.
#[derive(Debug, PartialEq)]
pub enum PlatformResources {
    Posix(PosixResources),
    Raw(serde_yaml_ng::Value),
}

/// One parsed `overrides.<node>` entry, typed for `posix` and raw otherwise.
#[derive(Debug, PartialEq)]
pub enum PlatformOverrideEntry {
    Posix(PosixOverride),
    Raw(serde_yaml_ng::Value),
}

/// Whether the mapper may derive `SCHED_DEADLINE` reservations.
#[derive(Clone, Copy, Debug, PartialEq, Eq, Structural)]
pub enum ReservationMode {
    /// Budgets are parsed, carried and shown, but never select a policy.
    Off,
    /// Every node in the RT band carrying a timing fact must carry a budget.
    Required,
}

/// A parsed platform file.
#[derive(Debug, PartialEq)]
pub struct PlatformFile {
    pub target: String,
    pub mapper: String,
    pub reservations: ReservationMode,
    pub resources: PlatformResources,
    /// Explicit per-node pins by node selector ascending; of a selector
    /// written twice, the later entry.
    pub overrides: Vec<(String, PlatformOverrideEntry)>,
    /// Present only for files that came through the legacy `.toml` bridge.
    pub legacy: Option<SystemSched>,
}

impl PlatformFile {
    /// The override for `node`, if the file has one.
    pub fn override_for(&self, node: &str) -> (r: Option<&PlatformOverrideEntry>)
        ensures
            match r {
                Some(v) => exists|i: int|
                    crate::assoc::first_key_at(self.overrides@, node@, i) && self.overrides@[i].1
                        == *v,
                None => !crate::assoc::has_key(self.overrides@, node@),
            },
    {
        crate::assoc::assoc_get(self.overrides.as_slice(), node)
    }
}

pub open spec fn is_posix_target(t: Seq<char>) -> bool {
    t == "posix"@ || t == "native"@
}

/// Is `target` one of the two spellings of the Linux target?
pub fn is_posix(target: &str) -> (r: bool)
    ensures
        r == is_posix_target(target@),
{
    str_eq(target, "posix") || str_eq(target, "native")
}

/// The sched class an override names, with its parse outcome.
pub open spec fn override_kind(ov: PosixOverride) -> Option<PosixPolicyKind> {
    match ov.sched_class {
        Some(sc) => policy_of(trim(sc@)),
        None => None,
    }
}

/// Why a `posix` override cannot be executed, if it cannot: the first of
/// the checks below that fails, in this order.
pub open spec fn override_reason(ov: PosixOverride) -> Option<Seq<char>> {
    let kind = override_kind(ov);
    if ov.sched_class is Some && kind is None {
        Some(unknown_class_text(trim(ov.sched_class->0@)))
    } else if kind is Some && ov.priority is Some && !(kind->0 is Fifo || kind->0 is Rr) {
        Some("`priority` is only meaningful for SCHED_FIFO/SCHED_RR, not "@ + policy_name(kind->0))
    } else if kind is Some && ov.nice is Some && !(kind->0 is Other || kind->0 is Batch) {
        Some("`nice` is only meaningful for SCHED_OTHER/SCHED_BATCH, not "@ + policy_name(kind->0))
    } else if kind is Some && kind->0 is Deadline && (ov.core is Some || ov.cpus@.len() > 0) {
        Some(deadline_pin_text())
    } else if ov.priority is Some && !(POSIX_RT_PRIORITY_MIN <= ov.priority->0
        <= POSIX_RT_PRIORITY_MAX) {
        Some(
            "`priority` "@ + int_text(ov.priority->0 as int)
                + " is outside the POSIX real-time range 1..=99"@,
        )
    } else if ov.nice is Some && !(-20 <= ov.nice->0 <= 19) {
        Some("`nice` "@ + int_text(ov.nice->0 as int) + " is outside -20..=19"@)
    } else if ov.core is Some && ov.cpus@.len() > 0 {
        Some("`core` and `cpus` are mutually exclusive (`core` is the single-CPU alias)"@)
    } else if ov.uclamp_min is Some && ov.uclamp_min->0 > UCLAMP_MAX {
        Some(uclamp_range_text("uclamp_min"@, ov.uclamp_min->0))
    } else if ov.uclamp_max is Some && ov.uclamp_max->0 > UCLAMP_MAX {
        Some(uclamp_range_text("uclamp_max"@, ov.uclamp_max->0))
    } else if ov.uclamp_min is Some && ov.uclamp_max is Some && ov.uclamp_min->0
        > ov.uclamp_max->0 {
        Some(
            "`uclamp_min` "@ + nat_text(ov.uclamp_min->0 as nat) + " exceeds `uclamp_max` "@
                + nat_text(ov.uclamp_max->0 as nat),
        )
    } else if ov.budget_us == Some(0u64) {
        Some(zero_budget_text())
    } else {
        None
    }
}

pub open spec fn deadline_pin_text() -> Seq<char> {
    "SCHED_DEADLINE cannot take a CPU pin: a deadline thread's affinity may not be narrower than the root domain it was created on (sched_setattr returns EPERM). Use an exclusive cpuset partition."@
}

pub open spec fn zero_budget_text() -> Seq<char> {
    "`budget_us` 0 is not a cost \u{2014} omit the field to say the cost is unknown. Absent and zero are different answers."@
}

pub open spec fn uclamp_range_text(field: Seq<char>, v: u32) -> Seq<char> {
    "`"@ + field + "` "@ + nat_text(v as nat)
        + " is outside 0..=1024 (the kernel's scale is not a percentage)"@
}

fn uclamp_range_message(field: &str, v: u32) -> (r: String)
    ensures
        r@ == uclamp_range_text(field@, v),
{
    let mut m = String::new();
    push_str(&mut m, "`");
    push_str(&mut m, field);
    push_str(&mut m, "` ");
    push_nat(&mut m, v as u64);
    push_str(&mut m, " is outside 0..=1024 (the kernel's scale is not a percentage)");
    assert(m@ =~= uclamp_range_text(field@, v));
    m
}

fn bad_override(node: &str, reason: String) -> (e: PlatformError)
    ensures
        e matches PlatformError::InvalidOverride { node: n, reason: r } && n@ == node@ && r@
            == reason@,
{
    PlatformError::InvalidOverride { node: owned(node), reason }
}

/// Reject override combinations Linux cannot execute, at parse time.
pub fn validate_posix_override(node: &str, ov: &PosixOverride) -> (r: Result<(), PlatformError>)
    ensures
        match override_reason(*ov) {
            Some(t) => r matches Err(PlatformError::InvalidOverride { node: n, reason: m })
                && n@ == node@ && m@ == t,
            None => r is Ok,
        },
{
    let kind: Option<PosixPolicyKind> = match &ov.sched_class {
        Some(sc) => match PosixPolicyKind::parse(sc.as_str()) {
            Ok(k) => Some(k),
            Err(e) => {
                let m = e.message();
                return Err(bad_override(node, m));
            },
        },
        None => None,
    };
    if let Some(k) = kind {
        let rt = match k {
            PosixPolicyKind::Fifo | PosixPolicyKind::Rr => true,
            _ => false,
        };
        if ov.priority.is_some() && !rt {
            let mut m = String::new();
            push_str(&mut m, "`priority` is only meaningful for SCHED_FIFO/SCHED_RR, not ");
            push_str(&mut m, k.as_str());
            return Err(bad_override(node, m));
        }
        let cfs = match k {
            PosixPolicyKind::Other | PosixPolicyKind::Batch => true,
            _ => false,
        };
        if ov.nice.is_some() && !cfs {
            let mut m = String::new();
            push_str(&mut m, "`nice` is only meaningful for SCHED_OTHER/SCHED_BATCH, not ");
            push_str(&mut m, k.as_str());
            return Err(bad_override(node, m));
        }
        let dl = match k {
            PosixPolicyKind::Deadline => true,
            _ => false,
        };
        if dl && (ov.core.is_some() || ov.cpus.len() > 0) {
            return Err(
                bad_override(
                    node,
                    owned(
                        "SCHED_DEADLINE cannot take a CPU pin: a deadline thread's affinity may not be narrower than the root domain it was created on (sched_setattr returns EPERM). Use an exclusive cpuset partition.",
                    ),
                ),
            );
        }
    }
    if let Some(p) = ov.priority {
        if !(POSIX_RT_PRIORITY_MIN <= p && p <= POSIX_RT_PRIORITY_MAX) {
            let mut m = String::new();
            push_str(&mut m, "`priority` ");
            push_int(&mut m, p);
            push_str(&mut m, " is outside the POSIX real-time range 1..=99");
            return Err(bad_override(node, m));
        }
    }
    if let Some(n) = ov.nice {
        if !(-20 <= n && n <= 19) {
            let mut m = String::new();
            push_str(&mut m, "`nice` ");
            push_int(&mut m, n as i64);
            push_str(&mut m, " is outside -20..=19");
            return Err(bad_override(node, m));
        }
    }
    if ov.core.is_some() && ov.cpus.len() > 0 {
        return Err(
            bad_override(
                node,
                owned("`core` and `cpus` are mutually exclusive (`core` is the single-CPU alias)"),
            ),
        );
    }
    if let Some(v) = ov.uclamp_min {
        if v > UCLAMP_MAX {
            return Err(bad_override(node, uclamp_range_message("uclamp_min", v)));
        }
    }
    if let Some(v) = ov.uclamp_max {
        if v > UCLAMP_MAX {
            return Err(bad_override(node, uclamp_range_message("uclamp_max", v)));
        }
    }
    if let (Some(min), Some(max)) = (ov.uclamp_min, ov.uclamp_max) {
        if min > max {
            let mut m = String::new();
            push_str(&mut m, "`uclamp_min` ");
            push_nat(&mut m, min as u64);
            push_str(&mut m, " exceeds `uclamp_max` ");
            push_nat(&mut m, max as u64);
            return Err(bad_override(node, m));
        }
    }
    if ov.budget_us == Some(0u64) {
        return Err(
            bad_override(
                node,
                owned(
                    "`budget_us` 0 is not a cost \u{2014} omit the field to say the cost is unknown. Absent and zero are different answers.",
                ),
            ),
        );
    }
    Ok(())
}

/// What a [`PlatformError`] says, as values.
pub enum PlatformErrorView {
    Io { path: Seq<char>, reason: Seq<char> },
    Yaml(Seq<char>),
    TargetShape { target: Seq<char>, reason: Seq<char> },
    EmptyTarget,
    EmptyMapper,
    UnknownExtension(Option<Seq<char>>),
    Legacy(Seq<char>),
    InvalidPriorityBand { min: i64, max: i64, reason: Seq<char> },
    InvalidOverride { node: Seq<char>, reason: Seq<char> },
    UnknownReservationMode { value: Seq<char> },
}

impl View for PlatformError {
    type V = PlatformErrorView;

    open spec fn view(&self) -> PlatformErrorView {
        match self {
            PlatformError::Io { path, reason } => PlatformErrorView::Io {
                path: path@,
                reason: reason@,
            },
            PlatformError::Yaml(m) => PlatformErrorView::Yaml(m@),
            PlatformError::TargetShape { target, reason } => PlatformErrorView::TargetShape {
                target: target@,
                reason: reason@,
            },
            PlatformError::EmptyTarget => PlatformErrorView::EmptyTarget,
            PlatformError::EmptyMapper => PlatformErrorView::EmptyMapper,
            PlatformError::UnknownExtension(e) => PlatformErrorView::UnknownExtension(
                match e {
                    Some(x) => Some(x@),
                    None => None,
                },
            ),
            PlatformError::Legacy(m) => PlatformErrorView::Legacy(m@),
            PlatformError::InvalidPriorityBand { min, max, reason } =>
                PlatformErrorView::InvalidPriorityBand { min: *min, max: *max, reason: reason@ },
            PlatformError::InvalidOverride { node, reason } => PlatformErrorView::InvalidOverride {
                node: node@,
                reason: reason@,
            },
            PlatformError::UnknownReservationMode { value } =>
                PlatformErrorView::UnknownReservationMode { value: value@ },
        }
    }
}

// ── Assembling a parsed v2 file ──

/// The `resources:` block as the YAML reader delivered it: for `posix`, the
/// outcome of reading it into [`PosixResources`] (the reader's complaint on
/// failure); otherwise the raw value.
pub enum RawResources {
    Posix(Result<PosixResources, String>),
    Raw(serde_yaml_ng::Value),
}

/// One `overrides.<key>` value as the YAML reader delivered it.
pub enum RawOverrideEntry {
    Posix(Result<PosixOverride, String>),
    Raw(serde_yaml_ng::Value),
}

/// The `overrides:` block as the YAML reader delivered it.
pub enum RawOverrides {
    /// Absent or null.
    Absent,
    /// Present, but not a mapping.
    NotMapping,
    /// A mapping, in document order; a key that is not a string is `None`.
    Entries(Vec<(Option<String>, RawOverrideEntry)>),
}

/// A v2 platform file after the YAML reader, before validation.
pub struct RawPlatformFile {
    pub target: String,
    pub mapper: String,
    pub reservations: ReservationMode,
    pub resources: RawResources,
    pub overrides: RawOverrides,
}

/// The reader delivered each block in the form its target calls for.
pub open spec fn raw_forms_match(raw: RawPlatformFile) -> bool {
    let posix = is_posix_target(raw.target@);
    &&& (raw.resources is Posix) == posix
    &&& raw.overrides matches RawOverrides::Entries(es) ==> forall|i: int|
        0 <= i < es@.len() ==> ((#[trigger] es@[i]).1 is Posix) == posix
}

/// Why one override entry is refused, if it is.
pub open spec fn entry_failure(target: Seq<char>, e: (Option<String>, RawOverrideEntry)) -> Option<
    PlatformErrorView,
> {
    match e.0 {
        None => Some(
            PlatformErrorView::TargetShape {
                target,
                reason: "`overrides` keys must be strings"@,
            },
        ),
        Some(k) => match e.1 {
            RawOverrideEntry::Posix(Err(m)) => Some(
                PlatformErrorView::TargetShape { target, reason: "overrides."@ + k@ + ": "@ + m@ },
            ),
            RawOverrideEntry::Posix(Ok(ov)) => match override_reason(ov) {
                Some(t) => Some(PlatformErrorView::InvalidOverride { node: k@, reason: t }),
                None => None,
            },
            RawOverrideEntry::Raw(_) => None,
        },
    }
}

/// The entry an accepted override becomes.
pub open spec fn entry_converted(e: (Option<String>, RawOverrideEntry)) -> PlatformOverrideEntry {
    match e.1 {
        RawOverrideEntry::Posix(Ok(ov)) => PlatformOverrideEntry::Posix(ov),
        RawOverrideEntry::Raw(v) => PlatformOverrideEntry::Raw(v),
        RawOverrideEntry::Posix(Err(_)) => arbitrary(),
    }
}

/// The error for the resources block, if it is refused.
pub open spec fn resources_failure(target: Seq<char>, r: RawResources) -> Option<PlatformErrorView> {
    match r {
        RawResources::Posix(Err(m)) => Some(PlatformErrorView::TargetShape { target, reason: m@ }),
        RawResources::Posix(Ok(res)) => match res.rt_priority_band {
            Some(b) => match band_reason(b) {
                Some(t) => Some(
                    PlatformErrorView::InvalidPriorityBand { min: b.min, max: b.max, reason: t },
                ),
                None => None,
            },
            None => None,
        },
        RawResources::Raw(_) => None,
    }
}

/// Validate a v2 platform file the YAML reader has delivered. Checks run in
/// this order: empty target, empty mapper, the resources block (its shape,
/// then its `posix` priority band), each override in document order (string
/// key, shape, then the `posix` rules of [`validate_posix_override`]), and
/// finally that `overrides` is a mapping at all.
pub fn platform_file_from_raw(raw: RawPlatformFile) -> (r: Result<PlatformFile, PlatformError>)
    requires
        raw_forms_match(raw),
    ensures
        trim(raw.target@).len() == 0 ==> r matches Err(PlatformError::EmptyTarget),
        trim(raw.target@).len() > 0 && trim(raw.mapper@).len() == 0 ==> r matches Err(
            PlatformError::EmptyMapper,
        ),
        trim(raw.target@).len() > 0 && trim(raw.mapper@).len() > 0 ==> match resources_failure(
            raw.target@,
            raw.resources,
        ) {
            Some(ev) => r matches Err(e) && e@ == ev,
            None => match raw.overrides {
                RawOverrides::NotMapping => r matches Err(e) && e@
                    == PlatformErrorView::TargetShape {
                    target: raw.target@,
                    reason: "`overrides` must be a mapping"@,
                },
                RawOverrides::Absent => r matches Ok(f) && f.overrides@.len() == 0 && f.target
                    == raw.target && f.mapper == raw.mapper && f.reservations == raw.reservations
                    && f.legacy is None && resources_kept(raw.resources, f.resources),
                RawOverrides::Entries(es) => if exists|i: int|
                    0 <= i < es@.len() && #[trigger] entry_failure(raw.target@, es@[i]) is Some {
                    exists|i: int|
                        0 <= i < es@.len() && #[trigger] entry_failure(raw.target@, es@[i]) is Some
                            && (forall|j: int|
                            0 <= j < i ==> entry_failure(raw.target@, #[trigger] es@[j]) is None)
                            && (r matches Err(e) && Some(e@) == entry_failure(raw.target@, es@[i]))
                } else {
                    r matches Ok(f) && f.target == raw.target && f.mapper == raw.mapper
                        && f.reservations == raw.reservations && f.legacy is None
                        && resources_kept(raw.resources, f.resources) && keyed_by_last(
                        converted_entries(es@),
                        f.overrides@,
                    )
                },
            },
        },
{
    let target_t = trimmed_chars(raw.target.as_str());
    if target_t.len() == 0 {
        return Err(PlatformError::EmptyTarget);
    }
    let mapper_t = trimmed_chars(raw.mapper.as_str());
    if mapper_t.len() == 0 {
        return Err(PlatformError::EmptyMapper);
    }
    let RawPlatformFile { target, mapper, reservations, resources, overrides } = raw;
    let resources = match resources {
        RawResources::Posix(Err(m)) => {
            return Err(PlatformError::TargetShape { target, reason: m });
        },
        RawResources::Posix(Ok(res)) => {
            if let Some(band) = res.rt_priority_band {
                match band.validate_posix() {
                    Err(reason) => {
                        return Err(
                            PlatformError::InvalidPriorityBand {
                                min: band.min,
                                max: band.max,
                                reason,
                            },
                        );
                    },
                    Ok(()) => {},
                }
            }
            PlatformResources::Posix(res)
        },
        RawResources::Raw(v) => PlatformResources::Raw(v),
    };
    let mut out: Vec<(String, PlatformOverrideEntry)> = Vec::new();
    match overrides {
        RawOverrides::Absent => {},
        RawOverrides::NotMapping => {
            return Err(
                PlatformError::TargetShape {
                    target,
                    reason: owned("`overrides` must be a mapping"),
                },
            );
        },
        RawOverrides::Entries(es) => {
            let ghost raw_es = es@;
            let converted = convert_overrides(&target, es)?;
            assert(converted@ =~= converted_entries(raw_es));
            out = keyed_table(converted);
        },
    }
    Ok(
        PlatformFile {
            target,
            mapper,
            reservations,
            resources,
            overrides: out,
            legacy: None,
        },
    )
}


/// The override entries as converted, in document order.
pub open spec fn converted_entries(es: Seq<(Option<String>, RawOverrideEntry)>) -> Seq<(String, PlatformOverrideEntry)> {
    Seq::new(es.len(), |i: int| (es[i].0->0, entry_converted(es[i])))
}

/// Entry `i` is the last of `v` named `n`.
pub open spec fn last_key_at<T>(v: Seq<(String, T)>, n: Seq<char>, i: int) -> bool {
    &&& 0 <= i < v.len()
    &&& v[i].0@ == n
    &&& forall|j: int| i < j < v.len() ==> (#[trigger] v[j]).0@ != n
}

/// The last entry of `v` named `n`.
pub open spec fn last_key<T>(v: Seq<(String, T)>, n: Seq<char>) -> int {
    choose|i: int| last_key_at(v, n, i)
}

/// `out` holds one entry per name of `v`, by name ascending, each the
/// value of the last entry of `v` with that name.
pub open spec fn keyed_by_last<T>(v: Seq<(String, T)>, out: Seq<(String, T)>) -> bool {
    &&& crate::realize::names_ascending(out)
    &&& forall|n: Seq<char>| #[trigger] crate::assoc::has_key(out, n) <==> crate::assoc::has_key(v, n)
    &&& forall|k: int|
        0 <= k < out.len() ==> last_key_at(v, (#[trigger] out[k]).0@, last_key(v, out[k].0@)) && out[k].1
            == v[last_key(v, out[k].0@)].1
}

proof fn lemma_last_key_unique<T>(v: Seq<(String, T)>, n: Seq<char>, i: int)
    requires
        last_key_at(v, n, i),
    ensures
        last_key(v, n) == i,
{
    let c = last_key(v, n);
    assert(last_key_at(v, n, c));
    if c < i {
        assert(v[i].0@ != n);
    }
    if c > i {
        assert(v[c].0@ != n);
    }
}

/// The entries of `v` keyed by name, the last of each name kept.
fn keyed_table<T>(v: Vec<(String, T)>) -> (out: Vec<(String, T)>)
    ensures
        keyed_by_last(v@, out@),
{
    let ghost orig = v@;
    let n = v.len();
    let mut rest = v;
    let mut out: Vec<(String, T)> = Vec::new();
    let mut m: usize = 0;
    while rest.len() > 0
        invariant
            orig.len() == n,
            m + rest@.len() == n,
            rest@ == orig.skip(m as int),
            keyed_by_last(orig.take(m as int), out@),
        decreases rest@.len(),
    {
        assert(rest@[0] == orig[m as int]);
        let (name, value) = rest.remove(0);
        let ghost before = out@;
        let ghost pre = orig.take(m as int);
        let ghost cur = orig.take(m + 1);
        let ghost nm = name@;
        crate::manifest_read::put_entry(&mut out, name, value);
        proof {
            assert(cur == pre.push(orig[m as int]));
            assert(last_key_at(cur, nm, m as int));
            lemma_last_key_unique(cur, nm, m as int);
            assert forall|x: Seq<char>| #[trigger] crate::assoc::has_key(out@, x) <==> crate::assoc::has_key(
                cur,
                x,
            ) by {
                if crate::assoc::has_key(cur, x) {
                    let i = choose|i: int| 0 <= i < cur.len() && #[trigger] cur[i].0@ == x;
                    if i < m {
                        assert(pre[i] == cur[i]);
                        assert(crate::assoc::has_key(pre, x));
                    }
                }
                if crate::assoc::has_key(pre, x) {
                    let i = choose|i: int| 0 <= i < pre.len() && #[trigger] pre[i].0@ == x;
                    assert(cur[i] == pre[i]);
                }
            }
            assert forall|k: int| 0 <= k < out@.len() implies last_key_at(
                cur,
                (#[trigger] out@[k]).0@,
                last_key(cur, out@[k].0@),
            ) && out@[k].1 == cur[last_key(cur, out@[k].0@)].1 by {
                if out@[k].0@ != nm {
                    let j = choose|j: int| 0 <= j < before.len() && before[j] == out@[k];
                    let x = before[j].0@;
                    let i = last_key(pre, x);
                    assert(last_key_at(pre, x, i));
                    assert(cur[i] == pre[i]);
                    assert(last_key_at(cur, x, i));
                    lemma_last_key_unique(cur, x, i);
                }
            }
        }
        m += 1;
        assert(rest@ =~= orig.skip(m as int));
    }
    assert(orig.take(n as int) =~= orig);
    out
}

/// Validate and convert the override entries in document order, stopping at
/// the first one that is refused.
fn convert_overrides(target: &String, es: Vec<(Option<String>, RawOverrideEntry)>) -> (r: Result<
    Vec<(String, PlatformOverrideEntry)>,
    PlatformError,
>)
    ensures
        if exists|i: int| 0 <= i < es@.len() && #[trigger] entry_failure(target@, es@[i]) is Some {
            exists|i: int|
                0 <= i < es@.len() && #[trigger] entry_failure(target@, es@[i]) is Some && (forall|
                    j: int,
                | 0 <= j < i ==> entry_failure(target@, #[trigger] es@[j]) is None) && (r matches Err(
                    e,
                ) && Some(e@) == entry_failure(target@, es@[i]))
        } else {
            r matches Ok(out) && out@.len() == es@.len() && forall|i: int|
                0 <= i < es@.len() ==> (#[trigger] out@[i]).0 == es@[i].0->0 && out@[i].1
                    == entry_converted(es@[i])
        },
{
    let ghost orig = es@;
    let n = es.len();
    let mut out: Vec<(String, PlatformOverrideEntry)> = Vec::new();
    let mut rest = es;
    let mut i: usize = 0;
    while rest.len() > 0
        invariant
            orig == es@,
            orig.len() == n,
            i + rest@.len() == n,
            rest@ == orig.skip(i as int),
            out@.len() == i,
            forall|j: int| 0 <= j < i ==> entry_failure(target@, #[trigger] orig[j]) is None,
            forall|j: int|
                0 <= j < i ==> (#[trigger] out@[j]).0 == orig[j].0->0 && out@[j].1
                    == entry_converted(orig[j]),
        decreases rest@.len(),
    {
        assert(rest@[0] == orig[i as int]);
        let (key, entry) = rest.remove(0);
        let key = match key {
            None => {
                let err = PlatformError::TargetShape {
                    target: target.clone(),
                    reason: owned("`overrides` keys must be strings"),
                };
                assert(Some(err@) == entry_failure(target@, orig[i as int]));
                return Err(err);
            },
            Some(k) => k,
        };
        let converted = match entry {
            RawOverrideEntry::Posix(Err(m)) => {
                let mut reason = String::new();
                push_str(&mut reason, "overrides.");
                push_str(&mut reason, key.as_str());
                push_str(&mut reason, ": ");
                push_str(&mut reason, m.as_str());
                let err = PlatformError::TargetShape { target: target.clone(), reason };
                assert(Some(err@) == entry_failure(target@, orig[i as int]));
                return Err(err);
            },
            RawOverrideEntry::Posix(Ok(ov)) => {
                match validate_posix_override(key.as_str(), &ov) {
                    Err(e) => {
                        assert(Some(e@) == entry_failure(target@, orig[i as int]));
                        return Err(e);
                    },
                    Ok(()) => {},
                }
                PlatformOverrideEntry::Posix(ov)
            },
            RawOverrideEntry::Raw(v) => PlatformOverrideEntry::Raw(v),
        };
        out.push((key, converted));
        i += 1;
        assert(rest@ =~= orig.skip(i as int));
    }
    Ok(out)
}

/// The validated resources block is the delivered one.
pub open spec fn resources_kept(raw: RawResources, kept: PlatformResources) -> bool {
    match raw {
        RawResources::Posix(Ok(res)) => kept == PlatformResources::Posix(res),
        RawResources::Raw(v) => kept == PlatformResources::Raw(v),
        RawResources::Posix(Err(_)) => false,
    }
}

} // verus!
