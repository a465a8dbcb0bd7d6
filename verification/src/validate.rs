//! Checks over a derived plan: tiers outside the platform's band, and pairs
//! of nodes whose final priorities contradict their deadline order. Both
//! only report; what to do about a finding is the caller's decision.

use vstd::prelude::*;
use crate::platform::PriorityBand;
use crate::resolve::{ResolvedTier, ResolvedTierTable, DEFAULT_TIER, default_tier_name};
use crate::posix::sched_priority;
use crate::text::str_eq;
use crate::realize::string_views;

verus! {

// ── Band violations ──

/// One tier whose priority falls outside the platform's `rt_priority_band`.
#[derive(Clone, Debug, PartialEq, Eq)]
pub struct BandViolation {
    /// The tier name (for the derived mappers, the node name).
    pub tier: String,
    pub priority: i64,
    pub band: PriorityBand,
}

/// A tier the band check reports: not the default tier, with a priority to
/// check (a `SCHED_DEADLINE` tier has none), and outside the band.
pub open spec fn out_of_band(t: ResolvedTier, band: PriorityBand) -> bool {
    &&& t.name@ != default_tier_name()
    &&& (t.posix is None || sched_priority(t.posix->0.sched) is Some)
    &&& !(band.min <= t.priority <= band.max)
}

/// The first `n` tiers the band check reports, in order.
pub open spec fn flagged(tiers: Seq<ResolvedTier>, band: PriorityBand, n: int) -> Seq<ResolvedTier>
    decreases n,
{
    if n <= 0 {
        Seq::empty()
    } else if out_of_band(tiers[n - 1], band) {
        flagged(tiers, band, n - 1).push(tiers[n - 1])
    } else {
        flagged(tiers, band, n - 1)
    }
}

/// The band check reports exactly the out-of-band tiers: every tier it
/// reports has a priority outside `[band.min, band.max]` (so a tier at
/// either end of the band is never reported), and every non-default tier
/// with a priority to check that lies outside the band is reported.
pub proof fn lemma_band_check_reports_outside_only(tiers: Seq<ResolvedTier>, band: PriorityBand, n: int)
    requires
        0 <= n <= tiers.len(),
    ensures
        forall|k: int|
            0 <= k < flagged(tiers, band, n).len() ==> {
                let t = #[trigger] flagged(tiers, band, n)[k];
                &&& !(band.min <= t.priority && t.priority <= band.max)
                &&& t.name@ != default_tier_name()
            },
        forall|i: int|
            0 <= i < n && (#[trigger] tiers[i]).name@ != default_tier_name() && (tiers[i].posix is None
                || sched_priority(tiers[i].posix->0.sched) is Some) && (tiers[i].priority < band.min
                || tiers[i].priority > band.max) ==> flagged(tiers, band, n).contains(tiers[i]),
        forall|i: int|
            0 <= i < n && band.min <= (#[trigger] tiers[i]).priority && tiers[i].priority <= band.max
                ==> forall|k: int|
                0 <= k < flagged(tiers, band, n).len() ==> flagged(tiers, band, n)[k] != tiers[i],
    decreases n,
{
    if n > 0 {
        lemma_band_check_reports_outside_only(tiers, band, n - 1);
        let prev = flagged(tiers, band, n - 1);
        let cur = flagged(tiers, band, n);
        assert forall|i: int|
            0 <= i < n && (#[trigger] tiers[i]).name@ != default_tier_name() && (tiers[i].posix is None
                || sched_priority(tiers[i].posix->0.sched) is Some) && (tiers[i].priority < band.min
                || tiers[i].priority > band.max) implies cur.contains(tiers[i]) by {
            if i < n - 1 {
                let k = choose|k: int| 0 <= k < prev.len() && prev[k] == tiers[i];
                if out_of_band(tiers[n - 1], band) {
                    assert(cur[k] == prev[k]);
                }
            } else {
                assert(cur[cur.len() - 1] == tiers[i]);
            }
        }
    }
}

/// Every non-default tier of `plan` whose priority falls outside `band`,
/// in plan order. Tiers whose policy has no priority are not checked.
pub fn band_violations(plan: &ResolvedTierTable, band: &PriorityBand) -> (r: Vec<BandViolation>)
    ensures
        r@.len() == flagged(plan.tiers@, *band, plan.tiers@.len() as int).len(),
        forall|k: int|
            0 <= k < r@.len() ==> {
                let t = flagged(plan.tiers@, *band, plan.tiers@.len() as int)[k];
                &&& (#[trigger] r@[k]).tier@ == t.name@
                &&& r@[k].priority == t.priority
                &&& r@[k].band == *band
            },
{
    let tiers = &plan.tiers;
    let mut out: Vec<BandViolation> = Vec::new();
    let mut i: usize = 0;
    while i < tiers.len()
        invariant
            i <= tiers@.len(),
            out@.len() == flagged(tiers@, *band, i as int).len(),
            forall|k: int|
                0 <= k < out@.len() ==> {
                    let t = flagged(tiers@, *band, i as int)[k];
                    &&& (#[trigger] out@[k]).tier@ == t.name@
                    &&& out@[k].priority == t.priority
                    &&& out@[k].band == *band
                },
        decreases tiers@.len() - i,
    {
        let t = &tiers[i];
        let checked = match &t.posix {
            None => true,
            Some(p) => p.sched.priority().is_some(),
        };
        if !str_eq(t.name.as_str(), DEFAULT_TIER) && checked && !band.contains(t.priority) {
            out.push(BandViolation { tier: t.name.clone(), priority: t.priority, band: *band });
        }
        i += 1;
    }
    out
}

// ── Priority-order contradictions ──

/// A pair of nodes whose final priority order contradicts their timing-fact
/// order: `node_a`'s fact says it should run at least as high as `node_b`,
/// but its priority is lower.
#[derive(Clone, Debug, PartialEq)]
pub struct Contradiction {
    pub node_a: String,
    pub node_b: String,
    /// Which fact produced it: `"rate_hz"` or `"deadline_us"`.
    pub kind: &'static str,
}

/// The priority of node `name` in the first `n` tiers: that of the last
/// tier listing it as a member.
pub open spec fn member_priority(tiers: Seq<ResolvedTier>, name: Seq<char>, n: int) -> Option<i64>
    decreases n,
{
    if n <= 0 {
        None
    } else if string_views(tiers[n - 1].members@).contains(name) {
        Some(tiers[n - 1].priority)
    } else {
        member_priority(tiers, name, n - 1)
    }
}

/// The priority a plan gives node `name`, if it lists it at all.
pub fn priority_of_node(plan: &ResolvedTierTable, name: &str) -> (r: Option<i64>)
    ensures
        r == member_priority(plan.tiers@, name@, plan.tiers@.len() as int),
{
    let tiers = &plan.tiers;
    let mut i: usize = tiers.len();
    while i > 0
        invariant
            tiers@ == plan.tiers@,
            i <= tiers@.len(),
            forall|m: int|
                i <= m <= tiers@.len() ==> #[trigger] member_priority(tiers@, name@, m)
                    == member_priority(tiers@, name@, i as int),
        decreases i,
    {
        let members = &tiers[i - 1].members;
        let listed = crate::assoc::names_contain(members.as_slice(), name);
        proof {
            assert(members@.map_values(|s: String| s@) =~= string_views(members@));
        }
        if listed {
            proof {
                assert(string_views(tiers@[i - 1].members@).contains(name@));
                assert(member_priority(tiers@, name@, i as int) == Some(tiers@[i - 1].priority));
                assert(member_priority(tiers@, name@, tiers@.len() as int) == member_priority(
                    tiers@,
                    name@,
                    i as int,
                ));
            }
            return Some(tiers[i - 1].priority);
        }
        i -= 1;
    }
    None
}

/// A node the deadline scan looks at: its name, deadline and priority.
pub type ScanEntry = (Seq<char>, int, int);

/// The first `n` nodes with a deadline that the plan lists, in input order.
pub open spec fn scanned(nodes: Seq<(String, Option<u64>)>, tiers: Seq<ResolvedTier>, n: int) -> Seq<
    ScanEntry,
>
    decreases n,
{
    if n <= 0 {
        Seq::empty()
    } else {
        let r = scanned(nodes, tiers, n - 1);
        let e = nodes[n - 1];
        match (e.1, member_priority(tiers, e.0@, tiers.len() as int)) {
            (Some(d), Some(p)) => r.push((e.0@, d as int, p as int)),
            _ => r,
        }
    }
}

/// The contradiction pair `i < j` of `ps` shows, if any: the node with the
/// shorter deadline first.
pub open spec fn pair_finding(ps: Seq<ScanEntry>, i: int, j: int) -> Seq<(Seq<char>, Seq<char>)> {
    let (a, b) = (ps[i], ps[j]);
    if a.1 == b.1 {
        Seq::empty()
    } else {
        let (hi, lo) = if a.1 < b.1 {
            (a, b)
        } else {
            (b, a)
        };
        if hi.2 < lo.2 {
            seq![(hi.0, lo.0)]
        } else {
            Seq::empty()
        }
    }
}

/// The findings of pairs `(i, j)` for `i < j < m`, in order of `j`.
pub open spec fn row_findings(ps: Seq<ScanEntry>, i: int, m: int) -> Seq<(Seq<char>, Seq<char>)>
    decreases m - i,
{
    if m <= i + 1 {
        Seq::empty()
    } else {
        row_findings(ps, i, m - 1) + pair_finding(ps, i, m - 1)
    }
}

/// The findings of every pair whose first index is below `n`, row by row.
pub open spec fn findings(ps: Seq<ScanEntry>, n: int) -> Seq<(Seq<char>, Seq<char>)>
    decreases n,
{
    if n <= 0 {
        Seq::empty()
    } else {
        findings(ps, n - 1) + row_findings(ps, n - 1, ps.len() as int)
    }
}

/// The names of a list of contradictions, as pairs.
pub open spec fn finding_views(c: Seq<Contradiction>) -> Seq<(Seq<char>, Seq<char>)> {
    Seq::new(c.len(), |k: int| (c[k].node_a@, c[k].node_b@))
}

/// Deadline-vs-priority contradictions: a node with a strictly shorter
/// deadline than another must not end up at a strictly lower priority.
/// `nodes` lists each node's name and deadline, in input order; nodes
/// without a deadline, or that the plan does not list, are skipped.
/// Equal deadlines imply no order, and equal priorities are no reversal.
pub fn deadline_priority_contradictions(
    nodes: &Vec<(String, Option<u64>)>,
    plan: &ResolvedTierTable,
) -> (r: Vec<Contradiction>)
    ensures
        finding_views(r@) == findings(
            scanned(nodes@, plan.tiers@, nodes@.len() as int),
            scanned(nodes@, plan.tiers@, nodes@.len() as int).len() as int,
        ),
        forall|k: int| 0 <= k < r@.len() ==> (#[trigger] r@[k]).kind@ == "deadline_us"@,
{
    let ghost tiers = plan.tiers@;
    // The nodes the scan looks at.
    let mut present: Vec<(String, u64, i64)> = Vec::new();
    let mut i: usize = 0;
    while i < nodes.len()
        invariant
            i <= nodes@.len(),
            tiers == plan.tiers@,
            present@.len() == scanned(nodes@, tiers, i as int).len(),
            forall|k: int|
                0 <= k < present@.len() ==> {
                    let e = scanned(nodes@, tiers, i as int)[k];
                    &&& (#[trigger] present@[k]).0@ == e.0
                    &&& present@[k].1 as int == e.1
                    &&& present@[k].2 as int == e.2
                },
        decreases nodes@.len() - i,
    {
        if let Some(d) = nodes[i].1 {
            if let Some(p) = priority_of_node(plan, nodes[i].0.as_str()) {
                present.push((nodes[i].0.clone(), d, p));
            }
        }
        i += 1;
    }
    let ghost ps = scanned(nodes@, tiers, nodes@.len() as int);
    let n = present.len();
    let mut out: Vec<Contradiction> = Vec::new();
    let mut a: usize = 0;
    while a < n
        invariant
            n == present@.len(),
            n == ps.len(),
            a <= n,
            forall|k: int|
                0 <= k < n ==> {
                    let e = ps[k];
                    &&& (#[trigger] present@[k]).0@ == e.0
                    &&& present@[k].1 as int == e.1
                    &&& present@[k].2 as int == e.2
                },
            finding_views(out@) == findings(ps, a as int),
            forall|k: int| 0 <= k < out@.len() ==> (#[trigger] out@[k]).kind@ == "deadline_us"@,
        decreases n - a,
    {
        let mut b: usize = a + 1;
        proof {
            assert(row_findings(ps, a as int, b as int) =~= Seq::<(Seq<char>, Seq<char>)>::empty());
            assert(findings(ps, a as int) + row_findings(ps, a as int, b as int) =~= findings(
                ps,
                a as int,
            ));
        }
        while b < n
            invariant
                n == present@.len(),
                n == ps.len(),
                a < n,
                a + 1 <= b <= n,
                forall|k: int|
                    0 <= k < n ==> {
                        let e = ps[k];
                        &&& (#[trigger] present@[k]).0@ == e.0
                        &&& present@[k].1 as int == e.1
                        &&& present@[k].2 as int == e.2
                    },
                finding_views(out@) == findings(ps, a as int) + row_findings(ps, a as int, b as int),
                forall|k: int| 0 <= k < out@.len() ==> (#[trigger] out@[k]).kind@ == "deadline_us"@,
            decreases n - b,
        {
            let ghost before = out@;
            let da = present[a].1;
            let db = present[b].1;
            if da != db {
                let (hi, lo) = if da < db {
                    (a, b)
                } else {
                    (b, a)
                };
                if present[hi].2 < present[lo].2 {
                    out.push(
                        Contradiction {
                            node_a: present[hi].0.clone(),
                            node_b: present[lo].0.clone(),
                            kind: "deadline_us",
                        },
                    );
                }
            }
            proof {
                assert(finding_views(out@) =~= finding_views(before) + pair_finding(
                    ps,
                    a as int,
                    b as int,
                ));
                assert(findings(ps, a as int) + row_findings(ps, a as int, b + 1) =~= findings(
                    ps,
                    a as int,
                ) + row_findings(ps, a as int, b as int) + pair_finding(ps, a as int, b as int));
            }
            b += 1;
        }
        proof {
            assert(findings(ps, a + 1) == findings(ps, a as int) + row_findings(ps, a as int, n as int));
        }
        a += 1;
    }
    out
}

} // verus!
