//! The built-in mappers: `manual` (the legacy selector rules),
//! `rate_monotonic` and `deadline_monotonic` (one rank per distinct fact,
//! spread across the band) and `chain_aware` (band-compressed chain ranks).

use vstd::prelude::*;
use crate::platform::{PriorityBand, PlatformResources, band_reason};
use crate::resolve::{
    ResolvedTier, ResolvedTierTable, SchedNode, SchedError, tier_before, is_bare_default,
};
use crate::realize::{
    MapError, TieWarning, names_ascending, string_views, mitigated, spread, spread_priority,
    rr_policy_for_ties, ties_reported, usable_band, band_refusal, require_posix_band,
};
use crate::order::{seq_lt, names_sorted};
use crate::assoc::has_key;
use crate::text::{owned, str_eq};

verus! {

// ── Ranked plans ──

/// One rank: the nodes whose ranking fact is exactly equal, and the label
/// naming that shared fact.
#[derive(Debug, Clone)]
pub struct RankGroup {
    /// How a tier holding more than one node names itself (`rate_hz=30`).
    pub label: String,
    /// Members, in the mapper's tie-break order.
    pub nodes: Vec<String>,
}

/// A ranked plan: the tier table, each ranked node's priority by name, and
/// the ties the host's slice cannot mitigate.
#[derive(Debug, Clone)]
pub struct RankedOutcome {
    pub table: ResolvedTierTable,
    pub node_priority: Vec<(String, i64)>,
    pub ties: Vec<TieWarning>,
}

/// Each node of group `g` paired with priority `p`.
pub open spec fn group_assigned(g: RankGroup, p: int) -> Seq<(Seq<char>, int)> {
    Seq::new(g.nodes@.len(), |j: int| (g.nodes@[j]@, p))
}

/// Every node of the first `m` groups with the priority its group gets, in
/// group order.
pub open spec fn assigned(groups: Seq<RankGroup>, band: PriorityBand, m: int) -> Seq<(Seq<char>, int)>
    decreases m,
{
    if m <= 0 {
        Seq::empty()
    } else {
        assigned(groups, band, m - 1) + group_assigned(
            groups[m - 1],
            spread(m - 1, groups.len() as int, band),
        )
    }
}

/// The value last assigned to `n` among the first `m` assignments.
pub open spec fn last_value(s: Seq<(Seq<char>, int)>, n: Seq<char>, m: int) -> Option<int>
    decreases m,
{
    if m <= 0 {
        None
    } else if s[m - 1].0 == n {
        Some(s[m - 1].1)
    } else {
        last_value(s, n, m - 1)
    }
}

/// `t` is the tier of rank `g` at `prio`: named after its only member, or
/// after the shared fact when it holds several; `SCHED_RR` exactly when its
/// first member (by name) is a mitigated tie.
pub open spec fn group_tier(
    t: ResolvedTier,
    g: RankGroup,
    prio: int,
    np: Seq<(String, i64)>,
    periods: Seq<(String, Option<u64>)>,
    slice: Option<u64>,
) -> bool {
    let rr = t.members@.len() > 0 && exists|i: int|
        0 <= i < np.len() && (#[trigger] np[i]).0@ == t.members@[0]@ && mitigated(
            np,
            periods,
            slice,
            np[i].1,
        );
    &&& names_sorted(t.members@)
    &&& t.members@.to_multiset() == g.nodes@.to_multiset()
    &&& t.name@ == (if g.nodes@.len() == 1 {
        g.nodes@[0]@
    } else {
        g.label@
    })
    &&& t.priority == prio
    &&& t.sched_class is Some
    &&& t.sched_class->0@ == (if rr {
        "SCHED_RR"@
    } else {
        "SCHED_FIFO"@
    })
    &&& t.class is Some
    &&& t.class->0@ == "real_time"@
    &&& t.posix is None
    &&& t.stack_bytes is None
    &&& t.core is None
    &&& t.preempt_threshold is None
    &&& t.period_us is None
    &&& t.budget_us is None
    &&& t.deadline_us is None
    &&& t.deadline_policy is None
    &&& t.spin_period_us is None
}

/// Tiers in plan order: by priority descending, then name ascending.
pub open spec fn tiers_sorted(v: Seq<ResolvedTier>) -> bool {
    forall|i: int, j: int| 0 <= i < j < v.len() ==> !tier_before(#[trigger] v[j], #[trigger] v[i])
}

/// What [`build_ranked_plan`] returns for `groups` and `rest`.
pub open spec fn ranked_outcome(
    groups: Seq<RankGroup>,
    rest: Seq<String>,
    band: PriorityBand,
    slice: Option<u64>,
    periods: Seq<(String, Option<u64>)>,
    r: RankedOutcome,
) -> bool {
    let asg = assigned(groups, band, groups.len() as int);
    let np = r.node_priority@;
    let tiers = r.table.tiers@;
    &&& names_ascending(np)
    &&& forall|n: Seq<char>|
        #[trigger] has_key(np, n) <==> exists|k: int| 0 <= k < asg.len() && asg[k].0 == n
    &&& forall|k: int|
        0 <= k < np.len() ==> Some((#[trigger] np[k]).1 as int) == last_value(
            asg,
            np[k].0@,
            asg.len() as int,
        )
    &&& ties_reported(np, periods, slice, r.ties@)
    &&& tiers_sorted(tiers)
    &&& tiers.len() == groups.len() + (if rest.len() > 0 {
        1int
    } else {
        0int
    })
    &&& forall|q: int|
        0 <= q < tiers.len() ==> {
            ||| exists|g: int|
                0 <= g < groups.len() && group_tier(
                    #[trigger] tiers[q],
                    groups[g],
                    spread(g, groups.len() as int, band),
                    np,
                    periods,
                    slice,
                )
            ||| {
                &&& is_bare_default(tiers[q])
                &&& names_sorted(tiers[q].members@)
                &&& tiers[q].members@.to_multiset() == rest.to_multiset()
                &&& rest.len() > 0
            }
        }
    &&& forall|g: int|
        0 <= g < groups.len() ==> has_group_tier(
            tiers,
            #[trigger] groups[g],
            spread(g, groups.len() as int, band),
            np,
            periods,
            slice,
        )
}

/// Some tier of `tiers` is the tier of rank `g` at `prio`.
pub open spec fn has_group_tier(
    tiers: Seq<ResolvedTier>,
    g: RankGroup,
    prio: int,
    np: Seq<(String, i64)>,
    periods: Seq<(String, Option<u64>)>,
    slice: Option<u64>,
) -> bool {
    exists|q: int| 0 <= q < tiers.len() && group_tier(#[trigger] tiers[q], g, prio, np, periods, slice)
}

/// The pairs of `v`, by view.
pub open spec fn pair_views(v: Seq<(String, i64)>) -> Seq<(Seq<char>, int)> {
    Seq::new(v.len(), |k: int| (v[k].0@, v[k].1 as int))
}

/// Set `name` to `prio`, keeping the names ascending.
fn put_sorted(np: &mut Vec<(String, i64)>, name: &String, prio: i64)
    requires
        names_ascending(old(np)@),
    ensures
        names_ascending(final(np)@),
        forall|n: Seq<char>|
            #[trigger] has_key(final(np)@, n) <==> (has_key(old(np)@, n) || n == name@),
        forall|k: int|
            0 <= k < final(np)@.len() ==> if (#[trigger] final(np)@[k]).0@ == name@ {
                final(np)@[k].1 == prio
            } else {
                exists|j: int| 0 <= j < old(np)@.len() && old(np)@[j] == final(np)@[k]
            },
{
    let ghost before = np@;
    let mut p: usize = 0;
    while p < np.len() && crate::order::str_lt(np[p].0.as_str(), name.as_str())
        invariant
            p <= np@.len(),
            np@ == before,
            forall|i: int| 0 <= i < p ==> seq_lt(#[trigger] np@[i].0@, name@),
        decreases np@.len() - p,
    {
        p += 1;
    }
    proof {
        if p < before.len() {
            crate::order::lemma_lt_total(before[p as int].0@, name@);
        }
    }
    if p < np.len() && str_eq(np[p].0.as_str(), name.as_str()) {
        let key = np[p].0.clone();
        np.set(p, (key, prio));
        proof {
            assert forall|i: int, j: int|
                0 <= i < j < np@.len() implies seq_lt(#[trigger] np@[i].0@, #[trigger] np@[j].0@) by {
                assert(np@[i].0@ == before[i].0@ && np@[j].0@ == before[j].0@);
            }
            assert forall|n: Seq<char>| #[trigger] has_key(np@, n) <==> (has_key(before, n) || n
                == name@) by {
                if has_key(np@, n) {
                    let i = choose|i: int| 0 <= i < np@.len() && #[trigger] np@[i].0@ == n;
                    assert(before[i].0@ == n);
                }
                if has_key(before, n) {
                    let i = choose|i: int| 0 <= i < before.len() && #[trigger] before[i].0@ == n;
                    assert(np@[i].0@ == n);
                }
                if n == name@ {
                    assert(np@[p as int].0@ == n);
                }
            }
            assert forall|k: int| 0 <= k < np@.len() implies if (#[trigger] np@[k]).0@ == name@ {
                np@[k].1 == prio
            } else {
                exists|j: int| 0 <= j < before.len() && before[j] == np@[k]
            } by {
                if np@[k].0@ == name@ {
                    if k != p {
                        if k < p {
                            crate::order::lemma_lt_irreflexive(name@);
                        } else {
                            crate::order::lemma_lt_asymmetric(before[p as int].0@, before[k].0@);
                            crate::order::lemma_lt_irreflexive(name@);
                        }
                    }
                } else {
                    assert(k != p);
                    assert(np@[k] == before[k]);
                }
            }
        }
    } else {
        np.insert(p, (name.clone(), prio));
        proof {
            assert forall|i: int| 0 <= i < before.len() implies before[i].0@ != name@ by {
                if before[i].0@ == name@ {
                    if i < p {
                        crate::order::lemma_lt_irreflexive(name@);
                    } else if i > p {
                        assert(seq_lt(before[p as int].0@, before[i].0@));
                        if seq_lt(name@, before[p as int].0@) {
                            crate::order::lemma_lt_transitive(name@, before[p as int].0@, name@);
                        }
                        crate::order::lemma_lt_irreflexive(name@);
                    }
                }
            }
            assert forall|i: int, j: int|
                0 <= i < j < np@.len() implies seq_lt(#[trigger] np@[i].0@, #[trigger] np@[j].0@) by {
                if j < p {
                    assert(np@[i] == before[i] && np@[j] == before[j]);
                } else if j == p {
                    assert(np@[i] == before[i]);
                } else if i < p {
                    assert(np@[i] == before[i] && np@[j] == before[j - 1]);
                } else if i == p {
                    assert(np@[j] == before[j - 1]);
                    assert(seq_lt(name@, before[p as int].0@));
                    if j - 1 > p {
                        crate::order::lemma_lt_transitive(name@, before[p as int].0@, before[j - 1].0@);
                    }
                } else {
                    assert(np@[i] == before[i - 1] && np@[j] == before[j - 1]);
                }
            }
            assert forall|n: Seq<char>| #[trigger] has_key(np@, n) <==> (has_key(before, n) || n
                == name@) by {
                if has_key(np@, n) {
                    let i = choose|i: int| 0 <= i < np@.len() && #[trigger] np@[i].0@ == n;
                    if i < p {
                        assert(before[i].0@ == n);
                    } else if i > p {
                        assert(before[i - 1].0@ == n);
                    }
                }
                if has_key(before, n) {
                    let i = choose|i: int| 0 <= i < before.len() && #[trigger] before[i].0@ == n;
                    if i < p {
                        assert(np@[i].0@ == n);
                    } else {
                        assert(np@[i + 1].0@ == n);
                    }
                }
                if n == name@ {
                    assert(np@[p as int].0@ == n);
                }
            }
            assert forall|k: int| 0 <= k < np@.len() implies if (#[trigger] np@[k]).0@ == name@ {
                np@[k].1 == prio
            } else {
                exists|j: int| 0 <= j < before.len() && before[j] == np@[k]
            } by {
                if k < p {
                    assert(np@[k] == before[k]);
                } else if k > p {
                    assert(np@[k] == before[k - 1]);
                }
            }
        }
    }
}


/// A copy of a list of names.
pub fn copy_names(v: &Vec<String>) -> (r: Vec<String>)
    ensures
        r@ == v@,
{
    let mut r: Vec<String> = Vec::new();
    let mut i: usize = 0;
    while i < v.len()
        invariant
            i <= v@.len(),
            r@ == v@.take(i as int),
        decreases v@.len() - i,
    {
        r.push(v[i].clone());
        i += 1;
        assert(r@ =~= v@.take(i as int));
    }
    assert(v@.take(i as int) =~= v@);
    r
}

/// Put `x` into `v` after every tier that does not come after it.
fn insert_tier_sorted(v: &mut Vec<ResolvedTier>, x: ResolvedTier)
    requires
        tiers_sorted(old(v)@),
    ensures
        tiers_sorted(final(v)@),
        final(v)@.to_multiset() == old(v)@.to_multiset().insert(x),
{
    let mut p: usize = 0;
    while p < v.len() && !(x.priority > v[p].priority || (x.priority == v[p].priority
        && crate::order::str_lt(x.name.as_str(), v[p].name.as_str())))
        invariant
            p <= v@.len(),
            forall|i: int| 0 <= i < p ==> !tier_before(x, #[trigger] v@[i]),
        decreases v@.len() - p,
    {
        p += 1;
    }
    let ghost before = v@;
    v.insert(p, x);
    proof {
        let s2 = v@;
        s2.to_multiset_ensures();
        before.to_multiset_ensures();
        assert(s2.remove(p as int) =~= before);
        assert(s2[p as int] == x);
        assert(s2.to_multiset() =~= before.to_multiset().insert(x));
        assert forall|i: int, j: int| 0 <= i < j < s2.len() implies !tier_before(
            #[trigger] s2[j],
            #[trigger] s2[i],
        ) by {
            if j < p {
                assert(s2[i] == before[i] && s2[j] == before[j]);
            } else if j == p {
                assert(s2[i] == before[i]);
                crate::order::lemma_lt_asymmetric(x.name@, before[i].name@);
                if tier_before(x, before[i]) {
                } else {
                    assert(!tier_before(x, before[i]));
                    crate::order::lemma_lt_total(x.name@, before[i].name@);
                }
            } else if i < p {
                assert(s2[i] == before[i] && s2[j] == before[j - 1]);
            } else if i == p {
                assert(s2[j] == before[j - 1]);
                if j - 1 == p {
                    crate::order::lemma_lt_asymmetric(x.name@, before[p as int].name@);
                } else {
                    lemma_not_before_chain(x, before[p as int], before[j - 1]);
                }
            } else {
                assert(s2[i] == before[i - 1] && s2[j] == before[j - 1]);
            }
        }
    }
}

proof fn lemma_not_before_chain(x: ResolvedTier, y: ResolvedTier, z: ResolvedTier)
    requires
        tier_before(x, y),
        !tier_before(z, y),
    ensures
        !tier_before(z, x),
{
    if z.priority == x.priority && x.priority == y.priority && seq_lt(z.name@, x.name@) {
        crate::order::lemma_lt_transitive(z.name@, x.name@, y.name@);
    }
}

/// Put tiers in plan order, keeping every one.
pub(crate) fn sort_tiers_weak(v: Vec<ResolvedTier>) -> (r: Vec<ResolvedTier>)
    ensures
        tiers_sorted(r@),
        r@.to_multiset() == v@.to_multiset(),
{
    let mut out: Vec<ResolvedTier> = Vec::new();
    let mut rest = v;
    let ghost orig = rest@;
    let total = rest.len();
    assert(orig.len() == total);
    let mut i: usize = 0;
    proof {
        assert(orig.take(0) =~= Seq::<ResolvedTier>::empty());
        assert(out@ =~= Seq::<ResolvedTier>::empty());
    }
    while rest.len() > 0
        invariant
            tiers_sorted(out@),
            i + rest@.len() == orig.len(),
            rest@ == orig.skip(i as int),
            i <= orig.len(),
            orig.len() <= usize::MAX,
            out@.to_multiset() == orig.take(i as int).to_multiset(),
        decreases rest@.len(),
    {
        assert(rest@[0] == orig[i as int]);
        let x = rest.remove(0);
        insert_tier_sorted(&mut out, x);
        proof {
            assert(orig.take(i + 1) =~= orig.take(i as int).push(orig[i as int]));
            orig.take(i as int).to_multiset_ensures();
        }
        i += 1;
        assert(rest@ =~= orig.skip(i as int));
    }
    assert(orig.take(i as int) =~= orig);
    out
}


proof fn lemma_assigned_len(groups: Seq<RankGroup>, band: PriorityBand, m: int)
    requires
        0 <= m <= groups.len(),
    ensures
        assigned(groups, band, m).len() >= 0,
    decreases m,
{
    if m > 0 {
        lemma_assigned_len(groups, band, m - 1);
    }
}

/// Every node of the ranks, with its rank's priority, in rank order.
fn assign_all(groups: &Vec<RankGroup>, band: &PriorityBand) -> (flat: Vec<(String, i64)>)
    requires
        band_reason(*band) is None,
    ensures
        pair_views(flat@) == assigned(groups@, *band, groups@.len() as int),
{
    let n = groups.len();
    let mut flat: Vec<(String, i64)> = Vec::new();
    let mut gi: usize = 0;
    assert(pair_views(flat@) =~= assigned(groups@, *band, 0));
    while gi < n
        invariant
            n == groups@.len(),
            gi <= n,
            band_reason(*band) is None,
            pair_views(flat@) == assigned(groups@, *band, gi as int),
        decreases n - gi,
    {
        let pr = spread_priority(gi, n, band);
        let g = &groups[gi];
        let ghost base = assigned(groups@, *band, gi as int);
        let ghost ga = group_assigned(groups@[gi as int], pr as int);
        let mut j: usize = 0;
        assert(pair_views(flat@) =~= base + ga.take(0));
        while j < g.nodes.len()
            invariant
                j <= g.nodes@.len(),
                *g == groups@[gi as int],
                ga == group_assigned(groups@[gi as int], pr as int),
                pair_views(flat@) == base + ga.take(j as int),
            decreases g.nodes@.len() - j,
        {
            let ghost before = flat@;
            flat.push((g.nodes[j].clone(), pr));
            proof {
                assert(pair_views(flat@) =~= pair_views(before).push((g.nodes@[j as int]@, pr as int)));
                assert(ga.take(j + 1) =~= ga.take(j as int).push(ga[j as int]));
                assert((base + ga.take(j as int)).push(ga[j as int]) =~= base + ga.take(j + 1));
            }
            j += 1;
        }
        proof {
            assert(ga.take(j as int) =~= ga);
            assert(pr as int == spread(gi as int, groups@.len() as int, *band));
        }
        gi += 1;
    }
    flat
}

/// The last value each name gets in `flat`, by name ascending.
fn last_values(flat: &Vec<(String, i64)>) -> (np: Vec<(String, i64)>)
    ensures
        names_ascending(np@),
        forall|n: Seq<char>|
            #[trigger] has_key(np@, n) <==> exists|k: int|
                0 <= k < flat@.len() && pair_views(flat@)[k].0 == n,
        forall|k: int|
            0 <= k < np@.len() ==> Some((#[trigger] np@[k]).1 as int) == last_value(
                pair_views(flat@),
                np@[k].0@,
                flat@.len() as int,
            ),
{
    let ghost fv = pair_views(flat@);
    let mut np: Vec<(String, i64)> = Vec::new();
    let mut i: usize = 0;
    while i < flat.len()
        invariant
            i <= flat@.len(),
            fv == pair_views(flat@),
            names_ascending(np@),
            forall|n: Seq<char>|
                #[trigger] has_key(np@, n) <==> exists|k: int| 0 <= k < i && fv[k].0 == n,
            forall|k: int|
                0 <= k < np@.len() ==> Some((#[trigger] np@[k]).1 as int) == last_value(
                    fv,
                    np@[k].0@,
                    i as int,
                ),
        decreases flat@.len() - i,
    {
        let ghost before = np@;
        put_sorted(&mut np, &flat[i].0, flat[i].1);
        proof {
            assert(fv[i as int] == (flat@[i as int].0@, flat@[i as int].1 as int));
            assert forall|n: Seq<char>| #[trigger] has_key(np@, n) <==> exists|k: int|
                0 <= k < i + 1 && fv[k].0 == n by {
                if exists|k: int| 0 <= k < i + 1 && fv[k].0 == n {
                    let k = choose|k: int| 0 <= k < i + 1 && fv[k].0 == n;
                    if k < i {
                        assert(has_key(before, n));
                    }
                }
            }
            assert forall|k: int| 0 <= k < np@.len() implies Some((#[trigger] np@[k]).1 as int)
                == last_value(fv, np@[k].0@, i + 1) by {
                if np@[k].0@ != flat@[i as int].0@ {
                    let j = choose|j: int| 0 <= j < before.len() && before[j] == np@[k];
                    assert(Some(before[j].1 as int) == last_value(fv, before[j].0@, i as int));
                }
            }
        }
        i += 1;
    }
    np
}

/// One tier per rank, in rank order.
fn rank_tiers(
    groups: &Vec<RankGroup>,
    band: &PriorityBand,
    np: &Vec<(String, i64)>,
    rr: &Vec<String>,
    periods: &Vec<(String, Option<u64>)>,
    rr_slice_us: Option<u64>,
) -> (tiers: Vec<ResolvedTier>)
    requires
        band_reason(*band) is None,
        forall|n2: Seq<char>|
            #![trigger string_views(rr@).contains(n2)]
            string_views(rr@).contains(n2) <==> exists|i: int|
                0 <= i < np@.len() && #[trigger] np@[i].0@ == n2 && mitigated(
                    np@,
                    periods@,
                    rr_slice_us,
                    np@[i].1,
                ),
    ensures
        tiers@.len() == groups@.len(),
        forall|g: int|
            0 <= g < groups@.len() ==> group_tier(
                #[trigger] tiers@[g],
                groups@[g],
                spread(g, groups@.len() as int, *band),
                np@,
                periods@,
                rr_slice_us,
            ),
{
    let n = groups.len();
    let mut tiers: Vec<ResolvedTier> = Vec::new();
    let mut gi: usize = 0;
    while gi < n
        invariant
            n == groups@.len(),
            gi <= n,
            band_reason(*band) is None,
            tiers@.len() == gi,
            forall|n2: Seq<char>|
                #![trigger string_views(rr@).contains(n2)]
                string_views(rr@).contains(n2) <==> exists|i: int|
                    0 <= i < np@.len() && #[trigger] np@[i].0@ == n2 && mitigated(
                        np@,
                        periods@,
                        rr_slice_us,
                        np@[i].1,
                    ),
            forall|g: int|
                0 <= g < gi ==> group_tier(
                    #[trigger] tiers@[g],
                    groups@[g],
                    spread(g, n as int, *band),
                    np@,
                    periods@,
                    rr_slice_us,
                ),
        decreases n - gi,
    {
        let g = &groups[gi];
        let pr = spread_priority(gi, n, band);
        let members = crate::order::sort_names(copy_names(&g.nodes));
        let is_rr = members.len() > 0 && crate::assoc::names_contain(rr.as_slice(), members[0].as_str());
        proof {
            assert(rr@.map_values(|s: String| s@) =~= string_views(rr@));
            members@.to_multiset_ensures();
            g.nodes@.to_multiset_ensures();
        }
        let name = if members.len() == 1 {
            members[0].clone()
        } else {
            g.label.clone()
        };
        proof {
            if members@.len() == 1 {
                assert(g.nodes@.len() == 1);
                assert(members@.contains(members@[0]));
                assert(g.nodes@.to_multiset().count(members@[0]) > 0);
                assert(g.nodes@.contains(members@[0]));
                assert(g.nodes@[0] == members@[0]);
            }
        }
        let class = if is_rr {
            owned("SCHED_RR")
        } else {
            owned("SCHED_FIFO")
        };
        let t = ResolvedTier {
            name,
            priority: pr,
            stack_bytes: None,
            core: None,
            sched_class: Some(class),
            preempt_threshold: None,
            class: Some(owned("real_time")),
            period_us: None,
            budget_us: None,
            deadline_us: None,
            deadline_policy: None,
            spin_period_us: None,
            posix: None,
            members,
        };
        tiers.push(t);
        gi += 1;
    }
    tiers
}

/// Build a plan from ranks ordered highest first: rank `i` of `n` gets
/// [`spread`]`(i, n)`; a rank of one node is named after it, a larger one
/// after its shared fact, and takes `SCHED_RR` where the host's slice can
/// rotate the tie; the remaining nodes form the default tier.
#[verifier::spinoff_prover]
pub fn build_ranked_plan(
    groups: &Vec<RankGroup>,
    rest: &Vec<String>,
    band: &PriorityBand,
    rr_slice_us: Option<u64>,
    periods: &Vec<(String, Option<u64>)>,
) -> (r: RankedOutcome)
    requires
        band_reason(*band) is None,
    ensures
        ranked_outcome(groups@, rest@, *band, rr_slice_us, periods@, r),
{
    let flat = assign_all(groups, band);
    let np = last_values(&flat);
    let (rr, ties) = rr_policy_for_ties(&np, periods, rr_slice_us);
    let mut tiers = rank_tiers(groups, band, &np, &rr, periods, rr_slice_us);
    let ghost ngroups = tiers@.len();
    if rest.len() > 0 {
        let members = crate::order::sort_names(copy_names(rest));
        tiers.push(ResolvedTier::default_tier(members));
    }
    let ghost unsorted = tiers@;
    let sorted = sort_tiers_weak(tiers);
    proof {
        lemma_tiers_placed(groups@, rest@, *band, np@, periods@, rr_slice_us, unsorted, sorted@, ngroups as int);
    }
    RankedOutcome {
        table: ResolvedTierTable { tiers: sorted },
        node_priority: np,
        ties,
    }
}

proof fn lemma_tiers_placed(
    groups: Seq<RankGroup>,
    rest: Seq<String>,
    band: PriorityBand,
    np: Seq<(String, i64)>,
    periods: Seq<(String, Option<u64>)>,
    slice: Option<u64>,
    unsorted: Seq<ResolvedTier>,
    sorted: Seq<ResolvedTier>,
    ngroups: int,
)
    requires
        ngroups == groups.len(),
        unsorted.len() == ngroups + (if rest.len() > 0 {
            1int
        } else {
            0int
        }),
        forall|g: int|
            0 <= g < ngroups ==> group_tier(
                #[trigger] unsorted[g],
                groups[g],
                spread(g, groups.len() as int, band),
                np,
                periods,
                slice,
            ),
        rest.len() > 0 ==> {
            &&& is_bare_default(unsorted[ngroups])
            &&& names_sorted(unsorted[ngroups].members@)
            &&& unsorted[ngroups].members@.to_multiset() == rest.to_multiset()
        },
        sorted.to_multiset() == unsorted.to_multiset(),
    ensures
        sorted.len() == unsorted.len(),
        forall|q: int|
            0 <= q < sorted.len() ==> {
                ||| exists|g: int|
                    0 <= g < groups.len() && group_tier(
                        #[trigger] sorted[q],
                        groups[g],
                        spread(g, groups.len() as int, band),
                        np,
                        periods,
                        slice,
                    )
                ||| {
                    &&& is_bare_default(sorted[q])
                    &&& names_sorted(sorted[q].members@)
                    &&& sorted[q].members@.to_multiset() == rest.to_multiset()
                    &&& rest.len() > 0
                }
            },
        forall|g: int|
            0 <= g < groups.len() ==> has_group_tier(
                sorted,
                #[trigger] groups[g],
                spread(g, groups.len() as int, band),
                np,
                periods,
                slice,
            ),
{
    sorted.to_multiset_ensures();
    unsorted.to_multiset_ensures();
    assert forall|q: int| 0 <= q < sorted.len() implies exists|j: int|
        0 <= j < unsorted.len() && unsorted[j] == #[trigger] sorted[q] by {
        assert(sorted.contains(sorted[q]));
        assert(sorted.to_multiset().count(sorted[q]) > 0);
        assert(unsorted.to_multiset().count(sorted[q]) > 0);
        assert(unsorted.contains(sorted[q]));
    }
    assert forall|q: int| 0 <= q < sorted.len() implies {
        ||| exists|g: int|
            0 <= g < groups.len() && group_tier(
                #[trigger] sorted[q],
                groups[g],
                spread(g, groups.len() as int, band),
                np,
                periods,
                slice,
            )
        ||| {
            &&& is_bare_default(sorted[q])
            &&& names_sorted(sorted[q].members@)
            &&& sorted[q].members@.to_multiset() == rest.to_multiset()
            &&& rest.len() > 0
        }
    } by {
        let j = choose|j: int| 0 <= j < unsorted.len() && unsorted[j] == sorted[q];
        if j < ngroups {
            assert(group_tier(unsorted[j], groups[j], spread(j, groups.len() as int, band), np, periods, slice));
        }
    }
    assert forall|g: int| 0 <= g < groups.len() implies has_group_tier(
        sorted,
        #[trigger] groups[g],
        spread(g, groups.len() as int, band),
        np,
        periods,
        slice,
    ) by {
        assert(group_tier(unsorted[g], groups[g], spread(g, groups.len() as int, band), np, periods, slice));
        assert(unsorted.contains(unsorted[g]));
        assert(sorted.to_multiset().count(unsorted[g]) > 0);
        assert(sorted.contains(unsorted[g]));
        let q = choose|q: int| 0 <= q < sorted.len() && sorted[q] == unsorted[g];
        assert(group_tier(sorted[q], groups[g], spread(g, groups.len() as int, band), np, periods, slice));
    }
}


// ── The mappers ──

/// `manual`: the legacy tiers and `[[assign]]` rules, resolved for `posix`.
#[derive(Debug, Default)]
pub struct ManualMapper;

impl ManualMapper {
    /// The name this mapper is selected under.
    pub fn name(&self) -> (r: &'static str)
        ensures
            r@ == "manual"@,
    {
        "manual"
    }

    /// Resolve the legacy spec over `nodes`; without one there is nothing
    /// to resolve.
    pub fn map(&self, legacy: &Option<crate::sched_types::SystemSched>, nodes: &Vec<SchedNode>) -> (r:
        Result<ResolvedTierTable, MapError>)
        ensures
            match legacy {
                None => r == Err::<ResolvedTierTable, MapError>(MapError::MissingLegacySpec),
                Some(l) => {
                    &&& r is Ok <==> (crate::resolve::rules_name_defined_tiers(l.tiers@, l.assign@)
                        && !crate::resolve::binding_defect(l.assign@, nodes@)
                        && crate::resolve::groups_resolve(l.tiers@, l.assign@, nodes@, "posix"@))
                    &&& r matches Ok(t) ==> crate::resolve::table_resolved(
                        l.tiers@,
                        l.assign@,
                        nodes@,
                        "posix"@,
                        t.tiers@,
                    )
                    &&& r matches Err(e) ==> (e matches MapError::Resolve(se)
                        && crate::resolve::resolve_error_justified(
                        l.tiers@,
                        l.assign@,
                        nodes@,
                        "posix"@,
                        se@,
                    ))
                },
            },
    {
        match legacy {
            None => Err(MapError::MissingLegacySpec),
            Some(l) => match crate::resolve::resolve(&l.tiers, l.assign.as_slice(), nodes.as_slice(), "posix") {
                Ok(t) => Ok(t),
                Err(e) => Err(MapError::Resolve(e)),
            },
        }
    }
}

/// `rate_monotonic`: higher rate, higher priority; nodes at the same rate
/// share one rank. The ranking itself compares rates, so the caller hands
/// over the ranks; this applies the band and builds the plan.
#[derive(Debug, Default)]
pub struct RateMonotonicMapper;

impl RateMonotonicMapper {
    /// The name this mapper is selected under.
    pub fn name(&self) -> (r: &'static str)
        ensures
            r@ == "rate_monotonic"@,
    {
        "rate_monotonic"
    }

    /// The plan for ranks already ordered fastest first, with `rest` the
    /// nodes without a rate and `periods` each ranked node's period.
    pub fn map_ranked(
        &self,
        groups: &Vec<RankGroup>,
        rest: &Vec<String>,
        facts: &PlatformResources,
        periods: &Vec<(String, Option<u64>)>,
    ) -> (r: Result<RankedOutcome, MapError>)
        ensures
            r is Err <==> usable_band(*facts) is None,
            r matches Err(e) ==> band_refusal(*facts, "rate_monotonic"@, e),
            r matches Ok(out) ==> ranked_outcome(
                groups@,
                rest@,
                usable_band(*facts)->0,
                crate::realize::host_rr_slice(*facts),
                periods@,
                out,
            ),
    {
        let band = match require_posix_band(facts, "rate_monotonic") {
            Ok(b) => b,
            Err(e) => {
                return Err(e);
            },
        };
        let slice = match facts {
            PlatformResources::Posix(x) => x.rr_timeslice_us,
            PlatformResources::Raw(_) => None,
        };
        Ok(build_ranked_plan(groups, rest, &band, slice, periods))
    }
}

/// `chain_aware`: chain-ordered ranks, band-compressed into OS priorities.
/// The ranking weighs latency budgets, so the caller hands over the ranked
/// items; this realizes them for `posix`.
#[derive(Debug, Default)]
pub struct ChainAwareMapper;

impl ChainAwareMapper {
    /// The name this mapper is selected under.
    pub fn name(&self) -> (r: &'static str)
        ensures
            r@ == "chain_aware"@,
    {
        "chain_aware"
    }

    /// The `posix` plan for the ranked `items`.
    pub fn realize(
        &self,
        items: &[crate::chain_rank::RankItem],
        node_names: &Vec<String>,
        facts: &PlatformResources,
        periods: &Vec<(String, Option<u64>)>,
    ) -> (r: Result<crate::realize::PosixRealization, MapError>)
        requires
            items@.len() <= i64::MAX,
        ensures
            r is Err <==> usable_band(*facts) is None,
            r matches Err(e) ==> band_refusal(*facts, "chain_aware"@, e),
            r matches Ok(plan) ==> crate::realize::posix_realized(
                items@,
                node_names@,
                usable_band(*facts)->0,
                crate::realize::host_rr_slice(*facts),
                periods@,
                plan,
            ),
    {
        crate::realize::realize_posix(items, node_names, facts, periods)
    }
}


// ── Deadline-monotonic ranking ──

/// The nodes among the first `m` that carry a deadline, in input order.
pub open spec fn with_deadline(nodes: Seq<(String, Option<u64>)>, m: int) -> Seq<(String, u64)>
    decreases m,
{
    if m <= 0 {
        Seq::empty()
    } else {
        match nodes[m - 1].1 {
            Some(d) => with_deadline(nodes, m - 1).push((nodes[m - 1].0, d)),
            None => with_deadline(nodes, m - 1),
        }
    }
}

/// The names of the nodes among the first `m` without a deadline, in input order.
pub open spec fn without_deadline(nodes: Seq<(String, Option<u64>)>, m: int) -> Seq<String>
    decreases m,
{
    if m <= 0 {
        Seq::empty()
    } else {
        match nodes[m - 1].1 {
            Some(_) => without_deadline(nodes, m - 1),
            None => without_deadline(nodes, m - 1).push(nodes[m - 1].0),
        }
    }
}

/// `a` ranks strictly before `b`: a shorter deadline, or the same deadline
/// and a smaller name.
pub open spec fn entry_before(a: (String, u64), b: (String, u64)) -> bool {
    a.1 < b.1 || (a.1 == b.1 && seq_lt(a.0@, b.0@))
}

/// Deadline ascending, then name ascending.
pub open spec fn entries_sorted(e: Seq<(String, u64)>) -> bool {
    forall|i: int, j: int| 0 <= i < j < e.len() ==> !entry_before(#[trigger] e[j], #[trigger] e[i])
}

/// How a tier of tied deadlines names itself.
pub open spec fn deadline_label(d: u64) -> Seq<char> {
    "deadline_us="@ + crate::text::nat_text(d as nat)
}

/// The ranks of the first `m` sorted entries: each maximal run of one
/// deadline, as its label and its names.
pub open spec fn deadline_runs(e: Seq<(String, u64)>, m: int) -> Seq<(Seq<char>, Seq<String>)>
    decreases m,
{
    if m <= 0 {
        Seq::empty()
    } else {
        let r = deadline_runs(e, m - 1);
        if m >= 2 && e[m - 2].1 == e[m - 1].1 {
            r.update(r.len() - 1, (r.last().0, r.last().1.push(e[m - 1].0)))
        } else {
            r.push((deadline_label(e[m - 1].1), seq![e[m - 1].0]))
        }
    }
}

/// The ranks, by label and members.
pub open spec fn group_views(g: Seq<RankGroup>) -> Seq<(Seq<char>, Seq<String>)> {
    Seq::new(g.len(), |i: int| (g[i].label@, g[i].nodes@))
}

/// The period each ranked node is judged by: its deadline, read from the
/// last entry of that name in rank order.
pub open spec fn deadline_periods(e: Seq<(String, u64)>) -> Seq<(String, Option<u64>)> {
    Seq::new(e.len(), |k: int| (e[e.len() - 1 - k].0, Some(e[e.len() - 1 - k].1)))
}

/// What the deadline-monotonic mapper returns for `nodes`: the nodes with a
/// deadline, sorted by it and then by name, cut into runs of one deadline and
/// ranked in that order; the nodes without one in the default tier.
pub open spec fn deadline_outcome(
    nodes: Seq<(String, Option<u64>)>,
    band: PriorityBand,
    slice: Option<u64>,
    out: RankedOutcome,
) -> bool {
    exists|e: Seq<(String, u64)>, groups: Seq<RankGroup>|
        #![trigger entries_sorted(e), group_views(groups)]
        {
            &&& entries_sorted(e)
            &&& e.to_multiset() == with_deadline(nodes, nodes.len() as int).to_multiset()
            &&& group_views(groups) == deadline_runs(e, e.len() as int)
            &&& ranked_outcome(
                groups,
                without_deadline(nodes, nodes.len() as int),
                band,
                slice,
                deadline_periods(e),
                out,
            )
        }
}

proof fn lemma_runs_len(e: Seq<(String, u64)>, m: int)
    requires
        0 <= m,
    ensures
        m > 0 ==> deadline_runs(e, m).len() > 0,
        deadline_runs(e, m).len() <= m,
    decreases m,
{
    if m > 0 {
        lemma_runs_len(e, m - 1);
    }
}

/// Put `x` into `v` after every entry that does not rank after it.
fn insert_entry(v: &mut Vec<(String, u64)>, x: (String, u64))
    requires
        entries_sorted(old(v)@),
    ensures
        entries_sorted(final(v)@),
        final(v)@.to_multiset() == old(v)@.to_multiset().insert(x),
{
    let mut p: usize = 0;
    while p < v.len() && !(x.1 < v[p].1 || (x.1 == v[p].1 && crate::order::str_lt(
        x.0.as_str(),
        v[p].0.as_str(),
    )))
        invariant
            p <= v@.len(),
            forall|i: int| 0 <= i < p ==> !entry_before(x, #[trigger] v@[i]),
        decreases v@.len() - p,
    {
        p += 1;
    }
    let ghost before = v@;
    v.insert(p, x);
    proof {
        let s2 = v@;
        s2.to_multiset_ensures();
        before.to_multiset_ensures();
        assert(s2.remove(p as int) =~= before);
        assert(s2[p as int] == x);
        assert(s2.to_multiset() =~= before.to_multiset().insert(x));
        assert forall|i: int, j: int| 0 <= i < j < s2.len() implies !entry_before(
            #[trigger] s2[j],
            #[trigger] s2[i],
        ) by {
            if j < p {
                assert(s2[i] == before[i] && s2[j] == before[j]);
            } else if j == p {
                assert(s2[i] == before[i]);
                crate::order::lemma_lt_asymmetric(x.0@, before[i].0@);
                if !entry_before(x, before[i]) {
                    crate::order::lemma_lt_total(x.0@, before[i].0@);
                }
            } else if i < p {
                assert(s2[i] == before[i] && s2[j] == before[j - 1]);
            } else if i == p {
                assert(s2[j] == before[j - 1]);
                let y = before[p as int];
                let z = before[j - 1];
                crate::order::lemma_lt_asymmetric(x.0@, y.0@);
                if j - 1 > p && z.1 == x.1 && x.1 == y.1 && seq_lt(z.0@, x.0@) {
                    crate::order::lemma_lt_transitive(z.0@, x.0@, y.0@);
                }
            } else {
                assert(s2[i] == before[i - 1] && s2[j] == before[j - 1]);
            }
        }
    }
}

/// The entries in rank order.
fn sort_entries(v: Vec<(String, u64)>) -> (r: Vec<(String, u64)>)
    ensures
        entries_sorted(r@),
        r@.to_multiset() == v@.to_multiset(),
{
    let mut out: Vec<(String, u64)> = Vec::new();
    let mut rest = v;
    let ghost orig = rest@;
    let total = rest.len();
    assert(orig.len() == total);
    let mut i: usize = 0;
    proof {
        assert(orig.take(0) =~= Seq::<(String, u64)>::empty());
        assert(out@ =~= Seq::<(String, u64)>::empty());
    }
    while rest.len() > 0
        invariant
            entries_sorted(out@),
            i + rest@.len() == orig.len(),
            rest@ == orig.skip(i as int),
            i <= orig.len(),
            orig.len() <= usize::MAX,
            out@.to_multiset() == orig.take(i as int).to_multiset(),
        decreases rest@.len(),
    {
        assert(rest@[0] == orig[i as int]);
        let x = rest.remove(0);
        insert_entry(&mut out, x);
        proof {
            assert(orig.take(i + 1) =~= orig.take(i as int).push(orig[i as int]));
            orig.take(i as int).to_multiset_ensures();
        }
        i += 1;
        assert(rest@ =~= orig.skip(i as int));
    }
    assert(orig.take(i as int) =~= orig);
    out
}

/// One rank per distinct deadline of the sorted entries.
fn deadline_groups(e: &Vec<(String, u64)>) -> (g: Vec<RankGroup>)
    ensures
        group_views(g@) == deadline_runs(e@, e@.len() as int),
{
    let mut g: Vec<RankGroup> = Vec::new();
    let mut i: usize = 0;
    assert(group_views(g@) =~= deadline_runs(e@, 0));
    while i < e.len()
        invariant
            i <= e@.len(),
            group_views(g@) == deadline_runs(e@, i as int),
        decreases e@.len() - i,
    {
        proof {
            lemma_runs_len(e@, i as int);
        }
        let ghost before = g@;
        if i > 0 && e[i - 1].1 == e[i].1 {
            assert(before.len() > 0);
            let mut last = g.pop().unwrap();
            assert(last == before.last());
            let ghost mid = g@;
            assert(mid =~= before.drop_last());
            last.nodes.push(e[i].0.clone());
            g.push(last);
            proof {
                let r = deadline_runs(e@, i as int);
                assert(r == group_views(before));
                assert(r.last() == (before.last().label@, before.last().nodes@));
                assert(g@.len() == before.len());
                assert forall|k: int| 0 <= k < g@.len() - 1 implies g@[k] == before[k] by {
                    assert(g@[k] == mid[k]);
                }
                let nr = r.update(r.len() - 1, (r.last().0, r.last().1.push(e@[i as int].0)));
                assert(deadline_runs(e@, i + 1) == nr);
                assert(g@.last().nodes@ == before.last().nodes@.push(e@[i as int].0));
                assert(g@.last().label == before.last().label);
                assert(group_views(g@) =~= nr);
            }
        } else {
            let mut label = String::new();
            crate::text::push_str(&mut label, "deadline_us=");
            crate::text::push_nat(&mut label, e[i].1);
            let mut nodes: Vec<String> = Vec::new();
            nodes.push(e[i].0.clone());
            assert(label@ =~= deadline_label(e@[i as int].1));
            assert(nodes@ =~= seq![e@[i as int].0]);
            g.push(RankGroup { label, nodes });
            proof {
                let r = deadline_runs(e@, i as int);
                assert(deadline_runs(e@, i + 1) == r.push((deadline_label(e@[i as int].1), seq![e@[i as int].0])));
                assert(group_views(g@) =~= deadline_runs(e@, i + 1));
            }
        }
        i += 1;
    }
    g
}

/// `deadline_monotonic`: shorter deadline, higher priority; nodes with the
/// same deadline share one rank, and a node's deadline is the period its
/// tie is judged by. Nodes without a deadline go to the default tier.
#[derive(Debug, Default)]
pub struct DeadlineMonotonicMapper;

impl DeadlineMonotonicMapper {
    /// The name this mapper is selected under.
    pub fn name(&self) -> (r: &'static str)
        ensures
            r@ == "deadline_monotonic"@,
    {
        "deadline_monotonic"
    }

    /// The plan for `nodes`, each a name and its deadline in microseconds.
    pub fn map_deadlines(&self, nodes: &Vec<(String, Option<u64>)>, facts: &PlatformResources) -> (r:
        Result<RankedOutcome, MapError>)
        ensures
            r is Err <==> usable_band(*facts) is None,
            r matches Err(e) ==> band_refusal(*facts, "deadline_monotonic"@, e),
            r matches Ok(out) ==> deadline_outcome(
                nodes@,
                usable_band(*facts)->0,
                crate::realize::host_rr_slice(*facts),
                out,
            ),
    {
        let band = match require_posix_band(facts, "deadline_monotonic") {
            Ok(b) => b,
            Err(e) => {
                return Err(e);
            },
        };
        let mut entries: Vec<(String, u64)> = Vec::new();
        let mut rest: Vec<String> = Vec::new();
        let mut i: usize = 0;
        while i < nodes.len()
            invariant
                i <= nodes@.len(),
                entries@ == with_deadline(nodes@, i as int),
                rest@ == without_deadline(nodes@, i as int),
            decreases nodes@.len() - i,
        {
            match nodes[i].1 {
                Some(d) => entries.push((nodes[i].0.clone(), d)),
                None => rest.push(nodes[i].0.clone()),
            }
            i += 1;
        }
        let sorted = sort_entries(entries);
        let groups = deadline_groups(&sorted);
        let mut periods: Vec<(String, Option<u64>)> = Vec::new();
        let mut k: usize = sorted.len();
        while k > 0
            invariant
                k <= sorted@.len(),
                periods@ == deadline_periods(sorted@).take(sorted@.len() - k),
            decreases k,
        {
            periods.push((sorted[k - 1].0.clone(), Some(sorted[k - 1].1)));
            proof {
                assert(periods@ =~= deadline_periods(sorted@).take(sorted@.len() - k + 1));
            }
            k -= 1;
        }
        assert(periods@ =~= deadline_periods(sorted@));
        let slice = match facts {
            PlatformResources::Posix(x) => x.rr_timeslice_us,
            PlatformResources::Raw(_) => None,
        };
        let out = build_ranked_plan(&groups, &rest, &band, slice, &periods);
        assert(usable_band(*facts) == Some(band));
        assert({
            &&& entries_sorted(sorted@)
            &&& sorted@.to_multiset() == with_deadline(nodes@, nodes@.len() as int).to_multiset()
            &&& group_views(groups@) == deadline_runs(sorted@, sorted@.len() as int)
            &&& ranked_outcome(
                groups@,
                without_deadline(nodes@, nodes@.len() as int),
                usable_band(*facts)->0,
                crate::realize::host_rr_slice(*facts),
                deadline_periods(sorted@),
                out,
            )
        });
        assert(deadline_outcome(
            nodes@,
            usable_band(*facts)->0,
            crate::realize::host_rr_slice(*facts),
            out,
        ));
        Ok(out)
    }
}

} // verus!
