//! Rank order: an earlier rank never gets a lower priority, and a shorter
//! deadline never ranks lower.

use vstd::prelude::*;
use crate::platform::PriorityBand;
use crate::mappers::{
    RankGroup, RankedOutcome, assigned, group_assigned, last_value, deadline_outcome,
    deadline_runs, entries_sorted, entry_before, group_views, with_deadline, ranked_outcome,
    without_deadline, deadline_periods,
};
use crate::realize::{spread, lemma_spread_laws};

verus! {

/// No two of `nodes` share a name.
pub open spec fn names_distinct(nodes: Seq<(String, Option<u64>)>) -> bool {
    forall|i: int, j: int| 0 <= i < j < nodes.len() ==> (#[trigger] nodes[i]).0@ != (#[trigger] nodes[j]).0@
}

/// Which run of one deadline the `k`-th sorted entry falls in.
pub open spec fn run_index(e: Seq<(String, u64)>, k: int) -> int
    decreases k,
{
    if k <= 0 {
        0
    } else if e[k - 1].1 == e[k].1 {
        run_index(e, k - 1)
    } else {
        run_index(e, k - 1) + 1
    }
}

proof fn lemma_run_index_monotone(e: Seq<(String, u64)>, j: int, k: int)
    requires
        0 <= j <= k,
    ensures
        run_index(e, j) <= run_index(e, k),
    decreases k - j,
{
    if j < k {
        lemma_run_index_monotone(e, j, k - 1);
    }
}

/// The runs of the first `m` entries: one per run index, each holding
/// exactly the names of the entries of that index.
pub open spec fn runs_cover(e: Seq<(String, u64)>, m: int) -> bool {
    let runs = deadline_runs(e, m);
    &&& runs.len() == run_index(e, m - 1) + 1
    &&& forall|k: int| 0 <= k < m ==> (#[trigger] runs[run_index(e, k)]).1.contains(e[k].0)
    &&& forall|r: int, j: int|
        0 <= r < runs.len() && 0 <= j < runs[r].1.len() ==> source_at(e, m, r, j, #[trigger] run_source(e, m, r, j))
}

/// The `k`-th entry is among the first `m`, falls in run `r`, and is the
/// name at position `j` of that run.
pub open spec fn source_at(e: Seq<(String, u64)>, m: int, r: int, j: int, k: int) -> bool {
    0 <= k < m && run_index(e, k) == r && deadline_runs(e, m)[r].1[j] == e[k].0
}

/// The entry a run's name comes from.
pub open spec fn run_source(e: Seq<(String, u64)>, m: int, r: int, j: int) -> int {
    choose|k: int| source_at(e, m, r, j, k)
}

proof fn lemma_runs_first(e: Seq<(String, u64)>)
    requires
        0 < e.len(),
    ensures
        runs_cover(e, 1),
{
    let runs = deadline_runs(e, 1);
    assert(deadline_runs(e, 0).len() == 0);
    assert(runs =~= seq![(crate::mappers::deadline_label(e[0].1), seq![e[0].0])]);
    assert(runs[0].1[0] == e[0].0);
    assert(run_index(e, 0) == 0);
    assert forall|r: int, j: int|
        0 <= r < runs.len() && 0 <= j < runs[r].1.len() implies source_at(e, 1, r, j, #[trigger] run_source(e, 1, r, j)) by {
        assert(r == 0 && j == 0);
        assert(source_at(e, 1, r, j, 0));
    }
}

proof fn lemma_runs_extend(e: Seq<(String, u64)>, m: int)
    requires
        2 <= m <= e.len(),
        e[m - 2].1 == e[m - 1].1,
        runs_cover(e, m - 1),
    ensures
        runs_cover(e, m),
{
    let runs = deadline_runs(e, m);
    let prev = deadline_runs(e, m - 1);
    lemma_run_index_monotone(e, 0, m - 2);
    let last = prev.len() - 1;
    let grown = prev[last].1.push(e[m - 1].0);
    assert(run_index(e, m - 1) == last);
    assert(runs == prev.update(last, (prev[last].0, grown)));
    assert forall|k: int| 0 <= k < m implies (#[trigger] runs[run_index(e, k)]).1.contains(e[k].0) by {
        if k == m - 1 {
            assert(grown[grown.len() - 1] == e[m - 1].0);
        } else {
            lemma_run_index_monotone(e, k, m - 2);
            lemma_run_index_monotone(e, 0, k);
            let ri = run_index(e, k);
            assert(0 <= ri < prev.len());
            assert(prev[ri].1.contains(e[k].0));
            let w = choose|w: int| 0 <= w < prev[ri].1.len() && prev[ri].1[w] == e[k].0;
            if ri == last {
                assert(runs[ri].1 == grown);
                assert(grown[w] == e[k].0);
            } else {
                assert(runs[ri] == prev[ri]);
            }
        }
    }
    assert forall|r: int, j: int|
        0 <= r < runs.len() && 0 <= j < runs[r].1.len() implies source_at(e, m, r, j, #[trigger] run_source(e, m, r, j)) by {
        if r == last && j == prev[last].1.len() {
            assert(runs[r].1[j] == e[m - 1].0);
            assert(source_at(e, m, r, j, m - 1));
        } else {
            assert(runs[r].1[j] == prev[r].1[j]);
            let k = run_source(e, m - 1, r, j);
            assert(source_at(e, m - 1, r, j, k));
            assert(source_at(e, m, r, j, k));
        }
    }
}

proof fn lemma_runs_open(e: Seq<(String, u64)>, m: int)
    requires
        2 <= m <= e.len(),
        e[m - 2].1 != e[m - 1].1,
        runs_cover(e, m - 1),
    ensures
        runs_cover(e, m),
{
    let runs = deadline_runs(e, m);
    let prev = deadline_runs(e, m - 1);
    lemma_run_index_monotone(e, 0, m - 2);
    let fresh = (crate::mappers::deadline_label(e[m - 1].1), seq![e[m - 1].0]);
    assert(runs == prev.push(fresh));
    assert(run_index(e, m - 1) == prev.len());
    assert forall|k: int| 0 <= k < m implies (#[trigger] runs[run_index(e, k)]).1.contains(e[k].0) by {
        if k == m - 1 {
            assert(runs[prev.len() as int].1[0] == e[m - 1].0);
        } else {
            lemma_run_index_monotone(e, k, m - 2);
            lemma_run_index_monotone(e, 0, k);
            assert(runs[run_index(e, k)] == prev[run_index(e, k)]);
        }
    }
    assert forall|r: int, j: int|
        0 <= r < runs.len() && 0 <= j < runs[r].1.len() implies source_at(e, m, r, j, #[trigger] run_source(e, m, r, j)) by {
        if r == prev.len() {
            assert(runs[r].1 == seq![e[m - 1].0]);
            assert(j == 0);
            assert(source_at(e, m, r, j, m - 1));
        } else {
            assert(runs[r] == prev[r]);
            assert(0 <= r < prev.len() && 0 <= j < prev[r].1.len());
            let k = run_source(e, m - 1, r, j);
            assert(source_at(e, m - 1, r, j, k));
            assert(source_at(e, m, r, j, k));
        }
    }
}

proof fn lemma_runs_members(e: Seq<(String, u64)>, m: int)
    requires
        0 < m <= e.len(),
    ensures
        runs_cover(e, m),
    decreases m,
{
    if m == 1 {
        lemma_runs_first(e);
    } else {
        lemma_runs_members(e, m - 1);
        if e[m - 2].1 == e[m - 1].1 {
            lemma_runs_extend(e, m);
        } else {
            lemma_runs_open(e, m);
        }
    }
}

/// The entries with a deadline keep the nodes' names, each from a node among
/// the first `m`; so they are pairwise distinct when the nodes' names are.
proof fn lemma_with_deadline_names(nodes: Seq<(String, Option<u64>)>, m: int)
    requires
        names_distinct(nodes),
        0 <= m <= nodes.len(),
    ensures
        forall|p: int| 0 <= p < with_deadline(nodes, m).len() ==> exists|i: int|
            0 <= i < m && (#[trigger] with_deadline(nodes, m)[p]).0 == nodes[i].0,
        forall|p: int, q: int|
            0 <= p < q < with_deadline(nodes, m).len() ==> (#[trigger] with_deadline(nodes, m)[p]).0@
                != (#[trigger] with_deadline(nodes, m)[q]).0@,
    decreases m,
{
    if m > 0 {
        lemma_with_deadline_names(nodes, m - 1);
        let prev = with_deadline(nodes, m - 1);
        let cur = with_deadline(nodes, m);
        match nodes[m - 1].1 {
            Some(d) => {
                assert(cur == prev.push((nodes[m - 1].0, d)));
                assert forall|p: int| 0 <= p < cur.len() implies exists|i: int|
                    0 <= i < m && (#[trigger] cur[p]).0 == nodes[i].0 by {
                    if p == prev.len() {
                        assert(cur[p].0 == nodes[m - 1].0);
                    } else {
                        assert(cur[p] == prev[p]);
                        let i = choose|i: int| 0 <= i < m - 1 && (#[trigger] prev[p]).0 == nodes[i].0;
                        assert(0 <= i < m && cur[p].0 == nodes[i].0);
                    }
                }
                assert forall|p: int, q: int| 0 <= p < q < cur.len() implies (#[trigger] cur[p]).0@
                    != (#[trigger] cur[q]).0@ by {
                    if q == prev.len() {
                        assert(cur[p] == prev[p]);
                        let i = choose|i: int| 0 <= i < m - 1 && (#[trigger] prev[p]).0 == nodes[i].0;
                        assert(nodes[i].0@ != nodes[m - 1].0@);
                    } else {
                        assert(cur[p] == prev[p] && cur[q] == prev[q]);
                    }
                }
            },
            None => {
                assert(cur == prev);
                assert forall|p: int| 0 <= p < cur.len() implies exists|i: int|
                    0 <= i < m && (#[trigger] cur[p]).0 == nodes[i].0 by {
                    let i = choose|i: int| 0 <= i < m - 1 && (#[trigger] prev[p]).0 == nodes[i].0;
                    assert(0 <= i < m && cur[p].0 == nodes[i].0);
                }
            },
        }
    }
}

/// A node with a deadline shows up among the entries with one.
proof fn lemma_with_deadline_has(nodes: Seq<(String, Option<u64>)>, m: int, a: int)
    requires
        0 <= a < m <= nodes.len(),
        nodes[a].1 is Some,
    ensures
        with_deadline(nodes, m).contains((nodes[a].0, nodes[a].1->0)),
    decreases m,
{
    let cur = with_deadline(nodes, m);
    let x = (nodes[a].0, nodes[a].1->0);
    if a == m - 1 {
        assert(cur == with_deadline(nodes, m - 1).push(x));
        assert(cur[cur.len() - 1] == x);
    } else {
        lemma_with_deadline_has(nodes, m - 1, a);
        let prev = with_deadline(nodes, m - 1);
        let w = choose|w: int| 0 <= w < prev.len() && prev[w] == x;
        match nodes[m - 1].1 {
            Some(d) => {
                assert(cur == prev.push((nodes[m - 1].0, d)));
                assert(cur[w] == x);
            },
            None => {
                assert(cur == prev);
            },
        }
    }
}

/// A rearrangement of entries with distinct names has distinct names.
proof fn lemma_permuted_names(e: Seq<(String, u64)>, wd: Seq<(String, u64)>)
    requires
        e.to_multiset() == wd.to_multiset(),
        forall|p: int, q: int| 0 <= p < q < wd.len() ==> (#[trigger] wd[p]).0@ != (#[trigger] wd[q]).0@,
    ensures
        forall|p: int, q: int| 0 <= p < q < e.len() ==> (#[trigger] e[p]).0@ != (#[trigger] e[q]).0@,
        forall|x: (String, u64)| e.contains(x) <==> wd.contains(x),
{
    e.to_multiset_ensures();
    wd.to_multiset_ensures();
    assert(wd.no_duplicates()) by {
        assert forall|i: int, j: int| 0 <= i < wd.len() && 0 <= j < wd.len() && i != j implies wd[i]
            != wd[j] by {
            if i < j {
                assert(wd[i].0@ != wd[j].0@);
            } else {
                assert(wd[j].0@ != wd[i].0@);
            }
        }
    }
    wd.lemma_multiset_has_no_duplicates();
    e.lemma_multiset_has_no_duplicates_conv();
    assert forall|x: (String, u64)| e.contains(x) <==> wd.contains(x) by {
        e.to_multiset_ensures();
        wd.to_multiset_ensures();
        assert(e.to_multiset().count(x) == wd.to_multiset().count(x));
        assert(e.contains(x) <==> e.to_multiset().count(x) > 0);
        assert(wd.contains(x) <==> wd.to_multiset().count(x) > 0);
    }
    assert forall|p: int, q: int| 0 <= p < q < e.len() implies (#[trigger] e[p]).0@ != (#[trigger] e[q]).0@ by {
        if e[p].0@ == e[q].0@ {
            assert(e[p] != e[q]);
            assert(e.contains(e[p]) && e.contains(e[q]));
            assert(wd.contains(e[p]) && wd.contains(e[q]));
            let i = choose|i: int| 0 <= i < wd.len() && wd[i] == e[p];
            let j = choose|j: int| 0 <= j < wd.len() && wd[j] == e[q];
            if i < j {
                assert(wd[i].0@ != wd[j].0@);
            } else {
                assert(wd[j].0@ != wd[i].0@);
            }
        }
    }
}

/// Where the last assignment of a name falls when the name is in the second
/// part: in the second part.
proof fn lemma_last_value_hit(s: Seq<(Seq<char>, int)>, t: Seq<(Seq<char>, int)>, n: Seq<char>, v: int, m: int)
    requires
        0 <= m <= t.len(),
        forall|j: int| 0 <= j < t.len() ==> (#[trigger] t[j]).1 == v,
        exists|j: int| 0 <= j < m && (#[trigger] t[j]).0 == n,
    ensures
        last_value(s + t, n, s.len() + m) == Some(v),
    decreases m,
{
    let st = s + t;
    if t[m - 1].0 == n {
        assert(st[s.len() + m - 1] == t[m - 1]);
    } else {
        assert(st[s.len() + m - 1] == t[m - 1]);
        let j = choose|j: int| 0 <= j < m && (#[trigger] t[j]).0 == n;
        assert(j < m - 1);
        lemma_last_value_hit(s, t, n, v, m - 1);
    }
}

/// Where the last assignment of a name falls when the name is not in the
/// second part: in the first.
proof fn lemma_last_value_miss(s: Seq<(Seq<char>, int)>, t: Seq<(Seq<char>, int)>, n: Seq<char>, m: int)
    requires
        0 <= m <= t.len(),
        forall|j: int| 0 <= j < t.len() ==> (#[trigger] t[j]).0 != n,
    ensures
        last_value(s + t, n, s.len() + m) == last_value(s, n, s.len() as int),
    decreases m,
{
    if m > 0 {
        let st = s + t;
        assert(st[s.len() + m - 1] == t[m - 1]);
        lemma_last_value_miss(s, t, n, m - 1);
    } else {
        lemma_last_value_prefix(s, t, n, s.len() as int);
    }
}

proof fn lemma_last_value_prefix(s: Seq<(Seq<char>, int)>, t: Seq<(Seq<char>, int)>, n: Seq<char>, m: int)
    requires
        0 <= m <= s.len(),
    ensures
        last_value(s + t, n, m) == last_value(s, n, m),
    decreases m,
{
    if m > 0 {
        assert((s + t)[m - 1] == s[m - 1]);
        lemma_last_value_prefix(s, t, n, m - 1);
    }
}

/// A name that group `g` holds, and no later group of the first `m`, is last
/// assigned the priority of rank `g`.
proof fn lemma_last_in_assigned(groups: Seq<RankGroup>, band: PriorityBand, m: int, g: int, n: Seq<char>)
    requires
        0 <= g < m <= groups.len(),
        exists|j: int| 0 <= j < groups[g].nodes@.len() && (#[trigger] groups[g].nodes@[j])@ == n,
        forall|h: int, j: int|
            g < h < m && 0 <= j < groups[h].nodes@.len() ==> (#[trigger] groups[h].nodes@[j])@ != n,
    ensures
        last_value(assigned(groups, band, m), n, assigned(groups, band, m).len() as int) == Some(
            spread(g, groups.len() as int, band),
        ),
    decreases m,
{
    let s = assigned(groups, band, m - 1);
    let t = group_assigned(groups[m - 1], spread(m - 1, groups.len() as int, band));
    assert(assigned(groups, band, m) == s + t);
    if m - 1 == g {
        let j = choose|j: int| 0 <= j < groups[g].nodes@.len() && (#[trigger] groups[g].nodes@[j])@ == n;
        assert(t[j].0 == n);
        lemma_last_value_hit(s, t, n, spread(g, groups.len() as int, band), t.len() as int);
    } else {
        assert forall|j: int| 0 <= j < t.len() implies (#[trigger] t[j]).0 != n by {
            assert(t[j].0 == groups[m - 1].nodes@[j]@);
        }
        lemma_last_value_miss(s, t, n, t.len() as int);
        lemma_last_in_assigned(groups, band, m - 1, g, n);
    }
}

proof fn lemma_last_value_some(s: Seq<(Seq<char>, int)>, n: Seq<char>, m: int)
    requires
        0 <= m <= s.len(),
        last_value(s, n, m) is Some,
    ensures
        exists|k: int| 0 <= k < m && (#[trigger] s[k]).0 == n,
    decreases m,
{
    if s[m - 1].0 != n {
        lemma_last_value_some(s, n, m - 1);
        let k = choose|k: int| 0 <= k < m - 1 && (#[trigger] s[k]).0 == n;
        assert(s[k].0 == n);
    } else {
        assert(s[m - 1].0 == n);
    }
}

/// The priority the deadline-monotonic plan gives the node at index `a`:
/// that of the run its deadline falls in.
proof fn lemma_node_rank(
    nodes: Seq<(String, Option<u64>)>,
    band: PriorityBand,
    e: Seq<(String, u64)>,
    groups: Seq<RankGroup>,
    a: int,
) -> (ka: int)
    requires
        names_distinct(nodes),
        e.to_multiset() == with_deadline(nodes, nodes.len() as int).to_multiset(),
        group_views(groups) == deadline_runs(e, e.len() as int),
        0 <= a < nodes.len(),
        nodes[a].1 is Some,
    ensures
        0 <= ka < e.len(),
        e[ka] == (nodes[a].0, nodes[a].1->0),
        0 <= run_index(e, ka) < groups.len(),
        last_value(assigned(groups, band, groups.len() as int), nodes[a].0@, assigned(groups, band, groups.len() as int).len() as int)
            == Some(spread(run_index(e, ka), groups.len() as int, band)),
{
    let wd = with_deadline(nodes, nodes.len() as int);
    lemma_with_deadline_names(nodes, nodes.len() as int);
    lemma_permuted_names(e, wd);
    lemma_with_deadline_has(nodes, nodes.len() as int, a);
    let x = (nodes[a].0, nodes[a].1->0);
    assert(e.contains(x));
    let ka = choose|k: int| 0 <= k < e.len() && e[k] == x;
    lemma_runs_members(e, e.len() as int);
    let runs = deadline_runs(e, e.len() as int);
    lemma_run_index_monotone(e, ka, e.len() - 1);
    lemma_run_index_monotone(e, 0, ka);
    let r = run_index(e, ka);
    assert(groups.len() == group_views(groups).len());
    assert(0 <= r < groups.len());
    assert(group_views(groups)[r] == runs[r]);
    assert(groups[r].nodes@ == runs[r].1);
    assert(runs[r].1.contains(e[ka].0));
    let j = choose|j: int| 0 <= j < runs[r].1.len() && runs[r].1[j] == e[ka].0;
    assert(groups[r].nodes@[j]@ == nodes[a].0@);
    assert forall|h: int, i: int|
        r < h < groups.len() && 0 <= i < groups[h].nodes@.len() implies (#[trigger] groups[h].nodes@[i])@
        != nodes[a].0@ by {
        assert(group_views(groups)[h] == runs[h]);
        assert(groups[h].nodes@ == runs[h].1);
        let k = run_source(e, e.len() as int, h, i);
        assert(source_at(e, e.len() as int, h, i, k));
        assert(k != ka);
        if k < ka {
            assert(e[k].0@ != e[ka].0@);
        } else {
            assert(e[ka].0@ != e[k].0@);
        }
    }
    lemma_last_in_assigned(groups, band, groups.len() as int, r, nodes[a].0@);
    ka
}

/// Deadline-monotonic order: in a plan the deadline-monotonic mapper returns
/// for nodes with distinct names, every node with a deadline has a priority,
/// and a node whose deadline is strictly shorter than another's gets a
/// priority at least as high.
pub proof fn lemma_deadline_monotonic(
    nodes: Seq<(String, Option<u64>)>,
    band: PriorityBand,
    slice: Option<u64>,
    out: RankedOutcome,
    a: int,
    b: int,
)
    requires
        names_distinct(nodes),
        band.min <= band.max,
        deadline_outcome(nodes, band, slice, out),
        0 <= a < nodes.len(),
        0 <= b < nodes.len(),
        nodes[a].1 is Some,
        nodes[b].1 is Some,
        nodes[a].1->0 < nodes[b].1->0,
    ensures
        crate::assoc::has_key(out.node_priority@, nodes[a].0@),
        crate::assoc::has_key(out.node_priority@, nodes[b].0@),
        forall|i: int, j: int|
            0 <= i < out.node_priority@.len() && 0 <= j < out.node_priority@.len()
                && (#[trigger] out.node_priority@[i]).0@ == nodes[a].0@
                && (#[trigger] out.node_priority@[j]).0@ == nodes[b].0@ ==> out.node_priority@[i].1
                >= out.node_priority@[j].1,
{
    let (e, groups) = choose|e: Seq<(String, u64)>, groups: Seq<RankGroup>|
        #![trigger entries_sorted(e), group_views(groups)]
        {
            &&& entries_sorted(e)
            &&& e.to_multiset() == with_deadline(nodes, nodes.len() as int).to_multiset()
            &&& group_views(groups) == deadline_runs(e, e.len() as int)
            &&& ranked_outcome(
                groups,
                without_deadline(nodes, nodes.len() as int),
                band,
                slice,
                deadline_periods(e),
                out,
            )
        };
    let asg = assigned(groups, band, groups.len() as int);
    let np = out.node_priority@;
    let ka = lemma_node_rank(nodes, band, e, groups, a);
    let kb = lemma_node_rank(nodes, band, e, groups, b);
    assert(ka < kb) by {
        if kb < ka {
            assert(!entry_before(e[ka], e[kb]));
        }
    }
    lemma_run_index_monotone(e, ka, kb);
    lemma_spread_laws(run_index(e, ka), run_index(e, kb), groups.len() as int, band);
    lemma_last_value_some(asg, nodes[a].0@, asg.len() as int);
    lemma_last_value_some(asg, nodes[b].0@, asg.len() as int);
    assert(crate::assoc::has_key(np, nodes[a].0@));
    assert(crate::assoc::has_key(np, nodes[b].0@));
    assert forall|i: int, j: int|
        0 <= i < np.len() && 0 <= j < np.len() && (#[trigger] np[i]).0@ == nodes[a].0@
            && (#[trigger] np[j]).0@ == nodes[b].0@ implies np[i].1 >= np[j].1 by {
        assert(Some(np[i].1 as int) == last_value(asg, np[i].0@, asg.len() as int));
        assert(Some(np[j].1 as int) == last_value(asg, np[j].0@, asg.len() as int));
    }
}

/// No name sits in two different ranks.
pub open spec fn ranks_disjoint(groups: Seq<RankGroup>) -> bool {
    forall|g: int, h: int, i: int, j: int|
        0 <= g < h < groups.len() && 0 <= i < groups[g].nodes@.len() && 0 <= j < groups[h].nodes@.len()
            ==> (#[trigger] groups[g].nodes@[i])@ != (#[trigger] groups[h].nodes@[j])@
}

/// Ranked plans keep their rank order: when no name sits in two ranks, every
/// ranked node has a priority, and a node of an earlier rank gets a priority
/// at least as high as a node of a later one.
pub proof fn lemma_rank_order(
    groups: Seq<RankGroup>,
    rest: Seq<String>,
    band: PriorityBand,
    slice: Option<u64>,
    periods: Seq<(String, Option<u64>)>,
    out: RankedOutcome,
    g: int,
    i: int,
    h: int,
    j: int,
)
    requires
        ranks_disjoint(groups),
        band.min <= band.max,
        ranked_outcome(groups, rest, band, slice, periods, out),
        0 <= g <= h < groups.len(),
        0 <= i < groups[g].nodes@.len(),
        0 <= j < groups[h].nodes@.len(),
    ensures
        crate::assoc::has_key(out.node_priority@, groups[g].nodes@[i]@),
        crate::assoc::has_key(out.node_priority@, groups[h].nodes@[j]@),
        forall|a: int, b: int|
            0 <= a < out.node_priority@.len() && 0 <= b < out.node_priority@.len()
                && (#[trigger] out.node_priority@[a]).0@ == groups[g].nodes@[i]@
                && (#[trigger] out.node_priority@[b]).0@ == groups[h].nodes@[j]@ ==> out.node_priority@[a].1
                >= out.node_priority@[b].1,
{
    let asg = assigned(groups, band, groups.len() as int);
    let np = out.node_priority@;
    let x = groups[g].nodes@[i]@;
    let y = groups[h].nodes@[j]@;
    assert forall|k: int, l: int|
        g < k < groups.len() && 0 <= l < groups[k].nodes@.len() implies (#[trigger] groups[k].nodes@[l])@ != x by {
        assert(groups[g].nodes@[i]@ != groups[k].nodes@[l]@);
    }
    assert forall|k: int, l: int|
        h < k < groups.len() && 0 <= l < groups[k].nodes@.len() implies (#[trigger] groups[k].nodes@[l])@ != y by {
        assert(groups[h].nodes@[j]@ != groups[k].nodes@[l]@);
    }
    lemma_last_in_assigned(groups, band, groups.len() as int, g, x);
    lemma_last_in_assigned(groups, band, groups.len() as int, h, y);
    lemma_spread_laws(g, h, groups.len() as int, band);
    lemma_last_value_some(asg, x, asg.len() as int);
    lemma_last_value_some(asg, y, asg.len() as int);
    assert(crate::assoc::has_key(np, x));
    assert(crate::assoc::has_key(np, y));
    assert forall|a: int, b: int|
        0 <= a < np.len() && 0 <= b < np.len() && (#[trigger] np[a]).0@ == x && (#[trigger] np[b]).0@ == y implies np[a].1
        >= np[b].1 by {
        assert(Some(np[a].1 as int) == last_value(asg, np[a].0@, asg.len() as int));
        assert(Some(np[b].1 as int) == last_value(asg, np[b].0@, asg.len() as int));
    }
}

} // verus!
