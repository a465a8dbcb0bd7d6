//! The priorityless ranking of (node, path) items and its band compression.
//!
//! A ranking lists items highest-priority-first. Compression turns it into
//! OS priorities inside an RT band: dense ranks from the top of the band,
//! order-preserving. When the band is narrower than the number of ranks,
//! adjacent ranks collapse to one priority: first within a fine group (a
//! chain segment or boundary run), then within one chain; never across the
//! chain/non-chain divide or a criticality bucket. When even that is not
//! enough, the lowest ranks are clamped into the band's minimum and the
//! overflow is reported.

use vstd::prelude::*;
use crate::platform::PriorityBand;
use crate::text::{push_str, str_eq};

verus! {

/// Platform-agnostic criticality of a node. No priority numbers.
#[derive(Clone, Copy, Debug, PartialEq, Eq, Structural, PartialOrd, Ord, Hash)]
pub enum Criticality {
    Low,
    Medium,
    High,
}

/// The bucket a criticality ranks in: High first, absent last.
pub open spec fn criticality_bucket(c: Option<Criticality>) -> u8 {
    match c {
        Some(Criticality::High) => 0,
        Some(Criticality::Medium) => 1,
        Some(Criticality::Low) => 2,
        None => 3,
    }
}

/// The bucket a criticality ranks in: High first, absent last.
pub fn criticality_rank(c: Option<Criticality>) -> (r: u8)
    ensures
        r == criticality_bucket(c),
{
    match c {
        Some(Criticality::High) => 0,
        Some(Criticality::Medium) => 1,
        Some(Criticality::Low) => 2,
        None => 3,
    }
}

/// A chain's declared latency semantics; carried, not interpreted by the
/// ranking.
#[derive(Clone, Copy, Debug, PartialEq, Eq, Structural)]
pub enum ChainSemantics {
    Reaction,
    Age,
}

/// One `(node, path)` link inside a chain segment, in source-to-sink order.
#[derive(Clone, Debug, PartialEq, Eq)]
pub struct SegmentNode {
    pub node: String,
    pub path: String,
}


/// One ranked (node, path) item. A ranking's order is its priority order,
/// highest first.
#[derive(Clone, Debug, PartialEq)]
pub struct RankItem {
    pub node: String,
    pub path: String,
    /// The finest mergeable scope (a chain's segment or boundary run, or a
    /// non-chain criticality+budget bucket).
    pub fine_group: usize,
    /// The chain name for chain items; `None` for non-chain items.
    pub coarse_group: Option<String>,
    /// Set for non-chain items with exactly equal facts: neighbours sharing
    /// a `Some` tie group always get one priority.
    pub tie_group: Option<usize>,
    pub provenance: String,
}

/// Facts for a band-too-narrow warning: the irreducible class count, the
/// band width, and labels of the classes clamped into the band's minimum.
#[derive(Clone, Debug, PartialEq, Eq)]
pub struct BandOverflow {
    pub distinct_classes: usize,
    pub band_width: usize,
    pub clamped: Vec<String>,
}

// ── Links between neighbours ──

/// Items `i` and `i + 1` share a `Some` tie group.
pub open spec fn tie_link(items: Seq<RankItem>, i: int) -> bool {
    items[i].tie_group is Some && items[i + 1].tie_group == items[i].tie_group
}

/// Items `i` and `i + 1` share a fine group.
pub open spec fn fine_link(items: Seq<RankItem>, i: int) -> bool {
    items[i].fine_group == items[i + 1].fine_group
}

/// Items `i` and `i + 1` belong to the same chain.
pub open spec fn coarse_link(items: Seq<RankItem>, i: int) -> bool {
    &&& items[i].coarse_group is Some
    &&& items[i + 1].coarse_group is Some
    &&& items[i].coarse_group->0@ == items[i + 1].coarse_group->0@
}

/// Items `i` and `i + 1` may share a priority.
pub open spec fn linked(items: Seq<RankItem>, i: int) -> bool {
    tie_link(items, i) || fine_link(items, i) || coarse_link(items, i)
}

/// The number of classes among the first `m` items when only tie groups
/// collapse (the classes before any collapse for band width).
pub open spec fn tie_classes(items: Seq<RankItem>, m: int) -> nat
    decreases m,
{
    if m <= 0 {
        0
    } else {
        tie_classes(items, m - 1) + if m == 1 || !tie_link(items, m - 2) {
            1nat
        } else {
            0nat
        }
    }
}

/// The band width the compression works to: `max - min + 1`, at least 1.
pub open spec fn band_width(b: PriorityBand) -> int {
    if b.max - b.min + 1 < 1 {
        1
    } else {
        b.max - b.min + 1
    }
}

/// `l` names the class of some item.
pub open spec fn labels_an_item(items: Seq<RankItem>, l: Seq<char>) -> bool {
    exists|x: int| 0 <= x < items.len() && l == class_label(items[x].coarse_group)
}

/// The text naming a clamped class.
pub open spec fn class_label(coarse: Option<String>) -> Seq<char> {
    match coarse {
        Some(c) => "chain '"@ + c@ + "'"@,
        None => "non-chain bucket"@,
    }
}

// ── Runs ──

/// `runs` cuts `0..n` into consecutive, non-empty, inclusive intervals.
pub open spec fn partition(runs: Seq<(usize, usize)>, n: int) -> bool {
    &&& runs.len() > 0
    &&& runs[0].0 == 0
    &&& runs.last().1 == n - 1
    &&& forall|k: int| 0 <= k < runs.len() ==> (#[trigger] runs[k]).0 <= runs[k].1
    &&& forall|k: int| 0 < k < runs.len() ==> (#[trigger] runs[k]).0 == runs[k - 1].1 + 1
}

/// Inside every run, neighbours are linked.
pub open spec fn connected(items: Seq<RankItem>, runs: Seq<(usize, usize)>) -> bool {
    forall|k: int, i: int|
        0 <= k < runs.len() && runs[k].0 <= i < runs[k].1 ==> #[trigger] linked(items, i)
            && #[trigger] runs[k] == runs[k]
}

/// No run boundary separates a tie.
pub open spec fn ties_inside(items: Seq<RankItem>, runs: Seq<(usize, usize)>) -> bool {
    forall|k: int| 0 <= k < runs.len() - 1 ==> !tie_link(items, (#[trigger] runs[k]).1 as int)
}

/// Inside every run, neighbours are tied.
pub open spec fn tie_connected(items: Seq<RankItem>, runs: Seq<(usize, usize)>) -> bool {
    forall|k: int, i: int|
        0 <= k < runs.len() && runs[k].0 <= i < runs[k].1 ==> #[trigger] tie_link(items, i)
            && #[trigger] runs[k] == runs[k]
}

/// The boundary after item `a_end` may be merged in this pass.
pub open spec fn mergeable(items: Seq<RankItem>, a_end: int, coarse: bool) -> bool {
    if coarse {
        coarse_link(items, a_end)
    } else {
        fine_link(items, a_end)
    }
}

fn can_merge(items: &[RankItem], a_end: usize, coarse: bool) -> (r: bool)
    requires
        a_end + 1 < items@.len(),
    ensures
        r == mergeable(items@, a_end as int, coarse),
{
    if coarse {
        match (&items[a_end].coarse_group, &items[a_end + 1].coarse_group) {
            (Some(a), Some(b)) => str_eq(a.as_str(), b.as_str()),
            _ => false,
        }
    } else {
        items[a_end].fine_group == items[a_end + 1].fine_group
    }
}

proof fn lemma_partition_step(runs: Seq<(usize, usize)>, n: int, k1: int, k2: int)
    requires
        partition(runs, n),
        0 <= k1 < k2 < runs.len(),
    ensures
        runs[k1].1 < runs[k2].0,
    decreases k2 - k1,
{
    assert(runs[k1 + 1].0 == runs[k1].1 + 1);
    if k1 + 1 < k2 {
        lemma_partition_step(runs, n, k1 + 1, k2);
        assert(runs[k1 + 1].0 <= runs[k1 + 1].1);
    }
}

/// Merging runs `m - 1` and `m` of `before` gives `after`.
pub open spec fn merged_at(
    before: Seq<(usize, usize)>,
    after: Seq<(usize, usize)>,
    m: int,
) -> bool {
    &&& 1 <= m < before.len()
    &&& after.len() == before.len() - 1
    &&& forall|k: int| 0 <= k < m - 1 ==> #[trigger] after[k] == before[k]
    &&& after[m - 1] == (before[m - 1].0, before[m].1)
    &&& forall|k: int| m <= k < after.len() ==> #[trigger] after[k] == before[k + 1]
}

proof fn lemma_merge_keeps(
    items: Seq<RankItem>,
    before: Seq<(usize, usize)>,
    after: Seq<(usize, usize)>,
    m: int,
    coarse: bool,
)
    requires
        partition(before, items.len() as int),
        connected(items, before),
        ties_inside(items, before),
        merged_at(before, after, m),
        mergeable(items, before[m - 1].1 as int, coarse),
    ensures
        partition(after, items.len() as int),
        connected(items, after),
        ties_inside(items, after),
{
    let n = items.len() as int;
    assert(before[m].0 == before[m - 1].1 + 1);
    assert(before[m - 1].0 <= before[m - 1].1);
    assert(before[m].0 <= before[m].1);
    assert forall|k: int| 0 <= k < after.len() implies (#[trigger] after[k]).0 <= after[k].1 by {
        if k < m - 1 {
            assert(before[k].0 <= before[k].1);
        } else if k >= m {
            assert(before[k + 1].0 <= before[k + 1].1);
        }
    }
    assert forall|k: int| 0 < k < after.len() implies (#[trigger] after[k]).0 == after[k - 1].1
        + 1 by {
        if k < m - 1 {
            assert(before[k].0 == before[k - 1].1 + 1);
        } else if k == m - 1 {
            assert(before[k].0 == before[k - 1].1 + 1);
        } else if k == m {
            assert(before[k + 1].0 == before[k].1 + 1);
        } else {
            assert(before[k + 1].0 == before[k].1 + 1);
        }
    }
    if m - 1 > 0 {
        assert(after[0] == before[0]);
    }
    if m < after.len() {
        assert(after.last() == before.last());
    }
    assert forall|k: int, x: int|
        0 <= k < after.len() && after[k].0 <= x < after[k].1 implies #[trigger] linked(items, x)
        && #[trigger] after[k] == after[k] by {
        if k == m - 1 {
            if x < before[m - 1].1 {
                assert(linked(items, x) && before[m - 1] == before[m - 1]);
            } else if x > before[m - 1].1 {
                assert(before[m].0 <= x < before[m].1);
                assert(linked(items, x) && before[m] == before[m]);
            }
        } else if k < m - 1 {
            assert(linked(items, x) && before[k] == before[k]);
        } else {
            assert(before[k + 1].0 <= x < before[k + 1].1);
            assert(linked(items, x) && before[k + 1] == before[k + 1]);
        }
    }
    assert forall|k: int| 0 <= k < after.len() - 1 implies !tie_link(
        items,
        (#[trigger] after[k]).1 as int,
    ) by {
        if k < m - 1 {
            assert(!tie_link(items, before[k].1 as int));
        } else {
            assert(!tie_link(items, before[k + 1].1 as int));
        }
    }
}

/// The last boundary `m` below `i` (merging runs `m - 1` and `m`) that may
/// be merged in this pass; 0 when there is none.
pub open spec fn last_merge(
    items: Seq<RankItem>,
    runs: Seq<(usize, usize)>,
    coarse: bool,
    i: int,
) -> int
    decreases i,
{
    if i <= 1 {
        0
    } else if mergeable(items, runs[i - 2].1 as int, coarse) {
        i - 1
    } else {
        last_merge(items, runs, coarse, i - 1)
    }
}

/// `runs` with runs `m - 1` and `m` joined into one.
pub open spec fn merge_runs(runs: Seq<(usize, usize)>, m: int) -> Seq<(usize, usize)> {
    runs.subrange(0, m - 1).push((runs[m - 1].0, runs[m].1)) + runs.subrange(m + 1, runs.len() as int)
}

/// One collapse pass: while there are more runs than `width`, join the last
/// mergeable boundary.
pub open spec fn collapse_pass(
    items: Seq<RankItem>,
    runs: Seq<(usize, usize)>,
    width: int,
    coarse: bool,
) -> Seq<(usize, usize)>
    decreases runs.len(),
{
    let m = last_merge(items, runs, coarse, runs.len() as int);
    if runs.len() <= width || m < 1 || m >= runs.len() {
        runs
    } else {
        collapse_pass(items, merge_runs(runs, m), width, coarse)
    }
}

proof fn lemma_merged_at_is_merge(before: Seq<(usize, usize)>, after: Seq<(usize, usize)>, m: int)
    requires
        merged_at(before, after, m),
    ensures
        after == merge_runs(before, m),
{
    assert(after =~= merge_runs(before, m));
}

proof fn lemma_last_merge_range(
    items: Seq<RankItem>,
    runs: Seq<(usize, usize)>,
    coarse: bool,
    i: int,
)
    ensures
        0 <= last_merge(items, runs, coarse, i),
        i > 1 ==> last_merge(items, runs, coarse, i) < i,
    decreases i,
{
    if i > 1 {
        lemma_last_merge_range(items, runs, coarse, i - 1);
    }
}

/// Merge the last mergeable boundary, scanning from the tail.
#[verifier::spinoff_prover]
#[verifier::rlimit(40)]
fn try_merge_tail_first(
    runs: &mut Vec<(usize, usize)>,
    items: &[RankItem],
    coarse: bool,
) -> (merged: bool)
    requires
        partition(old(runs)@, items@.len() as int),
        connected(items@, old(runs)@),
        ties_inside(items@, old(runs)@),
    ensures
        partition(final(runs)@, items@.len() as int),
        connected(items@, final(runs)@),
        ties_inside(items@, final(runs)@),
        merged ==> final(runs)@.len() == old(runs)@.len() - 1,
        merged == (last_merge(items@, old(runs)@, coarse, old(runs)@.len() as int) > 0),
        merged ==> merged_at(
            old(runs)@,
            final(runs)@,
            last_merge(items@, old(runs)@, coarse, old(runs)@.len() as int),
        ),
        !merged ==> final(runs)@ == old(runs)@,
{
    let ghost n = items@.len() as int;
    let ghost before = runs@;
    assert(before == old(runs)@);
    let mut i = runs.len();
    while i > 1
        invariant
            runs@ == before,
            before == old(runs)@,
            partition(before, n),
            connected(items@, before),
            ties_inside(items@, before),
            n == items@.len(),
            1 <= i <= before.len(),
            last_merge(items@, before, coarse, before.len() as int) == last_merge(
                items@,
                before,
                coarse,
                i as int,
            ),
        decreases i,
    {
        i -= 1;
        let (a_start, a_end) = runs[i - 1];
        let (b_start, b_end) = runs[i];
        proof {
            assert(before[i as int].0 == before[i - 1].1 + 1);
            assert(before[i as int].0 <= before[i as int].1);
            if (i as int) < before.len() - 1 {
                lemma_partition_step(before, n, i as int, before.len() - 1);
                assert(before[before.len() - 1].0 <= before[before.len() - 1].1);
            }
        }
        if can_merge(items, a_end, coarse) {
            runs.set(i - 1, (a_start, b_end));
            runs.remove(i);
            proof {
                assert(merged_at(before, runs@, i as int));
                lemma_merge_keeps(items@, before, runs@, i as int, coarse);
            }
            return true;
        }
    }
    false
}

/// Priority of run `k`: dense from the top of the band, clamped at its minimum.
pub open spec fn run_priority(band: PriorityBand, k: int) -> int {
    if band.max - k < band.min {
        band.min as int
    } else {
        band.max - k
    }
}

/// The runs of the first `m` items when only tie groups collapse: an item
/// tied to its predecessor extends the predecessor's run.
pub open spec fn tie_runs(items: Seq<RankItem>, m: int) -> Seq<(usize, usize)>
    decreases m,
{
    if m <= 0 {
        Seq::empty()
    } else {
        let prev = tie_runs(items, m - 1);
        if m >= 2 && tie_link(items, m - 2) {
            prev.drop_last().push((prev.last().0, (m - 1) as usize))
        } else {
            prev.push(((m - 1) as usize, (m - 1) as usize))
        }
    }
}

proof fn lemma_tie_runs_extend(items: Seq<RankItem>, idx: int, j: int)
    requires
        0 <= idx <= j < items.len(),
        j < usize::MAX,
        forall|x: int| idx <= x < j ==> #[trigger] tie_link(items, x),
        idx == 0 || !tie_link(items, idx - 1),
    ensures
        tie_runs(items, j + 1) == tie_runs(items, idx).push((idx as usize, j as usize)),
    decreases j - idx,
{
    if j > idx {
        lemma_tie_runs_extend(items, idx, j - 1);
        assert(tie_link(items, j - 1));
        assert(tie_runs(items, j).drop_last() =~= tie_runs(items, idx));
    }
}

/// The seed runs: every maximal stretch of a shared `Some` tie group is one run.
fn seed_runs(items: &[RankItem]) -> (runs: Vec<(usize, usize)>)
    requires
        items@.len() > 0,
    ensures
        partition(runs@, items@.len() as int),
        tie_connected(items@, runs@),
        connected(items@, runs@),
        ties_inside(items@, runs@),
        runs@.len() == tie_classes(items@, items@.len() as int),
        runs@ == tie_runs(items@, items@.len() as int),
{
    let n = items.len();
    let mut runs: Vec<(usize, usize)> = Vec::new();
    let mut idx: usize = 0;
    while idx < n
        invariant
            n == items@.len(),
            idx <= n,
            idx == 0 <==> runs@.len() == 0,
            runs@.len() > 0 ==> runs@[0].0 == 0 && runs@.last().1 == idx - 1,
            forall|k: int| 0 <= k < runs@.len() ==> (#[trigger] runs@[k]).0 <= runs@[k].1,
            forall|k: int| 0 < k < runs@.len() ==> (#[trigger] runs@[k]).0 == runs@[k - 1].1 + 1,
            tie_connected(items@, runs@),
            ties_inside(items@, runs@),
            runs@.len() == tie_classes(items@, idx as int),
            idx > 0 && idx < n ==> !tie_link(items@, idx - 1),
            runs@ == tie_runs(items@, idx as int),
        decreases n - idx,
    {
        let mut end = idx;
        match items[idx].tie_group {
            Some(tg) => {
                while end + 1 < n && items[end + 1].tie_group == Some(tg)
                    invariant
                        n == items@.len(),
                        idx <= end < n,
                        items@[idx as int].tie_group == Some(tg),
                        forall|x: int| idx <= x < end ==> #[trigger] tie_link(items@, x),
                        forall|x: int| idx <= x <= end ==> #[trigger] items@[x].tie_group == Some(tg),
                        tie_classes(items@, end + 1) == tie_classes(items@, idx + 1),
                    decreases n - end,
                {
                    assert(tie_link(items@, end as int));
                    end += 1;
                }
            },
            None => {},
        }
        let ghost before = runs@;
        runs.push((idx, end));
        proof {
            lemma_tie_runs_extend(items@, idx as int, end as int);
            assert(end + 1 < n ==> !tie_link(items@, end as int)) by {
                if end + 1 < n && tie_link(items@, end as int) {
                    assert(items@[idx as int].tie_group is Some);
                }
            }
            assert(tie_classes(items@, idx + 1) == tie_classes(items@, idx as int) + 1);
            assert forall|k: int, x: int|
                0 <= k < runs@.len() && runs@[k].0 <= x < runs@[k].1 implies #[trigger] tie_link(
                items@,
                x,
            ) && #[trigger] runs@[k] == runs@[k] by {
                if k < before.len() {
                    assert(before[k] == runs@[k]);
                    assert(tie_link(items@, x) && before[k] == before[k]);
                }
            }
            assert forall|k: int| 0 <= k < runs@.len() - 1 implies !tie_link(
                items@,
                (#[trigger] runs@[k]).1 as int,
            ) by {
                if k < before.len() - 1 {
                    assert(before[k] == runs@[k]);
                } else {
                    assert(runs@[k] == before.last());
                }
            }
        }
        idx = end + 1;
    }
    proof {
        assert forall|k: int, x: int|
            0 <= k < runs@.len() && runs@[k].0 <= x < runs@[k].1 implies #[trigger] linked(items@, x)
            && #[trigger] runs@[k] == runs@[k] by {
            assert(tie_link(items@, x) && runs@[k] == runs@[k]);
        }
    }
    runs
}

/// Collapse runs while there are more than `width`: within fine groups
/// first, then within one chain.
fn collapse_runs(runs: &mut Vec<(usize, usize)>, items: &[RankItem], width: usize)
    requires
        partition(old(runs)@, items@.len() as int),
        connected(items@, old(runs)@),
        ties_inside(items@, old(runs)@),
    ensures
        partition(final(runs)@, items@.len() as int),
        connected(items@, final(runs)@),
        ties_inside(items@, final(runs)@),
        old(runs)@.len() <= width ==> final(runs)@ == old(runs)@,
        final(runs)@ == collapse_pass(
            items@,
            collapse_pass(items@, old(runs)@, width as int, false),
            width as int,
            true,
        ),
{
    let ghost seed = runs@;
    let mut pass: usize = 0;
    while pass < 2
        invariant
            partition(runs@, items@.len() as int),
            connected(items@, runs@),
            ties_inside(items@, runs@),
            seed.len() <= width ==> runs@ == seed,
            pass <= 2,
            pass == 0 ==> runs@ == seed,
            pass == 1 ==> runs@ == collapse_pass(items@, seed, width as int, false),
            pass == 2 ==> runs@ == collapse_pass(
                items@,
                collapse_pass(items@, seed, width as int, false),
                width as int,
                true,
            ),
        decreases 2 - pass,
    {
        let coarse = pass == 1;
        let ghost start = runs@;
        while runs.len() > width
            invariant
                partition(runs@, items@.len() as int),
                connected(items@, runs@),
                ties_inside(items@, runs@),
                seed.len() <= width ==> runs@ == seed,
                collapse_pass(items@, runs@, width as int, coarse) == collapse_pass(
                    items@,
                    start,
                    width as int,
                    coarse,
                ),
            ensures
                runs@ == collapse_pass(items@, start, width as int, coarse),
            decreases runs@.len(),
        {
            let ghost prev = runs@;
            let merged = try_merge_tail_first(runs, items, coarse);
            proof {
                let m = last_merge(items@, prev, coarse, prev.len() as int);
                lemma_last_merge_range(items@, prev, coarse, prev.len() as int);
                if merged {
                    lemma_merged_at_is_merge(prev, runs@, m);
                }
            }
            if !merged {
                break;
            }
        }
        pass += 1;
    }
}

/// The labels of runs `from..to`, each kept at its first appearance.
pub open spec fn clamp_labels(
    items: Seq<RankItem>,
    runs: Seq<(usize, usize)>,
    from: int,
    to: int,
) -> Seq<Seq<char>>
    decreases to - from,
{
    if to <= from {
        Seq::empty()
    } else {
        let prev = clamp_labels(items, runs, from, to - 1);
        let l = class_label(items[runs[to - 1].0 as int].coarse_group);
        if prev.contains(l) {
            prev
        } else {
            prev.push(l)
        }
    }
}

/// Labels of the runs from `width` on, deduplicated, in ranked order.
fn clamped_labels(items: &[RankItem], runs: &Vec<(usize, usize)>, width: usize) -> (clamped: Vec<
    String,
>)
    requires
        partition(runs@, items@.len() as int),
    ensures
        forall|j: int| 0 <= j < clamped@.len() ==> labels_an_item(items@, (#[trigger] clamped@[j])@),
        forall|a: int, b: int|
            0 <= a < b < clamped@.len() ==> (#[trigger] clamped@[a])@ != (#[trigger] clamped@[b])@,
        clamped@.map_values(|t: String| t@) == clamp_labels(
            items@,
            runs@,
            width as int,
            runs@.len() as int,
        ),
{
    let ghost n = items@.len() as int;
    let nruns = runs.len();
    let mut clamped: Vec<String> = Vec::new();
    let mut k = width;
    while k < nruns
        invariant
            nruns == runs@.len(),
            partition(runs@, n),
            n == items@.len(),
            forall|j: int|
                0 <= j < clamped@.len() ==> labels_an_item(items@, (#[trigger] clamped@[j])@),
            forall|a: int, b: int|
                0 <= a < b < clamped@.len() ==> (#[trigger] clamped@[a])@ != (
                #[trigger] clamped@[b])@,
            width <= k,
            k == width || k <= nruns,
            clamped@.map_values(|t: String| t@) == clamp_labels(
                items@,
                runs@,
                width as int,
                k as int,
            ),
        decreases nruns - k,
    {
        let s = runs[k].0;
        proof {
            assert(runs@[k as int].0 <= runs@[k as int].1);
            if (k as int) < nruns - 1 {
                lemma_partition_step(runs@, n, k as int, nruns - 1);
                assert(runs@[nruns - 1].0 <= runs@[nruns - 1].1);
            }
        }
        let mut label = String::new();
        match &items[s].coarse_group {
            Some(chain) => {
                push_str(&mut label, "chain '");
                push_str(&mut label, chain.as_str());
                push_str(&mut label, "'");
            },
            None => {
                push_str(&mut label, "non-chain bucket");
            },
        }
        assert(label@ =~= class_label(items@[s as int].coarse_group));
        if !crate::assoc::names_contain(clamped.as_slice(), label.as_str()) {
            let ghost before = clamped@;
            clamped.push(label);
            proof {
                assert(clamped@.map_values(|t: String| t@) =~= before.map_values(|t: String| t@).push(
                    class_label(items@[s as int].coarse_group),
                ));
                assert forall|a: int, b: int|
                    0 <= a < b < clamped@.len() implies (#[trigger] clamped@[a])@ != (
                    #[trigger] clamped@[b])@ by {
                    if b == clamped@.len() - 1 {
                        assert(before.map_values(|t: String| t@)[a] == before[a]@);
                    }
                }
                assert forall|j: int| 0 <= j < clamped@.len() implies labels_an_item(
                    items@,
                    (#[trigger] clamped@[j])@,
                ) by {
                    if j < before.len() {
                        assert(clamped@[j] == before[j]);
                    } else {
                        assert(clamped@[j]@ == class_label(items@[s as int].coarse_group));
                    }
                }
            }
        }
        k += 1;
    }
    clamped
}

/// The run each item falls in: starts at 0, steps by at most one.
pub open spec fn owner_of(runs: Seq<(usize, usize)>, owner: Seq<int>, n: int) -> bool {
    &&& owner.len() == n
    &&& forall|i: int| 0 <= i < n ==> 0 <= #[trigger] owner[i] < runs.len()
    &&& forall|i: int| 0 <= i < n ==> runs[#[trigger] owner[i]].0 <= i <= runs[owner[i]].1
    &&& n > 0 ==> owner[0] == 0
    &&& forall|i: int|
        0 < i < n ==> #[trigger] owner[i] - owner[i - 1] <= 1 && owner[i - 1] <= owner[i]
}

/// Give every item the priority of its run.
fn fill_priorities(runs: &Vec<(usize, usize)>, band: &PriorityBand, n: usize) -> (r: (
    Vec<i64>,
    Ghost<Seq<int>>,
))
    requires
        partition(runs@, n as int),
        n > 0,
        n <= i64::MAX,
        band.max - n >= i64::MIN,
    ensures
        owner_of(runs@, r.1@, n as int),
        r.0@.len() == n,
        forall|i: int| 0 <= i < n ==> #[trigger] r.0@[i] == run_priority(*band, r.1@[i]),
{
    proof {
        lemma_partition_len(runs@, n as int);
    }
    let nruns = runs.len();
    let mut priorities: Vec<i64> = Vec::new();
    let ghost mut owner: Seq<int> = Seq::empty();
    let mut k: usize = 0;
    while k < nruns
        invariant
            nruns == runs@.len(),
            partition(runs@, n as int),
            k <= nruns,
            band.max - n >= i64::MIN,
            nruns <= n,
            n <= i64::MAX,
            priorities@.len() == owner.len(),
            k < nruns ==> priorities@.len() == runs@[k as int].0,
            k == nruns ==> priorities@.len() == n,
            forall|i: int|
                0 <= i < owner.len() ==> 0 <= #[trigger] owner[i] < k && priorities@[i]
                    == run_priority(*band, owner[i]),
            forall|i: int|
                0 <= i < owner.len() ==> runs@[#[trigger] owner[i]].0 <= i <= runs@[owner[i]].1,
            owner.len() > 0 ==> owner[0] == 0,
            owner.len() > 0 ==> owner.last() == k - 1,
            forall|i: int|
                0 < i < owner.len() ==> #[trigger] owner[i] - owner[i - 1] <= 1 && owner[i - 1]
                    <= owner[i],
            owner.len() == 0 <==> k == 0,
        decreases nruns - k,
    {
        let (s, e) = runs[k];
        proof {
            assert(runs@[k as int].0 <= runs@[k as int].1);
            if (k as int) < nruns - 1 {
                lemma_partition_step(runs@, n as int, k as int, nruns - 1);
                assert(runs@[nruns - 1].0 <= runs@[nruns - 1].1);
            }
        }
        let p0: i64 = band.max - k as i64;
        let p: i64 = if p0 < band.min {
            band.min
        } else {
            p0
        };
        let mut x = s;
        while x <= e
            invariant
                s <= x <= e + 1,
                e < n,
                runs@[k as int] == (s, e),
                k < nruns,
                nruns == runs@.len(),
                priorities@.len() == owner.len(),
                priorities@.len() == x,
                p == run_priority(*band, k as int),
                forall|i: int|
                    0 <= i < owner.len() ==> 0 <= #[trigger] owner[i] <= k && priorities@[i]
                        == run_priority(*band, owner[i]),
                forall|i: int|
                    0 <= i < owner.len() ==> runs@[#[trigger] owner[i]].0 <= i <= runs@[owner[i]].1,
                owner.len() > 0 ==> owner[0] == 0,
                x > s ==> owner.last() == k,
                x == s && owner.len() > 0 ==> owner.last() == k - 1,
                x == s && owner.len() == 0 ==> k == 0,
                forall|i: int|
                    0 < i < owner.len() ==> #[trigger] owner[i] - owner[i - 1] <= 1 && owner[i - 1]
                        <= owner[i],
            decreases e + 1 - x,
        {
            priorities.push(p);
            proof {
                owner = owner.push(k as int);
            }
            x += 1;
        }
        proof {
            if (k as int) < nruns - 1 {
                assert(runs@[k + 1].0 == runs@[k as int].1 + 1);
            }
        }
        k += 1;
    }
    (priorities, Ghost(owner))
}

/// What band compression guarantees of the priorities `p` it gives
/// `items`, and of the overflow report `o`.
pub open spec fn compression_laws(
    items: Seq<RankItem>,
    band: PriorityBand,
    p: Seq<i64>,
    o: Option<BandOverflow>,
) -> bool {
    let n = items.len() as int;
    &&& p.len() == n
    &&& n > 0 ==> p[0] == run_priority(band, 0)
    &&& forall|i: int| 0 <= i < n ==> band.min <= #[trigger] p[i]
    &&& forall|i: int| 0 <= i < n ==> (#[trigger] p[i] <= band.max || p[i] == band.min)
    &&& forall|i: int, j: int| 0 <= i <= j < n ==> #[trigger] p[i] >= #[trigger] p[j]
    &&& forall|i: int| 0 <= i < n - 1 ==> #[trigger] p[i] - p[i + 1] <= 1
    &&& forall|i: int| 0 <= i < n - 1 && tie_link(items, i) ==> #[trigger] p[i] == p[i + 1]
    &&& forall|i: int|
        0 <= i < n - 1 && #[trigger] p[i] == p[i + 1] && p[i + 1] > band.min ==> linked(items, i)
    &&& o is None ==> forall|i: int|
        0 <= i < n - 1 && #[trigger] p[i] == p[i + 1] ==> linked(items, i)
    &&& tie_classes(items, n) <= band_width(band) ==> o is None && forall|i: int|
        0 <= i < n - 1 ==> (#[trigger] p[i] == p[i + 1] <==> tie_link(items, i))
    &&& o matches Some(ov) ==> {
        &&& ov.band_width == band_width(band)
        &&& ov.distinct_classes > ov.band_width
        &&& p[n - 1] == band.min
        &&& forall|j: int|
            0 <= j < ov.clamped@.len() ==> labels_an_item(items, (#[trigger] ov.clamped@[j])@)
        &&& forall|a: int, b: int|
            0 <= a < b < ov.clamped@.len() ==> (#[trigger] ov.clamped@[a])@ != (
            #[trigger] ov.clamped@[b])@
    }
}

/// The runs left after both collapse passes over the tie runs.
pub open spec fn compressed_runs(items: Seq<RankItem>, band: PriorityBand) -> Seq<(usize, usize)> {
    let w = band_width(band);
    collapse_pass(
        items,
        collapse_pass(items, tie_runs(items, items.len() as int), w, false),
        w,
        true,
    )
}

/// The exact outcome of band compression: every item gets its run's
/// priority; an overflow is reported exactly when more runs than the band
/// width remain, naming their count and the labels of the clamped runs.
pub open spec fn compression_outcome(
    items: Seq<RankItem>,
    band: PriorityBand,
    p: Seq<i64>,
    o: Option<BandOverflow>,
) -> bool {
    let runs = compressed_runs(items, band);
    let w = band_width(band);
    &&& items.len() == 0 ==> o is None
    &&& items.len() > 0 ==> (o is Some <==> runs.len() > w)
    &&& o matches Some(ov) ==> {
        &&& ov.distinct_classes == runs.len()
        &&& ov.band_width == w
        &&& ov.clamped@.map_values(|t: String| t@) == clamp_labels(items, runs, w, runs.len() as int)
    }
    &&& forall|k: int, i: int|
        #![trigger runs[k], p[i]]
        0 <= k < runs.len() && runs[k].0 <= i <= runs[k].1 ==> p[i] == run_priority(band, k)
}

proof fn lemma_owner_unique(runs: Seq<(usize, usize)>, owner: Seq<int>, n: int, k: int, i: int)
    requires
        partition(runs, n),
        owner_of(runs, owner, n),
        0 <= k < runs.len(),
        runs[k].0 <= i <= runs[k].1,
        0 <= i < n,
    ensures
        owner[i] == k,
{
    let o = owner[i];
    assert(runs[o].0 <= i <= runs[o].1);
    if o < k {
        lemma_partition_step(runs, n, o, k);
    } else if k < o {
        lemma_partition_step(runs, n, k, o);
    }
}

proof fn lemma_run_priorities(
    runs: Seq<(usize, usize)>,
    owner: Seq<int>,
    p: Seq<i64>,
    band: PriorityBand,
    n: int,
)
    requires
        n > 0,
        partition(runs, n),
        owner_of(runs, owner, n),
        p.len() == n,
        forall|i: int| 0 <= i < n ==> #[trigger] p[i] == run_priority(band, owner[i]),
    ensures
        forall|k: int, i: int|
            #![trigger runs[k], p[i]]
            0 <= k < runs.len() && runs[k].0 <= i <= runs[k].1 ==> p[i] == run_priority(band, k),
{
    assert forall|k: int, i: int|
        #![trigger runs[k], p[i]]
        0 <= k < runs.len() && runs[k].0 <= i <= runs[k].1 implies p[i] == run_priority(band, k) by {
        assert(runs[k].1 <= n - 1) by {
            if k < runs.len() - 1 {
                lemma_partition_step(runs, n, k, runs.len() - 1);
                assert(runs[runs.len() - 1].0 <= runs[runs.len() - 1].1);
            }
        }
        lemma_owner_unique(runs, owner, n, k, i);
    }
}

proof fn lemma_outcome(
    items: Seq<RankItem>,
    band: PriorityBand,
    runs: Seq<(usize, usize)>,
    owner: Seq<int>,
    p: Seq<i64>,
    o: Option<BandOverflow>,
)
    requires
        items.len() > 0,
        runs == compressed_runs(items, band),
        partition(runs, items.len() as int),
        owner_of(runs, owner, items.len() as int),
        p.len() == items.len(),
        forall|i: int| 0 <= i < items.len() ==> #[trigger] p[i] == run_priority(band, owner[i]),
        o is Some <==> runs.len() > band_width(band),
        o matches Some(ov) ==> {
            &&& ov.distinct_classes == runs.len()
            &&& ov.band_width == band_width(band)
            &&& ov.clamped@.map_values(|t: String| t@) == clamp_labels(
                items,
                runs,
                band_width(band),
                runs.len() as int,
            )
        },
    ensures
        compression_outcome(items, band, p, o),
{
    lemma_run_priorities(runs, owner, p, band, items.len() as int);
}

/// Band compression: per-item priorities, highest rank first, plus the
/// overflow facts when the band cannot hold the classes left after every
/// legal collapse.
#[verifier::spinoff_prover]
#[verifier::rlimit(40)]
pub fn assign_priorities_compressed(items: &[RankItem], band: &PriorityBand) -> (r: (
    Vec<i64>,
    Option<BandOverflow>,
))
    requires
        i64::MIN <= band.max - band.min < i64::MAX,
        band.max - band.min + 1 <= usize::MAX,
        items@.len() <= i64::MAX,
        band.max - items@.len() >= i64::MIN,
    ensures
        compression_laws(items@, *band, r.0@, r.1),
        compression_outcome(items@, *band, r.0@, r.1),
{
    let n = items.len();
    if n == 0 {
        return (Vec::new(), None);
    }
    let raw: i64 = band.max - band.min + 1;
    let width: usize = if raw < 1 {
        1
    } else {
        raw as usize
    };
    let mut runs = seed_runs(items);
    let ghost seed = runs@;
    assert(width as int == band_width(*band));
    collapse_runs(&mut runs, items, width);
    assert(runs@ == compressed_runs(items@, *band));
    let nruns = runs.len();
    let overflow = if nruns > width {
        let clamped = clamped_labels(items, &runs, width);
        Some(BandOverflow { distinct_classes: nruns, band_width: width, clamped })
    } else {
        None
    };
    let (priorities, Ghost(owner)) = fill_priorities(&runs, band, n);
    proof {
        lemma_priority_laws(items@, runs@, seed, owner, priorities@, *band, width as int);
        lemma_outcome(items@, *band, runs@, owner, priorities@, overflow);
    }
    (priorities, overflow)
}

proof fn lemma_owner_step_at(
    items: Seq<RankItem>,
    runs: Seq<(usize, usize)>,
    owner: Seq<int>,
    i: int,
)
    requires
        0 <= i < items.len() - 1,
        partition(runs, items.len() as int),
        connected(items, runs),
        ties_inside(items, runs),
        owner_of(runs, owner, items.len() as int),
    ensures
        owner[i] == owner[i + 1] ==> linked(items, i),
        owner[i] != owner[i + 1] ==> !tie_link(items, i) && owner[i + 1] == owner[i] + 1,
{
    let k = owner[i];
    assert(owner[i + 1] - owner[(i + 1) - 1] <= 1);
    assert(runs[k].0 <= i <= runs[k].1);
    assert(runs[owner[i + 1]].0 <= i + 1 <= runs[owner[i + 1]].1);
    if owner[i] == owner[i + 1] {
        assert(linked(items, i) && runs[k] == runs[k]);
    } else {
        assert(runs[k + 1].0 == runs[k].1 + 1);
    }
}

/// What the run owners say about neighbours.
proof fn lemma_owner_steps(
    items: Seq<RankItem>,
    runs: Seq<(usize, usize)>,
    owner: Seq<int>,
)
    requires
        items.len() > 0,
        partition(runs, items.len() as int),
        connected(items, runs),
        ties_inside(items, runs),
        owner_of(runs, owner, items.len() as int),
    ensures
        forall|i: int, j: int| 0 <= i <= j < items.len() ==> #[trigger] owner[i] <= #[trigger] owner[j],
        forall|i: int|
            0 <= i < items.len() - 1 && owner[i] == #[trigger] owner[i + 1] ==> linked(items, i),
        forall|i: int|
            0 <= i < items.len() - 1 && owner[i] != #[trigger] owner[i + 1] ==> !tie_link(items, i)
                && owner[i + 1] == owner[i] + 1,
        owner[items.len() - 1] == runs.len() - 1,
{
    let n = items.len() as int;
    assert forall|i: int, j: int| 0 <= i <= j < n implies #[trigger] owner[i] <= #[trigger] owner[j] by {
        lemma_owner_mono(owner, i, j);
    }
    assert forall|i: int| 0 <= i < n - 1 && owner[i] == #[trigger] owner[i + 1] implies linked(
        items,
        i,
    ) by {
        lemma_owner_step_at(items, runs, owner, i);
    }
    assert forall|i: int| 0 <= i < n - 1 && owner[i] != #[trigger] owner[i + 1] implies !tie_link(
        items,
        i,
    ) && owner[i + 1] == owner[i] + 1 by {
        lemma_owner_step_at(items, runs, owner, i);
    }
    let k = owner[n - 1];
    assert(runs[k].0 <= n - 1 <= runs[k].1);
    if k < runs.len() - 1 {
        lemma_partition_step(runs, n, k, runs.len() - 1);
        assert(runs[runs.len() - 1].0 <= runs[runs.len() - 1].1);
    }
}

proof fn lemma_priority_laws(
    items: Seq<RankItem>,
    runs: Seq<(usize, usize)>,
    seed: Seq<(usize, usize)>,
    owner: Seq<int>,
    p: Seq<i64>,
    band: PriorityBand,
    width: int,
)
    requires
        items.len() > 0,
        partition(runs, items.len() as int),
        connected(items, runs),
        ties_inside(items, runs),
        tie_connected(items, seed),
        seed.len() == tie_classes(items, items.len() as int),
        seed.len() <= width ==> runs == seed,
        width == band_width(band),
        owner_of(runs, owner, items.len() as int),
        p.len() == items.len(),
        forall|i: int| 0 <= i < items.len() ==> #[trigger] p[i] == run_priority(band, owner[i]),
    ensures
        ({
            let n = items.len() as int;
            &&& p[0] == run_priority(band, 0)
            &&& forall|i: int| 0 <= i < n ==> band.min <= #[trigger] p[i]
            &&& forall|i: int|
                0 <= i < n ==> (#[trigger] p[i] <= band.max || p[i] == band.min)
            &&& forall|i: int, j: int| 0 <= i <= j < n ==> #[trigger] p[i] >= #[trigger] p[j]
            &&& forall|i: int| 0 <= i < n - 1 ==> #[trigger] p[i] - p[i + 1] <= 1
            &&& forall|i: int| 0 <= i < n - 1 && tie_link(items, i) ==> #[trigger] p[i] == p[i + 1]
            &&& forall|i: int|
                0 <= i < n - 1 && #[trigger] p[i] == p[i + 1] && p[i + 1] > band.min ==> linked(
                    items,
                    i,
                )
            &&& runs.len() <= width ==> forall|i: int|
                0 <= i < n - 1 && #[trigger] p[i] == p[i + 1] ==> linked(items, i)
            &&& seed.len() <= width ==> forall|i: int|
                0 <= i < n - 1 ==> (#[trigger] p[i] == p[i + 1] <==> tie_link(items, i))
            &&& runs.len() > width ==> p[n - 1] == band.min
        }),
{
    let n = items.len() as int;
    lemma_owner_steps(items, runs, owner);
    assert forall|i: int, j: int| 0 <= i <= j < n implies #[trigger] p[i] >= #[trigger] p[j] by {
        assert(owner[i] <= owner[j]);
    }
    assert forall|i: int| 0 <= i < n - 1 implies #[trigger] p[i] - p[i + 1] <= 1 by {
        if owner[i] != owner[i + 1] {
            assert(owner[i + 1] == owner[i] + 1);
        }
    }
    assert forall|i: int| 0 <= i < n - 1 && tie_link(items, i) implies #[trigger] p[i] == p[i + 1] by {
        if owner[i] != owner[i + 1] {
            assert(!tie_link(items, i));
        }
    }
    assert forall|i: int|
        0 <= i < n - 1 && #[trigger] p[i] == p[i + 1] && p[i + 1] > band.min implies linked(items, i) by {
        if owner[i] != owner[i + 1] {
            assert(owner[i + 1] == owner[i] + 1);
        }
    }
    if runs.len() <= width {
        assert forall|i: int| 0 <= i < n - 1 && #[trigger] p[i] == p[i + 1] implies linked(items, i) by {
            if owner[i] != owner[i + 1] {
                assert(owner[i + 1] == owner[i] + 1);
                assert(owner[i + 1] < runs.len());
            }
        }
    }
    if seed.len() <= width {
        assert forall|i: int| 0 <= i < n - 1 implies (#[trigger] p[i] == p[i + 1] <==> tie_link(
            items,
            i,
        )) by {
            if owner[i] == owner[i + 1] {
                let k = owner[i];
                assert(runs[owner[i + 1]].0 <= i + 1 <= runs[owner[i + 1]].1);
                assert(seed[k].0 <= i && i + 1 <= seed[k].1);
                assert(tie_link(items, i) && seed[k] == seed[k]);
            } else {
                assert(owner[i + 1] == owner[i] + 1);
                assert(owner[i + 1] < runs.len());
            }
        }
    }
}

proof fn lemma_partition_len(runs: Seq<(usize, usize)>, n: int)
    requires
        partition(runs, n),
    ensures
        runs.len() <= n,
{
    assert forall|k: int| 0 <= k < runs.len() implies k <= (#[trigger] runs[k]).0 by {
        lemma_partition_start(runs, n, k);
    }
    assert(runs[runs.len() - 1].0 <= runs[runs.len() - 1].1);
}

proof fn lemma_partition_start(runs: Seq<(usize, usize)>, n: int, k: int)
    requires
        partition(runs, n),
        0 <= k < runs.len(),
    ensures
        k <= runs[k].0,
    decreases k,
{
    if k > 0 {
        lemma_partition_start(runs, n, k - 1);
        assert(runs[k].0 == runs[k - 1].1 + 1);
        assert(runs[k - 1].0 <= runs[k - 1].1);
    }
}

proof fn lemma_owner_mono(owner: Seq<int>, i: int, j: int)
    requires
        0 <= i <= j < owner.len(),
        forall|x: int|
            0 < x < owner.len() ==> #[trigger] owner[x] - owner[x - 1] <= 1 && owner[x - 1]
                <= owner[x],
    ensures
        owner[i] <= owner[j],
    decreases j - i,
{
    if i < j {
        lemma_owner_mono(owner, i, j - 1);
        assert(owner[j - 1] <= owner[j]);
    }
}

} // verus!
