//! The chain-aware ranking order: a chain's items sink to source, and the
//! items outside every chain by criticality, time budget and name.
//!
//! Timing facts reach this module as integer keys whose order is the order
//! of the times they stand for, plus the text each time is written with.

use vstd::prelude::*;
use crate::chain_rank::{criticality_bucket, criticality_rank, Criticality, RankItem, SegmentNode};
use crate::order::{seq_lt, str_lt};
use crate::text::{nat_text, owned, push_nat, push_str};

verus! {

// ── A stable order by key ──

/// The view of a sort key: two integers, then a name.
pub open spec fn key_view(k: (u64, u64, String)) -> (u64, u64, Seq<char>) {
    (k.0, k.1, k.2@)
}

/// `a` sorts strictly before `b`: by the first integer, then the second,
/// then the name.
pub open spec fn key_lt(a: (u64, u64, Seq<char>), b: (u64, u64, Seq<char>)) -> bool {
    ||| a.0 < b.0
    ||| a.0 == b.0 && a.1 < b.1
    ||| a.0 == b.0 && a.1 == b.1 && seq_lt(a.2, b.2)
}

/// `order` with index `x` placed after every index whose key does not sort
/// after `x`'s: the stable insertion of `x`.
pub open spec fn insert_by_key(keys: Seq<(u64, u64, Seq<char>)>, order: Seq<int>, x: int) -> Seq<
    int,
>
    decreases order.len(),
{
    if order.len() == 0 {
        seq![x]
    } else if key_lt(keys[x], keys[order.last()]) {
        insert_by_key(keys, order.drop_last(), x).push(order.last())
    } else {
        order.push(x)
    }
}

/// The indices `0..m` in stable key order: equal keys keep their order.
pub open spec fn sort_by_key(keys: Seq<(u64, u64, Seq<char>)>, m: int) -> Seq<int>
    decreases m,
{
    if m <= 0 {
        Seq::empty()
    } else {
        insert_by_key(keys, sort_by_key(keys, m - 1), m - 1)
    }
}

fn key_less(a: &(u64, u64, String), b: &(u64, u64, String)) -> (r: bool)
    ensures
        r == key_lt(key_view(*a), key_view(*b)),
{
    if a.0 != b.0 {
        a.0 < b.0
    } else if a.1 != b.1 {
        a.1 < b.1
    } else {
        str_lt(a.2.as_str(), b.2.as_str())
    }
}

proof fn lemma_insert_split(keys: Seq<(u64, u64, Seq<char>)>, order: Seq<int>, x: int, p: int)
    requires
        0 <= p <= order.len(),
        p == 0 || !key_lt(keys[x], keys[order[p - 1]]),
        forall|j: int| p <= j < order.len() ==> key_lt(keys[x], #[trigger] keys[order[j]]),
    ensures
        insert_by_key(keys, order, x) == order.subrange(0, p).push(x) + order.subrange(
            p,
            order.len() as int,
        ),
    decreases order.len(),
{
    if order.len() == 0 {
        assert(order.subrange(0, p).push(x) + order.subrange(p, order.len() as int) =~= seq![x]);
    } else if p == order.len() {
        assert(order.subrange(0, p) =~= order);
        assert(order.subrange(0, p).push(x) + order.subrange(p, order.len() as int) =~= order.push(
            x,
        ));
    } else {
        let last = order.len() - 1;
        assert(key_lt(keys[x], keys[order[last]]));
        lemma_insert_split(keys, order.drop_last(), x, p);
        assert(order.drop_last().subrange(0, p) =~= order.subrange(0, p));
        assert(order.drop_last().subrange(0, p).push(x) + order.drop_last().subrange(
            p,
            order.drop_last().len() as int,
        ) + seq![order.last()] =~= order.subrange(0, p).push(x) + order.subrange(
            p,
            order.len() as int,
        ));
    }
}

/// `order` lists distinct indices in non-decreasing key order, equal keys
/// by ascending index.
pub open spec fn stably_sorted(keys: Seq<(u64, u64, Seq<char>)>, order: Seq<int>) -> bool {
    &&& forall|i: int, j: int|
        0 <= i < j < order.len() ==> !key_lt(keys[#[trigger] order[j]], keys[#[trigger] order[i]])
    &&& forall|i: int, j: int|
        0 <= i < j < order.len() && keys[order[i]] == keys[order[j]] ==> #[trigger] order[i]
            < #[trigger] order[j]
    &&& forall|i: int, j: int| 0 <= i < j < order.len() ==> #[trigger] order[i] != #[trigger] order[j]
}

proof fn lemma_key_order(a: (u64, u64, Seq<char>), b: (u64, u64, Seq<char>), c: (u64, u64, Seq<char>))
    ensures
        !key_lt(a, a),
        !(key_lt(a, b) && key_lt(b, a)),
        key_lt(a, b) && key_lt(b, c) ==> key_lt(a, c),
        a == b || key_lt(a, b) || key_lt(b, a),
{
    crate::order::lemma_lt_irreflexive(a.2);
    crate::order::lemma_lt_asymmetric(a.2, b.2);
    if seq_lt(a.2, b.2) && seq_lt(b.2, c.2) {
        crate::order::lemma_lt_transitive(a.2, b.2, c.2);
    }
    crate::order::lemma_lt_total(a.2, b.2);
}

proof fn lemma_insert_sorted(keys: Seq<(u64, u64, Seq<char>)>, order: Seq<int>, x: int)
    requires
        stably_sorted(keys, order),
        forall|i: int| 0 <= i < order.len() ==> #[trigger] order[i] < x,
    ensures
        stably_sorted(keys, insert_by_key(keys, order, x)),
        forall|i: int|
            0 <= i < insert_by_key(keys, order, x).len() ==> #[trigger] insert_by_key(keys, order, x)[i]
                <= x,
        insert_by_key(keys, order, x).len() == order.len() + 1,
    decreases order.len(),
{
    let r = insert_by_key(keys, order, x);
    if order.len() == 0 {
        lemma_key_order(keys[x], keys[x], keys[x]);
    } else {
        let last = order.last();
        let n = order.len();
        if key_lt(keys[x], keys[last]) {
            let pre = order.drop_last();
            lemma_insert_sorted(keys, pre, x);
            let q = insert_by_key(keys, pre, x);
            assert(r == q.push(last));
            assert forall|i: int| 0 <= i < q.len() implies !key_lt(keys[last], keys[#[trigger] q[i]])
                && (keys[q[i]] == keys[last] ==> q[i] < last) && q[i] != last by {
                lemma_insert_member(keys, pre, x, i);
                if q[i] == x {
                    lemma_key_order(keys[x], keys[last], keys[x]);
                } else {
                    let k = choose|k: int| 0 <= k < pre.len() && pre[k] == q[i];
                    assert(order[k] == pre[k]);
                    assert(order[n - 1] == last);
                }
            }
            assert forall|i: int, j: int| 0 <= i < j < r.len() implies !key_lt(
                keys[#[trigger] r[j]],
                keys[#[trigger] r[i]],
            ) by {
                if j == r.len() - 1 {
                    assert(r[i] == q[i]);
                } else {
                    assert(r[i] == q[i] && r[j] == q[j]);
                }
            }
            assert forall|i: int, j: int|
                0 <= i < j < r.len() && keys[r[i]] == keys[r[j]] implies #[trigger] r[i] < #[trigger] r[j] by {
                if j == r.len() - 1 {
                    assert(r[i] == q[i]);
                } else {
                    assert(r[i] == q[i] && r[j] == q[j]);
                }
            }
            assert forall|i: int, j: int| 0 <= i < j < r.len() implies #[trigger] r[i] != #[trigger] r[j] by {
                if j == r.len() - 1 {
                    assert(r[i] == q[i]);
                } else {
                    assert(r[i] == q[i] && r[j] == q[j]);
                }
            }
            assert forall|i: int| 0 <= i < r.len() implies #[trigger] r[i] <= x by {
                if i < r.len() - 1 {
                    assert(r[i] == q[i]);
                } else {
                    assert(order[n - 1] < x);
                }
            }
        } else {
            assert(r == order.push(x));
            assert forall|i: int| 0 <= i < n implies !key_lt(keys[x], keys[#[trigger] order[i]]) by {
                if i < n - 1 {
                    assert(!key_lt(keys[order[n - 1]], keys[order[i]]));
                    lemma_key_order(keys[x], keys[order[i]], keys[last]);
                    lemma_key_order(keys[order[i]], keys[last], keys[x]);
                }
            }
            assert forall|i: int, j: int| 0 <= i < j < r.len() implies !key_lt(
                keys[#[trigger] r[j]],
                keys[#[trigger] r[i]],
            ) by {
                if j == n {
                    assert(r[i] == order[i]);
                } else {
                    assert(r[i] == order[i] && r[j] == order[j]);
                }
            }
            assert forall|i: int, j: int|
                0 <= i < j < r.len() && keys[r[i]] == keys[r[j]] implies #[trigger] r[i] < #[trigger] r[j] by {
                if j == n {
                    assert(r[i] == order[i]);
                } else {
                    assert(r[i] == order[i] && r[j] == order[j]);
                }
            }
            assert forall|i: int, j: int| 0 <= i < j < r.len() implies #[trigger] r[i] != #[trigger] r[j] by {
                if j == n {
                    assert(r[i] == order[i]);
                } else {
                    assert(r[i] == order[i] && r[j] == order[j]);
                }
            }
            assert forall|i: int| 0 <= i < r.len() implies #[trigger] r[i] <= x by {
                if i < n {
                    assert(r[i] == order[i]);
                }
            }
        }
    }
}

proof fn lemma_insert_len(keys: Seq<(u64, u64, Seq<char>)>, order: Seq<int>, x: int)
    ensures
        insert_by_key(keys, order, x).len() == order.len() + 1,
    decreases order.len(),
{
    if order.len() > 0 && key_lt(keys[x], keys[order.last()]) {
        lemma_insert_len(keys, order.drop_last(), x);
    }
}

proof fn lemma_insert_member(keys: Seq<(u64, u64, Seq<char>)>, order: Seq<int>, x: int, i: int)
    requires
        0 <= i < insert_by_key(keys, order, x).len(),
    ensures
        insert_by_key(keys, order, x)[i] == x || exists|k: int|
            0 <= k < order.len() && order[k] == insert_by_key(keys, order, x)[i],
    decreases order.len(),
{
    if order.len() > 0 {
        let last = order.last();
        if key_lt(keys[x], keys[last]) {
            let pre = order.drop_last();
            let q = insert_by_key(keys, pre, x);
            lemma_insert_len(keys, pre, x);
            if i < q.len() {
                lemma_insert_member(keys, pre, x, i);
                if q[i] != x {
                    let k = choose|k: int| 0 <= k < pre.len() && pre[k] == q[i];
                    assert(order[k] == pre[k]);
                }
            } else {
                assert(order[order.len() - 1] == last);
            }
        } else {
            if i < order.len() {
                assert(order[i] == insert_by_key(keys, order, x)[i]);
            }
        }
    }
}

/// The stable key order is a stable sort: each index once, keys never
/// decreasing, and equal keys in their original order.
pub proof fn lemma_sort_is_stable(keys: Seq<(u64, u64, Seq<char>)>, m: int)
    requires
        m >= 0,
    ensures
        stably_sorted(keys, sort_by_key(keys, m)),
        sort_by_key(keys, m).len() == m,
        forall|j: int| 0 <= j < m ==> 0 <= #[trigger] sort_by_key(keys, m)[j] < m,
    decreases m,
{
    lemma_sort_range(keys, m);
    if m > 0 {
        lemma_sort_is_stable(keys, m - 1);
        lemma_insert_sorted(keys, sort_by_key(keys, m - 1), m - 1);
    }
}

/// The indices of `keys` in stable key order.
pub fn stable_key_order(keys: &Vec<(u64, u64, String)>) -> (order: Vec<usize>)
    ensures
        order@.map_values(|i: usize| i as int) == sort_by_key(
            keys@.map_values(|k: (u64, u64, String)| key_view(k)),
            keys@.len() as int,
        ),
{
    let ghost kv = keys@.map_values(|k: (u64, u64, String)| key_view(k));
    let mut order: Vec<usize> = Vec::new();
    let mut m: usize = 0;
    while m < keys.len()
        invariant
            m <= keys@.len(),
            kv == keys@.map_values(|k: (u64, u64, String)| key_view(k)),
            order@.map_values(|i: usize| i as int) == sort_by_key(kv, m as int),
            forall|j: int| 0 <= j < order@.len() ==> #[trigger] order@[j] < m,
        decreases keys@.len() - m,
    {
        let ghost before = order@.map_values(|i: usize| i as int);
        let mut p = order.len();
        while p > 0 && key_less(&keys[m], &keys[order[p - 1]])
            invariant
                p <= order@.len(),
                m < keys@.len(),
                kv == keys@.map_values(|k: (u64, u64, String)| key_view(k)),
                before == order@.map_values(|i: usize| i as int),
                forall|j: int| 0 <= j < order@.len() ==> #[trigger] order@[j] < m,
                forall|j: int|
                    p <= j < order@.len() ==> key_lt(kv[m as int], #[trigger] kv[before[j]]),
            decreases p,
        {
            p -= 1;
        }
        proof {
            if p > 0 {
                assert(!key_lt(kv[m as int], kv[before[p - 1]]));
            }
            lemma_insert_split(kv, before, m as int, p as int);
        }
        order.insert(p, m);
        proof {
            assert(order@.map_values(|i: usize| i as int) =~= before.subrange(0, p as int).push(
                m as int,
            ) + before.subrange(p as int, before.len() as int));
        }
        m += 1;
    }
    order
}


proof fn lemma_insert_range(keys: Seq<(u64, u64, Seq<char>)>, order: Seq<int>, x: int, bound: int)
    requires
        0 <= x < bound,
        forall|j: int| 0 <= j < order.len() ==> 0 <= #[trigger] order[j] < bound,
    ensures
        insert_by_key(keys, order, x).len() == order.len() + 1,
        forall|j: int|
            0 <= j < order.len() + 1 ==> 0 <= #[trigger] insert_by_key(keys, order, x)[j] < bound,
    decreases order.len(),
{
    if order.len() > 0 && key_lt(keys[x], keys[order.last()]) {
        lemma_insert_range(keys, order.drop_last(), x, bound);
    }
}

/// The stable order of `0..m` holds each index below `m` once per place.
pub proof fn lemma_sort_range(keys: Seq<(u64, u64, Seq<char>)>, m: int)
    requires
        m >= 0,
    ensures
        sort_by_key(keys, m).len() == m,
        forall|j: int| 0 <= j < m ==> 0 <= #[trigger] sort_by_key(keys, m)[j] < m,
    decreases m,
{
    if m > 0 {
        lemma_sort_range(keys, m - 1);
        lemma_insert_range(keys, sort_by_key(keys, m - 1), m - 1, m);
    }
}

// ── A chain's items ──

/// One element of a chain, source to sink: a segment in topological
/// order, or a boundary with its period as an order key and as written.
#[derive(Clone, Debug, PartialEq)]
pub enum ChainElementKey {
    Segment { nodes: Vec<SegmentNode> },
    Boundary { node: String, path: String, period_key: u64, period_text: String },
}

/// What a ranked item says: node, path, fine group, chain, tie group and
/// provenance.
pub type ItemShape = (Seq<char>, Seq<char>, int, Option<Seq<char>>, Option<int>, Seq<char>);

pub open spec fn item_shape(it: RankItem) -> ItemShape {
    (
        it.node@,
        it.path@,
        it.fine_group as int,
        match it.coarse_group {
            Some(c) => Some(c@),
            None => None,
        },
        match it.tie_group {
            Some(t) => Some(t as int),
            None => None,
        },
        it.provenance@,
    )
}

pub open spec fn segment_provenance(chain: Seq<char>, k: int, n: int) -> Seq<char> {
    "derived(chain_aware: "@ + chain + " segment drain "@ + nat_text(k as nat) + "/"@ + nat_text(
        n as nat,
    ) + ")"@
}

pub open spec fn boundary_provenance(chain: Seq<char>, period: Seq<char>) -> Seq<char> {
    "derived(chain_aware: "@ + chain + " boundary RM period="@ + period + "ms)"@
}

/// A segment drained toward its sink: last node first, all in group `g`.
pub open spec fn segment_shapes(nodes: Seq<SegmentNode>, chain: Seq<char>, g: int) -> Seq<ItemShape> {
    let n = nodes.len() as int;
    Seq::new(
        nodes.len(),
        |j: int|
            (
                nodes[n - 1 - j].node@,
                nodes[n - 1 - j].path@,
                g,
                Some(chain),
                None::<int>,
                segment_provenance(chain, j + 1, n),
            ),
    )
}

/// The start of the maximal run of boundaries that ends just before `i`.
pub open spec fn run_start(elems: Seq<ChainElementKey>, i: int) -> int
    decreases i,
{
    if i > 0 && elems[i - 1] is Boundary {
        run_start(elems, i - 1)
    } else {
        i
    }
}

/// The sort keys of boundaries `s..e`: period, then node name.
pub open spec fn run_keys(elems: Seq<ChainElementKey>, s: int, e: int) -> Seq<(u64, u64, Seq<char>)> {
    Seq::new((e - s) as nat, |t: int| (elems[s + t]->period_key, 0u64, elems[s + t]->node@))
}

/// A run of boundaries, shorter period first, then by node name, in group `g`.
pub open spec fn run_shapes(elems: Seq<ChainElementKey>, s: int, e: int, chain: Seq<char>, g: int) -> Seq<
    ItemShape,
> {
    let ord = sort_by_key(run_keys(elems, s, e), e - s);
    Seq::new(
        (e - s) as nat,
        |j: int|
            (
                elems[s + ord[j]]->node@,
                elems[s + ord[j]]->path@,
                g,
                Some(chain),
                None::<int>,
                boundary_provenance(chain, elems[s + ord[j]]->period_text@),
            ),
    )
}

/// The items of elements `0..i`, sink to source, groups numbered from `g`.
pub open spec fn chain_shapes(elems: Seq<ChainElementKey>, chain: Seq<char>, i: int, g: int) -> Seq<
    ItemShape,
>
    decreases i,
{
    if i <= 0 {
        Seq::empty()
    } else if elems[i - 1] is Segment {
        segment_shapes(elems[i - 1]->nodes@, chain, g) + chain_shapes(elems, chain, i - 1, g + 1)
    } else {
        let s = run_start(elems, i - 1);
        if 0 <= s < i {
            run_shapes(elems, s, i, chain, g) + chain_shapes(elems, chain, s, g + 1)
        } else {
            Seq::empty()
        }
    }
}

/// The number of groups elements `0..i` take.
pub open spec fn chain_groups(elems: Seq<ChainElementKey>, i: int) -> int
    decreases i,
{
    if i <= 0 {
        0
    } else if elems[i - 1] is Segment {
        1 + chain_groups(elems, i - 1)
    } else {
        let s = run_start(elems, i - 1);
        if 0 <= s < i {
            1 + chain_groups(elems, s)
        } else {
            0
        }
    }
}

fn segment_text(chain: &String, k: usize, n: usize) -> (t: String)
    ensures
        t@ == segment_provenance(chain@, k as int, n as int),
{
    let mut t = String::new();
    push_str(&mut t, "derived(chain_aware: ");
    push_str(&mut t, chain.as_str());
    push_str(&mut t, " segment drain ");
    push_nat(&mut t, k as u64);
    push_str(&mut t, "/");
    push_nat(&mut t, n as u64);
    push_str(&mut t, ")");
    proof {
        assert(t@ =~= segment_provenance(chain@, k as int, n as int));
    }
    t
}

fn boundary_text(chain: &String, period: &String) -> (t: String)
    ensures
        t@ == boundary_provenance(chain@, period@),
{
    let mut t = String::new();
    push_str(&mut t, "derived(chain_aware: ");
    push_str(&mut t, chain.as_str());
    push_str(&mut t, " boundary RM period=");
    push_str(&mut t, period.as_str());
    push_str(&mut t, "ms)");
    proof {
        assert(t@ =~= boundary_provenance(chain@, period@));
    }
    t
}

/// Push segment `nodes` drained toward the sink.
fn push_segment(out: &mut Vec<RankItem>, nodes: &Vec<SegmentNode>, chain: &String, g: usize)
    ensures
        final(out)@.map_values(|it: RankItem| item_shape(it)) == old(out)@.map_values(
            |it: RankItem| item_shape(it),
        ) + segment_shapes(nodes@, chain@, g as int),
{
    let ghost start = out@.map_values(|it: RankItem| item_shape(it));
    let n = nodes.len();
    let mut k: usize = 0;
    while k < n
        invariant
            n == nodes@.len(),
            k <= n,
            out@.map_values(|it: RankItem| item_shape(it)) == start + segment_shapes(
                nodes@,
                chain@,
                g as int,
            ).take(k as int),
        decreases n - k,
    {
        let sn = &nodes[n - 1 - k];
        let item = RankItem {
            node: owned(sn.node.as_str()),
            path: owned(sn.path.as_str()),
            fine_group: g,
            coarse_group: Some(owned(chain.as_str())),
            tie_group: None,
            provenance: segment_text(chain, k + 1, n),
        };
        let ghost before = out@;
        out.push(item);
        proof {
            assert(out@.map_values(|it: RankItem| item_shape(it)) =~= before.map_values(
                |it: RankItem| item_shape(it),
            ).push(item_shape(item)));
            assert(segment_shapes(nodes@, chain@, g as int).take(k + 1) =~= segment_shapes(
                nodes@,
                chain@,
                g as int,
            ).take(k as int).push(item_shape(item)));
        }
        k += 1;
    }
    proof {
        assert(segment_shapes(nodes@, chain@, g as int).take(n as int) =~= segment_shapes(
            nodes@,
            chain@,
            g as int,
        ));
    }
}

/// Push the boundaries `s..e` in period order.
fn push_run(out: &mut Vec<RankItem>, elements: &[ChainElementKey], s: usize, e: usize, chain: &String, g: usize)
    requires
        s < e <= elements@.len(),
        forall|q: int| s <= q < e ==> (#[trigger] elements@[q]) is Boundary,
    ensures
        final(out)@.map_values(|it: RankItem| item_shape(it)) == old(out)@.map_values(
            |it: RankItem| item_shape(it),
        ) + run_shapes(elements@, s as int, e as int, chain@, g as int),
{
    let ghost start = out@.map_values(|it: RankItem| item_shape(it));
    let mut keys: Vec<(u64, u64, String)> = Vec::new();
    let mut t = s;
    while t < e
        invariant
            s <= t <= e,
            e <= elements@.len(),
            forall|q: int| s <= q < e ==> (#[trigger] elements@[q]) is Boundary,
            keys@.len() == t - s,
            forall|q: int|
                0 <= q < keys@.len() ==> key_view(#[trigger] keys@[q]) == (
                    elements@[s + q]->period_key,
                    0u64,
                    elements@[s + q]->node@,
                ),
        decreases e - t,
    {
        match &elements[t] {
            ChainElementKey::Boundary { node, period_key, .. } => {
                keys.push((*period_key, 0, owned(node.as_str())));
            },
            ChainElementKey::Segment { .. } => {},
        }
        t += 1;
    }
    let ghost rk = run_keys(elements@, s as int, e as int);
    assert(keys@.map_values(|k: (u64, u64, String)| key_view(k)) =~= rk);
    let order = stable_key_order(&keys);
    proof {
        lemma_sort_range(rk, (e - s) as int);
    }
    let ghost ord = sort_by_key(rk, (e - s) as int);
    let ghost shapes = run_shapes(elements@, s as int, e as int, chain@, g as int);
    let m = order.len();
    assert(m == e - s) by {
        assert(order@.map_values(|i: usize| i as int).len() == ord.len());
    }
    let mut j: usize = 0;
    while j < m
        invariant
            m == order@.len(),
            m == e - s,
            s < e <= elements@.len(),
            forall|q: int| s <= q < e ==> (#[trigger] elements@[q]) is Boundary,
            order@.map_values(|i: usize| i as int) == ord,
            ord == sort_by_key(rk, (e - s) as int),
            rk == run_keys(elements@, s as int, e as int),
            forall|q: int| 0 <= q < m ==> 0 <= #[trigger] ord[q] < m,
            shapes == run_shapes(elements@, s as int, e as int, chain@, g as int),
            j <= m,
            out@.map_values(|it: RankItem| item_shape(it)) == start + shapes.take(j as int),
        decreases m - j,
    {
        let q = order[j];
        assert(ord[j as int] == q as int);
        match &elements[s + q] {
            ChainElementKey::Boundary { node, path, period_text, .. } => {
                let item = RankItem {
                    node: owned(node.as_str()),
                    path: owned(path.as_str()),
                    fine_group: g,
                    coarse_group: Some(owned(chain.as_str())),
                    tie_group: None,
                    provenance: boundary_text(chain, period_text),
                };
                let ghost before = out@;
                out.push(item);
                proof {
                    assert(out@.map_values(|it: RankItem| item_shape(it)) =~= before.map_values(
                        |it: RankItem| item_shape(it),
                    ).push(item_shape(item)));
                    let b = elements@[s + ord[j as int]];
                    assert(b == elements@[(s + q) as int]);
                    assert(b->node@ == node@ && b->path@ == path@ && b->period_text@ == period_text@);
                    assert(shapes[j as int] == item_shape(item));
                    assert(shapes.take(j + 1) =~= shapes.take(j as int).push(item_shape(item)));
                }
            },
            ChainElementKey::Segment { .. } => {
                assert(false);
            },
        }
        j += 1;
    }
    proof {
        assert(shapes.take(m as int) =~= shapes);
    }
}

/// A chain's items, sink to source: each segment drained in reverse
/// topological order, each maximal run of boundaries by period (shorter
/// first) then node name, every segment and run a fine group of its own,
/// numbered from `group_counter`; also the next free group number.
pub fn chain_item_order(elements: &[ChainElementKey], chain: &String, group_counter: usize) -> (r: (
    Vec<RankItem>,
    usize,
))
    requires
        group_counter + elements@.len() <= usize::MAX,
    ensures
        r.0@.map_values(|it: RankItem| item_shape(it)) == chain_shapes(
            elements@,
            chain@,
            elements@.len() as int,
            group_counter as int,
        ),
        r.1 == group_counter + chain_groups(elements@, elements@.len() as int),
{
    let ghost total = chain_shapes(elements@, chain@, elements@.len() as int, group_counter as int);
    let ghost groups = chain_groups(elements@, elements@.len() as int);
    let mut out: Vec<RankItem> = Vec::new();
    let mut g = group_counter;
    let mut i = elements.len();
    while i > 0
        invariant
            i <= elements@.len(),
            group_counter + elements@.len() <= usize::MAX,
            g <= group_counter + (elements@.len() - i),
            total == chain_shapes(elements@, chain@, elements@.len() as int, group_counter as int),
            groups == chain_groups(elements@, elements@.len() as int),
            total == out@.map_values(|it: RankItem| item_shape(it)) + chain_shapes(
                elements@,
                chain@,
                i as int,
                g as int,
            ),
            group_counter + groups == g + chain_groups(elements@, i as int),
        decreases i,
    {
        i -= 1;
        let ghost before = out@.map_values(|it: RankItem| item_shape(it));
        match &elements[i] {
            ChainElementKey::Segment { nodes } => {
                push_segment(&mut out, nodes, chain, g);
                proof {
                    assert(before + segment_shapes(nodes@, chain@, g as int) + chain_shapes(
                        elements@,
                        chain@,
                        i as int,
                        g + 1,
                    ) =~= before + chain_shapes(elements@, chain@, i + 1, g as int));
                }
                g += 1;
            },
            ChainElementKey::Boundary { .. } => {
                let mut s = i;
                while s > 0 && matches!(elements[s - 1], ChainElementKey::Boundary { .. })
                    invariant
                        s <= i < elements@.len(),
                        run_start(elements@, s as int) == run_start(elements@, i as int),
                        forall|q: int| s <= q <= i ==> (#[trigger] elements@[q]) is Boundary,
                    decreases s,
                {
                    s -= 1;
                }
                push_run(&mut out, elements, s, i + 1, chain, g);
                proof {
                    assert(run_start(elements@, (i + 1) - 1) == s);
                    assert(before + run_shapes(elements@, s as int, i + 1, chain@, g as int)
                        + chain_shapes(elements@, chain@, s as int, g + 1) =~= before
                        + chain_shapes(elements@, chain@, i + 1, g as int));
                }
                g += 1;
                i = s;
            },
        }
    }
    proof {
        assert(out@.map_values(|it: RankItem| item_shape(it)) + Seq::<ItemShape>::empty()
            =~= out@.map_values(|it: RankItem| item_shape(it)));
    }
    (out, g)
}


// ── The items outside every chain ──

/// A path outside every feasible chain: its node's criticality and its
/// time budget as an order key and as written.
#[derive(Clone, Debug, PartialEq)]
pub struct NonChainFact {
    pub node: String,
    pub path: String,
    pub criticality: Option<Criticality>,
    pub budget_key: u64,
    pub budget_text: String,
}

/// The sort keys of the facts: criticality bucket, budget, node name.
pub open spec fn fact_keys(facts: Seq<NonChainFact>) -> Seq<(u64, u64, Seq<char>)> {
    Seq::new(
        facts.len(),
        |t: int|
            (criticality_bucket(facts[t].criticality) as u64, facts[t].budget_key, facts[t].node@),
    )
}

/// Two facts with equal criticality and budget.
pub open spec fn same_facts(a: NonChainFact, b: NonChainFact) -> bool {
    criticality_bucket(a.criticality) == criticality_bucket(b.criticality) && a.budget_key
        == b.budget_key
}

/// The group offset of the `j`th fact in `ord`: one more at every change
/// of criticality or budget.
pub open spec fn fact_group(facts: Seq<NonChainFact>, ord: Seq<int>, j: int) -> int
    decreases j,
{
    if j <= 0 {
        0
    } else {
        fact_group(facts, ord, j - 1) + if same_facts(facts[ord[j - 1]], facts[ord[j]]) {
            0int
        } else {
            1int
        }
    }
}

/// `Option<Criticality>`'s `Debug` text.
pub open spec fn criticality_debug(c: Option<Criticality>) -> Seq<char> {
    match c {
        Some(Criticality::High) => "Some(High)"@,
        Some(Criticality::Medium) => "Some(Medium)"@,
        Some(Criticality::Low) => "Some(Low)"@,
        None => "None"@,
    }
}

pub open spec fn fact_provenance(c: Option<Criticality>, budget: Seq<char>) -> Seq<char> {
    "derived(chain_aware: non-chain criticality="@ + criticality_debug(c) + " budget_ms="@ + budget
        + ")"@
}

/// The non-chain items: by criticality bucket, then budget, then node name
/// (equal keys keep their order); facts with equal criticality and budget
/// share one group, which is also their tie group.
pub open spec fn fact_shapes(facts: Seq<NonChainFact>, g: int) -> Seq<ItemShape> {
    let ord = sort_by_key(fact_keys(facts), facts.len() as int);
    Seq::new(
        facts.len(),
        |j: int|
            (
                facts[ord[j]].node@,
                facts[ord[j]].path@,
                g + fact_group(facts, ord, j),
                None::<Seq<char>>,
                Some(g + fact_group(facts, ord, j)),
                fact_provenance(facts[ord[j]].criticality, facts[ord[j]].budget_text@),
            ),
    )
}

/// The number of groups the facts take.
pub open spec fn fact_groups(facts: Seq<NonChainFact>) -> int {
    if facts.len() == 0 {
        0
    } else {
        fact_group(
            facts,
            sort_by_key(fact_keys(facts), facts.len() as int),
            facts.len() - 1,
        ) + 1
    }
}

proof fn lemma_fact_group_bound(facts: Seq<NonChainFact>, ord: Seq<int>, j: int)
    requires
        j >= 0,
    ensures
        0 <= fact_group(facts, ord, j) <= j,
    decreases j,
{
    if j > 0 {
        lemma_fact_group_bound(facts, ord, j - 1);
    }
}

fn fact_text(c: Option<Criticality>, budget: &String) -> (t: String)
    ensures
        t@ == fact_provenance(c, budget@),
{
    let mut t = String::new();
    push_str(&mut t, "derived(chain_aware: non-chain criticality=");
    match c {
        Some(Criticality::High) => push_str(&mut t, "Some(High)"),
        Some(Criticality::Medium) => push_str(&mut t, "Some(Medium)"),
        Some(Criticality::Low) => push_str(&mut t, "Some(Low)"),
        None => push_str(&mut t, "None"),
    }
    push_str(&mut t, " budget_ms=");
    push_str(&mut t, budget.as_str());
    push_str(&mut t, ")");
    proof {
        assert(t@ =~= fact_provenance(c, budget@));
    }
    t
}

/// The path `(node, path)` is one that a feasible chain covers.
pub open spec fn is_covered(covered: Seq<(String, String)>, node: Seq<char>, path: Seq<char>) -> bool {
    exists|k: int| 0 <= k < covered.len() && (#[trigger] covered[k]).0@ == node && covered[k].1@ == path
}

/// The facts among the first `m` of `facts` whose path no chain covers, in order.
pub open spec fn uncovered(facts: Seq<NonChainFact>, covered: Seq<(String, String)>, m: int) -> Seq<NonChainFact>
    decreases m,
{
    if m <= 0 {
        Seq::empty()
    } else if is_covered(covered, facts[m - 1].node@, facts[m - 1].path@) {
        uncovered(facts, covered, m - 1)
    } else {
        uncovered(facts, covered, m - 1).push(facts[m - 1])
    }
}

fn covers(covered: &Vec<(String, String)>, node: &str, path: &str) -> (r: bool)
    ensures
        r == is_covered(covered@, node@, path@),
{
    let mut k: usize = 0;
    while k < covered.len()
        invariant
            k <= covered@.len(),
            forall|j: int| 0 <= j < k ==> !((#[trigger] covered@[j]).0@ == node@ && covered@[j].1@ == path@),
        decreases covered@.len() - k,
    {
        if crate::text::str_eq(covered[k].0.as_str(), node) && crate::text::str_eq(covered[k].1.as_str(), path) {
            return true;
        }
        k += 1;
    }
    false
}

/// The facts whose path no feasible chain covers, in their order: only
/// those are ranked outside the chains.
pub fn uncovered_facts(facts: Vec<NonChainFact>, covered: &Vec<(String, String)>) -> (r: Vec<NonChainFact>)
    ensures
        r@ == uncovered(facts@, covered@, facts@.len() as int),
{
    let ghost orig = facts@;
    let n = facts.len();
    let mut rest = facts;
    let mut out: Vec<NonChainFact> = Vec::new();
    let mut i: usize = 0;
    while rest.len() > 0
        invariant
            orig.len() == n,
            i <= orig.len(),
            rest@ == orig.skip(i as int),
            out@ == uncovered(orig, covered@, i as int),
        decreases rest@.len(),
    {
        assert(rest@[0] == orig[i as int]);
        let f = rest.remove(0);
        if !covers(covered, f.node.as_str(), f.path.as_str()) {
            out.push(f);
        }
        i += 1;
        assert(rest@ =~= orig.skip(i as int));
    }
    assert(orig.len() == i);
    out
}

/// `a` is a strictly higher criticality than `b`: High over Medium over
/// Low, and any criticality over none.
pub open spec fn outranks(a: Option<Criticality>, b: Option<Criticality>) -> bool {
    ||| a == Some(Criticality::High) && b != Some(Criticality::High)
    ||| a == Some(Criticality::Medium) && (b == Some(Criticality::Low) || b is None)
    ||| a == Some(Criticality::Low) && b is None
}

/// Buckets rank criticality: a strictly higher criticality takes a strictly
/// earlier bucket, so High comes before Medium, Medium before Low, and Low
/// before none.
pub proof fn lemma_buckets_follow_criticality(a: Option<Criticality>, b: Option<Criticality>)
    ensures
        outranks(a, b) ==> criticality_bucket(a) < criticality_bucket(b),
        criticality_bucket(a) == criticality_bucket(b) <==> a == b,
{
}

/// Outside every chain, a fact of higher criticality always comes before
/// one of lower criticality: the `j`th item is fact `ord[j]` of the stable
/// order, each fact once, and no later item outranks an earlier one.
pub proof fn lemma_higher_criticality_first(facts: Seq<NonChainFact>, g: int)
    ensures
        ({
            let ord = sort_by_key(fact_keys(facts), facts.len() as int);
            &&& ord.len() == facts.len()
            &&& forall|j: int| 0 <= j < ord.len() ==> 0 <= #[trigger] ord[j] < facts.len()
            &&& forall|a: int, b: int| 0 <= a < b < ord.len() ==> #[trigger] ord[a] != #[trigger] ord[b]
            &&& forall|j: int|
                0 <= j < ord.len() ==> (#[trigger] fact_shapes(facts, g)[j]).0 == facts[ord[j]].node@
                    && fact_shapes(facts, g)[j].1 == facts[ord[j]].path@
            &&& forall|a: int, b: int|
                0 <= a < b < ord.len() ==> !outranks(
                    facts[#[trigger] ord[b]].criticality,
                    facts[#[trigger] ord[a]].criticality,
                )
        }),
{
    let keys = fact_keys(facts);
    let ord = sort_by_key(keys, facts.len() as int);
    lemma_sort_is_stable(keys, facts.len() as int);
    assert forall|a: int, b: int| 0 <= a < b < ord.len() implies !outranks(
        facts[#[trigger] ord[b]].criticality,
        facts[#[trigger] ord[a]].criticality,
    ) by {
        assert(!key_lt(keys[ord[b]], keys[ord[a]]));
        lemma_buckets_follow_criticality(facts[ord[b]].criticality, facts[ord[a]].criticality);
    }
}

/// Items outside every feasible chain: by criticality bucket (High first),
/// then budget, then node name; facts with equal criticality and budget
/// share a fine group and tie group, numbered from `group_counter`; also
/// the next free group number.
pub fn non_chain_item_order(facts: &[NonChainFact], group_counter: usize) -> (r: (Vec<RankItem>, usize))
    requires
        group_counter + facts@.len() <= usize::MAX,
    ensures
        r.0@.map_values(|it: RankItem| item_shape(it)) == fact_shapes(facts@, group_counter as int),
        r.1 == group_counter + fact_groups(facts@),
{
    let n = facts.len();
    let mut keys: Vec<(u64, u64, String)> = Vec::new();
    let mut t: usize = 0;
    while t < n
        invariant
            n == facts@.len(),
            t <= n,
            keys@.len() == t,
            forall|q: int|
                0 <= q < t ==> key_view(#[trigger] keys@[q]) == fact_keys(facts@)[q],
        decreases n - t,
    {
        let f = &facts[t];
        keys.push((criticality_rank(f.criticality) as u64, f.budget_key, owned(f.node.as_str())));
        t += 1;
    }
    let ghost fk = fact_keys(facts@);
    assert(keys@.map_values(|k: (u64, u64, String)| key_view(k)) =~= fk);
    let order = stable_key_order(&keys);
    proof {
        lemma_sort_range(fk, n as int);
    }
    let ghost ord = sort_by_key(fk, n as int);
    let ghost shapes = fact_shapes(facts@, group_counter as int);
    assert(order@.len() == n) by {
        assert(order@.map_values(|i: usize| i as int).len() == ord.len());
    }
    let mut items: Vec<RankItem> = Vec::new();
    let mut cur = group_counter;
    let mut j: usize = 0;
    while j < n
        invariant
            n == facts@.len(),
            n == order@.len(),
            group_counter + n <= usize::MAX,
            fk == fact_keys(facts@),
            ord == sort_by_key(fk, n as int),
            order@.map_values(|i: usize| i as int) == ord,
            forall|q: int| 0 <= q < n ==> 0 <= #[trigger] ord[q] < n,
            shapes == fact_shapes(facts@, group_counter as int),
            j <= n,
            j > 0 ==> cur == group_counter + fact_group(facts@, ord, j - 1),
            j == 0 ==> cur == group_counter,
            items@.map_values(|it: RankItem| item_shape(it)) == shapes.take(j as int),
        decreases n - j,
    {
        let q = order[j];
        assert(ord[j as int] == q as int);
        if j > 0 {
            let p = order[j - 1];
            assert(ord[j - 1] == p as int);
            proof {
                lemma_fact_group_bound(facts@, ord, j - 1);
            }
            if !(criticality_rank(facts[p].criticality) == criticality_rank(facts[q].criticality)
                && facts[p].budget_key == facts[q].budget_key) {
                cur += 1;
            }
        }
        let f = &facts[q];
        let item = RankItem {
            node: owned(f.node.as_str()),
            path: owned(f.path.as_str()),
            fine_group: cur,
            coarse_group: None,
            tie_group: Some(cur),
            provenance: fact_text(f.criticality, &f.budget_text),
        };
        let ghost before = items@;
        items.push(item);
        proof {
            assert(cur == group_counter + fact_group(facts@, ord, j as int));
            assert(shapes[j as int] == item_shape(item));
            assert(items@.map_values(|it: RankItem| item_shape(it)) =~= before.map_values(
                |it: RankItem| item_shape(it),
            ).push(item_shape(item)));
            assert(shapes.take(j + 1) =~= shapes.take(j as int).push(item_shape(item)));
        }
        j += 1;
    }
    proof {
        assert(shapes.take(n as int) =~= shapes);
        if n > 0 {
            lemma_fact_group_bound(facts@, ord, n - 1);
        }
    }
    let next = if n == 0 {
        group_counter
    } else {
        cur + 1
    };
    (items, next)
}

} // verus!
