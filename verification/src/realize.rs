//! The `posix` realizer's decisions: the band a mapper needs, priorities
//! spread across it, and which tied nodes get `SCHED_RR`.

use vstd::prelude::*;
use crate::platform::{PriorityBand, PlatformResources, band_reason};
use crate::resolve::{SchedError, SchedErrorView, sched_error_text};
use crate::text::{push_str, push_int, int_text, owned, str_eq};
use crate::assoc::{has_key, first_key_at, keys_unique};

verus! {

// ── Errors ──

/// Errors produced while deriving a plan.
#[derive(Debug, Clone, PartialEq, Eq)]
pub enum MapError {
    MissingPriorityBand { mapper: String },
    InvalidPriorityBand { mapper: String, min: i64, max: i64, reason: String },
    MissingLegacySpec,
    Resolve(SchedError),
}

/// The human-readable text of a [`MapError`].
pub open spec fn map_error_text(e: MapError) -> Seq<char> {
    match e {
        MapError::MissingPriorityBand { mapper } => "mapper `"@ + mapper@
            + "` requires `resources.rt_priority_band` (target must be `posix`)"@,
        MapError::InvalidPriorityBand { mapper, min, max, reason } => "mapper `"@ + mapper@
            + "`'s `rt_priority_band` { min: "@ + int_text(min as int) + ", max: "@ + int_text(
            max as int,
        ) + " } is invalid: "@ + reason@,
        MapError::MissingLegacySpec =>
            "mapper `manual` requires a legacy tiers+assign spec (only reachable via the `.toml` bridge)"@,
        MapError::Resolve(e) => "manual mapper resolve error: "@ + sched_error_text(e),
    }
}

impl MapError {
    /// The message this error reads as.
    pub fn message(&self) -> (r: String)
        ensures
            r@ == map_error_text(*self),
    {
        let mut s = String::new();
        match self {
            MapError::MissingPriorityBand { mapper } => {
                push_str(&mut s, "mapper `");
                push_str(&mut s, mapper.as_str());
                push_str(&mut s, "` requires `resources.rt_priority_band` (target must be `posix`)");
            },
            MapError::InvalidPriorityBand { mapper, min, max, reason } => {
                push_str(&mut s, "mapper `");
                push_str(&mut s, mapper.as_str());
                push_str(&mut s, "`'s `rt_priority_band` { min: ");
                push_int(&mut s, *min);
                push_str(&mut s, ", max: ");
                push_int(&mut s, *max);
                push_str(&mut s, " } is invalid: ");
                push_str(&mut s, reason.as_str());
            },
            MapError::MissingLegacySpec => {
                push_str(
                    &mut s,
                    "mapper `manual` requires a legacy tiers+assign spec (only reachable via the `.toml` bridge)",
                );
            },
            MapError::Resolve(e) => {
                push_str(&mut s, "manual mapper resolve error: ");
                let m = e.message();
                push_str(&mut s, m.as_str());
            },
        }
        assert(s@ =~= map_error_text(*self));
        s
    }
}

/// The `posix` RT band of `facts`, when it is present and usable.
pub fn require_posix_band(facts: &PlatformResources, mapper_name: &str) -> (r: Result<
    PriorityBand,
    MapError,
>)
    ensures
        match facts {
            PlatformResources::Posix(p) => match p.rt_priority_band {
                None => r matches Err(MapError::MissingPriorityBand { mapper }) && mapper@
                    == mapper_name@,
                Some(band) => match band_reason(band) {
                    None => r == Ok::<PriorityBand, MapError>(band),
                    Some(why) => r matches Err(
                        MapError::InvalidPriorityBand { mapper, min, max, reason },
                    ) && mapper@ == mapper_name@ && min == band.min && max == band.max && reason@
                        == why,
                },
            },
            PlatformResources::Raw(_) => r matches Err(MapError::MissingPriorityBand { mapper })
                && mapper@ == mapper_name@,
        },
{
    let posix = match facts {
        PlatformResources::Posix(p) => p,
        PlatformResources::Raw(_) => {
            return Err(MapError::MissingPriorityBand { mapper: owned(mapper_name) });
        },
    };
    let band = match posix.rt_priority_band {
        Some(b) => b,
        None => {
            return Err(MapError::MissingPriorityBand { mapper: owned(mapper_name) });
        },
    };
    match band.validate_posix() {
        Ok(()) => Ok(band),
        Err(reason) => Err(
            MapError::InvalidPriorityBand {
                mapper: owned(mapper_name),
                min: band.min,
                max: band.max,
                reason,
            },
        ),
    }
}

// ── Spreading ranks across a band ──

/// `a / d` rounded to the nearest integer, halves away from zero (`d > 0`).
pub open spec fn round_div(a: int, d: int) -> int {
    if a >= 0 {
        (2 * a + d) / (2 * d)
    } else {
        -((2 * (-a) + d) / (2 * d))
    }
}

/// Priority for rank `i` of `n`: rank 0 at the top of the band, rank
/// `n - 1` at its bottom, the rest spread linearly; `n <= 1` gives the top.
pub open spec fn spread(i: int, n: int, band: PriorityBand) -> int {
    if n <= 1 {
        band.max as int
    } else {
        band.max - round_div((band.max - band.min) * i, n - 1)
    }
}

proof fn lemma_round(prod: nat, d: nat, q: nat, r: nat)
    requires
        d > 0,
        prod == q * d + r,
        r < d,
    ensures
        (2 * prod + d) / (2 * d) == if 2 * r >= d {
            q + 1int
        } else {
            q as int
        },
{
    let x = 2 * prod + d;
    if 2 * r >= d {
        assert(x == (q + 1) * (2 * d) + (2 * r - d)) by (nonlinear_arith)
            requires
                x == 2 * prod + d,
                prod == q * d + r,
        ;
        assert(0 <= 2 * r - d < 2 * d);
        vstd::arithmetic::div_mod::lemma_fundamental_div_mod_converse(
            x as int,
            2 * d as int,
            (q + 1) as int,
            (2 * r - d) as int,
        );
    } else {
        assert(x == q * (2 * d) + (2 * r + d)) by (nonlinear_arith)
            requires
                x == 2 * prod + d,
                prod == q * d + r,
        ;
        assert(0 <= 2 * r + d < 2 * d);
        vstd::arithmetic::div_mod::lemma_fundamental_div_mod_converse(
            x as int,
            2 * d as int,
            q as int,
            (2 * r + d) as int,
        );
    }
}

/// Priority for rank `i` (0 = highest) out of `n` distinct ranks, spread
/// linearly across `band`, rounding halves away from zero.
pub fn spread_priority(i: usize, n: usize, band: &PriorityBand) -> (r: i64)
    requires
        n <= 1 || i < n,
        i64::MIN <= band.max - band.min <= i64::MAX,
    ensures
        r == spread(i as int, n as int, *band),
{
    if n <= 1 {
        return band.max;
    }
    let span: i64 = band.max - band.min;
    let mag: u128 = if span < 0 {
        (-(span as i128)) as u128
    } else {
        span as u128
    };
    let d: u128 = (n - 1) as u128;
    assert(mag * (i as u128) <= mag * d) by (nonlinear_arith)
        requires
            i < n,
            d == n - 1,
    ;
    assert(mag * d < 0x1_0000_0000_0000_0000 * 0x1_0000_0000_0000_0000) by (nonlinear_arith)
        requires
            mag < 0x1_0000_0000_0000_0000,
            d < 0x1_0000_0000_0000_0000,
    ;
    let prod: u128 = mag * (i as u128);
    let q: u128 = prod / d;
    let rem: u128 = prod % d;
    proof {
        vstd::arithmetic::div_mod::lemma_fundamental_div_mod(prod as int, d as int);
        assert(prod == d * q + rem);
        assert(prod == q * d + rem) by (nonlinear_arith)
            requires
                prod == d * q + rem,
        ;
        assert(q * d <= prod) by (nonlinear_arith)
            requires
                prod == q * d + rem,
        ;
        assert(q <= mag) by (nonlinear_arith)
            requires
                q * d <= prod,
                prod <= mag * d,
                d > 0,
        ;
        if q == mag {
            assert(rem == 0) by (nonlinear_arith)
                requires
                    prod == q * d + rem,
                    prod <= mag * d,
                    q == mag,
            ;
        }
        lemma_round(prod as nat, d as nat, q as nat, rem as nat);
    }
    let rounded: u128 = if rem >= d - rem {
        q + 1
    } else {
        q
    };
    proof {
        assert(rounded <= mag);
        if span < 0 {
            assert((band.max - band.min) * i == -(mag * i)) by (nonlinear_arith)
                requires
                    mag == -(band.max - band.min),
            ;
        } else {
            assert((band.max - band.min) * i == mag * i) by (nonlinear_arith)
                requires
                    mag == band.max - band.min,
            ;
        }
    }
    let wide: i128 = if span < 0 {
        band.max as i128 + rounded as i128
    } else {
        band.max as i128 - rounded as i128
    };
    wide as i64
}

} // verus!

verus! {

// ── Ties ──

/// A tie the host's `SCHED_RR` slice cannot mitigate: nodes sharing one
/// priority that stay `SCHED_FIFO`.
#[derive(Debug, Clone, PartialEq, Eq)]
pub struct TieWarning {
    pub priority: i64,
    pub nodes: Vec<String>,
    pub rr_timeslice_us: Option<u64>,
    pub shortest_period_us: Option<u64>,
}

/// The names of the nodes at priority `p`, in table order.
pub open spec fn names_at(np: Seq<(String, i64)>, p: i64) -> Seq<Seq<char>>
    decreases np.len(),
{
    if np.len() == 0 {
        Seq::empty()
    } else if np.last().1 == p {
        names_at(np.drop_last(), p).push(np.last().0@)
    } else {
        names_at(np.drop_last(), p)
    }
}

/// The period recorded for node `n` (its first entry); absent means unknown.
pub open spec fn period_for(periods: Seq<(String, Option<u64>)>, n: Seq<char>) -> Option<u64>
    decreases periods.len(),
{
    if periods.len() == 0 {
        None
    } else if periods[0].0@ == n {
        periods[0].1
    } else {
        period_for(periods.drop_first(), n)
    }
}

/// The shortest known period among `names`.
pub open spec fn shortest_of(periods: Seq<(String, Option<u64>)>, names: Seq<Seq<char>>) -> Option<u64>
    decreases names.len(),
{
    if names.len() == 0 {
        None
    } else {
        let r = shortest_of(periods, names.drop_last());
        match period_for(periods, names.last()) {
            None => r,
            Some(x) => match r {
                None => Some(x),
                Some(y) => Some(
                    if x < y {
                        x
                    } else {
                        y
                    },
                ),
            },
        }
    }
}

/// Rotating between tied nodes changes anything: the slice is known and
/// shorter than the shortest known period.
pub open spec fn slice_useful(slice: Option<u64>, shortest: Option<u64>) -> bool {
    &&& slice is Some
    &&& shortest is Some
    &&& slice->0 < shortest->0
}

/// Priority `p` holds a tie that `SCHED_RR` mitigates.
pub open spec fn mitigated(
    np: Seq<(String, i64)>,
    periods: Seq<(String, Option<u64>)>,
    slice: Option<u64>,
    p: i64,
) -> bool {
    names_at(np, p).len() >= 2 && slice_useful(slice, shortest_of(periods, names_at(np, p)))
}

/// Priority `p` holds a tie that `SCHED_RR` cannot mitigate.
pub open spec fn unmitigated(
    np: Seq<(String, i64)>,
    periods: Seq<(String, Option<u64>)>,
    slice: Option<u64>,
    p: i64,
) -> bool {
    names_at(np, p).len() >= 2 && !slice_useful(slice, shortest_of(periods, names_at(np, p)))
}

pub open spec fn string_views(v: Seq<String>) -> Seq<Seq<char>> {
    Seq::new(v.len(), |i: int| v[i]@)
}

proof fn lemma_names_at(np: Seq<(String, i64)>, p: i64, n: Seq<char>)
    ensures
        names_at(np, p).contains(n) <==> exists|i: int|
            0 <= i < np.len() && #[trigger] np[i].0@ == n && np[i].1 == p,
    decreases np.len(),
{
    if np.len() > 0 {
        let q = np.drop_last();
        lemma_names_at(q, p, n);
        if names_at(np, p).contains(n) {
            if np.last().1 == p && np.last().0@ == n {
                assert(np[np.len() - 1].0@ == n);
            } else {
                if np.last().1 == p {
                    let k = choose|k: int| 0 <= k < names_at(np, p).len() && names_at(np, p)[k] == n;
                    assert(names_at(q, p).contains(n)) by {
                        assert(names_at(q, p)[k] == n);
                    }
                }
                let i = choose|i: int| 0 <= i < q.len() && #[trigger] q[i].0@ == n && q[i].1 == p;
                assert(np[i] == q[i]);
            }
        }
        if exists|i: int| 0 <= i < np.len() && #[trigger] np[i].0@ == n && np[i].1 == p {
            let i = choose|i: int| 0 <= i < np.len() && #[trigger] np[i].0@ == n && np[i].1 == p;
            if i == np.len() - 1 {
                assert(names_at(np, p).last() == n);
                assert(names_at(np, p).contains(n));
            } else {
                assert(q[i] == np[i]);
                let k = choose|k: int| 0 <= k < names_at(q, p).len() && names_at(q, p)[k] == n;
                if np.last().1 == p {
                    assert(names_at(np, p)[k] == n);
                }
                assert(names_at(np, p).contains(n));
            }
        }
    }
}

fn period_lookup(periods: &Vec<(String, Option<u64>)>, n: &str) -> (r: Option<u64>)
    ensures
        r == period_for(periods@, n@),
{
    let mut i: usize = 0;
    assert(periods@.skip(0) =~= periods@);
    while i < periods.len()
        invariant
            i <= periods@.len(),
            period_for(periods@, n@) == period_for(periods@.skip(i as int), n@),
        decreases periods@.len() - i,
    {
        assert(periods@.skip(i as int).drop_first() =~= periods@.skip(i + 1));
        if str_eq(periods[i].0.as_str(), n) {
            return periods[i].1;
        }
        i += 1;
    }
    None
}

/// `rr` names exactly the nodes whose priority is among `ps[..t]` and
/// holds a mitigated tie.
pub open spec fn rr_covers(
    rr: Seq<Seq<char>>,
    np: Seq<(String, i64)>,
    periods: Seq<(String, Option<u64>)>,
    slice: Option<u64>,
    ps: Seq<i64>,
    t: int,
) -> bool {
    forall|n: Seq<char>|
        #![trigger rr.contains(n)]
        rr.contains(n) <==> exists|j: int|
            0 <= j < np.len() && #[trigger] np[j].0@ == n && mitigated(np, periods, slice, np[j].1)
                && exists|s: int| 0 <= s < t && ps[s] == np[j].1
}

proof fn lemma_rr_step(
    before: Seq<Seq<char>>,
    after: Seq<Seq<char>>,
    np: Seq<(String, i64)>,
    periods: Seq<(String, Option<u64>)>,
    slice: Option<u64>,
    ps: Seq<i64>,
    t: int,
)
    requires
        0 <= t < ps.len(),
        rr_covers(before, np, periods, slice, ps, t),
        forall|a: int, b: int| 0 <= a < b < ps.len() ==> ps[a] < ps[b],
        mitigated(np, periods, slice, ps[t]) ==> after == before + names_at(np, ps[t]),
        !mitigated(np, periods, slice, ps[t]) ==> after == before,
    ensures
        rr_covers(after, np, periods, slice, ps, t + 1),
{
    let p = ps[t];
    assert forall|n: Seq<char>| #![trigger after.contains(n)] after.contains(n) <==> exists|j: int|
        0 <= j < np.len() && #[trigger] np[j].0@ == n && mitigated(np, periods, slice, np[j].1)
            && exists|s: int| 0 <= s < t + 1 && ps[s] == np[j].1 by {
        lemma_names_at(np, p, n);
        if after.contains(n) {
            let k = choose|k: int| 0 <= k < after.len() && after[k] == n;
            if k < before.len() {
                assert(before[k] == n);
                assert(before.contains(n));
                let j = choose|j: int|
                    0 <= j < np.len() && #[trigger] np[j].0@ == n && mitigated(
                        np,
                        periods,
                        slice,
                        np[j].1,
                    ) && exists|s: int| 0 <= s < t && ps[s] == np[j].1;
                let s = choose|s: int| 0 <= s < t && ps[s] == np[j].1;
                assert(0 <= s < t + 1 && ps[s] == np[j].1);
            } else {
                assert(mitigated(np, periods, slice, p));
                assert(names_at(np, p)[k - before.len()] == n);
                assert(names_at(np, p).contains(n));
                let j = choose|j: int| 0 <= j < np.len() && #[trigger] np[j].0@ == n && np[j].1 == p;
                assert(0 <= t < t + 1 && ps[t] == np[j].1);
            }
        }
        if exists|j: int|
            0 <= j < np.len() && #[trigger] np[j].0@ == n && mitigated(np, periods, slice, np[j].1)
                && exists|s: int| 0 <= s < t + 1 && ps[s] == np[j].1 {
            let j = choose|j: int|
                0 <= j < np.len() && #[trigger] np[j].0@ == n && mitigated(
                    np,
                    periods,
                    slice,
                    np[j].1,
                ) && exists|s: int| 0 <= s < t + 1 && ps[s] == np[j].1;
            let s = choose|s: int| 0 <= s < t + 1 && ps[s] == np[j].1;
            if s == t {
                assert(names_at(np, p).contains(n));
                let k = choose|k: int| 0 <= k < names_at(np, p).len() && names_at(np, p)[k] == n;
                assert(after[before.len() + k] == n);
            } else {
                assert(before.contains(n));
                let k = choose|k: int| 0 <= k < before.len() && before[k] == n;
                assert(after[k] == n);
            }
        }
    }
}

/// Insert `x` into the strictly ascending `v` unless present.
fn insert_priority(v: &mut Vec<i64>, x: i64)
    requires
        forall|i: int, j: int| 0 <= i < j < old(v)@.len() ==> old(v)@[i] < old(v)@[j],
    ensures
        forall|i: int, j: int| 0 <= i < j < final(v)@.len() ==> final(v)@[i] < final(v)@[j],
        forall|y: i64| #[trigger] final(v)@.contains(y) <==> (old(v)@.contains(y) || y == x),
{
    let mut p: usize = 0;
    while p < v.len() && v[p] < x
        invariant
            p <= v@.len(),
            v@ == old(v)@,
            forall|i: int| 0 <= i < p ==> v@[i] < x,
        decreases v@.len() - p,
    {
        p += 1;
    }
    if p < v.len() && v[p] == x {
        assert(v@[p as int] == x);
        return;
    }
    let ghost before = v@;
    v.insert(p, x);
    proof {
        assert forall|i: int, j: int| 0 <= i < j < v@.len() implies v@[i] < v@[j] by {
            if j < p {
                assert(v@[i] == before[i] && v@[j] == before[j]);
            } else if j == p {
                assert(v@[i] == before[i]);
            } else if i < p {
                assert(v@[i] == before[i] && v@[j] == before[j - 1]);
            } else if i == p {
                assert(v@[j] == before[j - 1]);
                assert(before[p as int] > x);
                if j - 1 > p {
                    assert(before[p as int] < before[j - 1]);
                }
            } else {
                assert(v@[i] == before[i - 1] && v@[j] == before[j - 1]);
            }
        }
        assert(before == old(v)@);
        assert forall|y: i64| #[trigger] v@.contains(y) <==> (before.contains(y) || y == x) by {
            if v@.contains(y) {
                let k = choose|k: int| 0 <= k < v@.len() && v@[k] == y;
                if k < p {
                    assert(before[k] == y);
                } else if k > p {
                    assert(before[k - 1] == y);
                }
            }
            if before.contains(y) {
                let k = choose|k: int| 0 <= k < before.len() && before[k] == y;
                if k < p {
                    assert(v@[k] == y);
                } else {
                    assert(v@[k + 1] == y);
                }
            }
            if y == x {
                assert(v@[p as int] == x);
            }
        }
    }
}

/// The names at priority `p`, in table order.
fn names_with(np: &Vec<(String, i64)>, p: i64) -> (r: Vec<String>)
    ensures
        string_views(r@) == names_at(np@, p),
{
    let mut out: Vec<String> = Vec::new();
    let mut i: usize = 0;
    assert(np@.take(0) =~= Seq::<(String, i64)>::empty());
    assert(string_views(out@) =~= Seq::<Seq<char>>::empty());
    while i < np.len()
        invariant
            i <= np@.len(),
            string_views(out@) == names_at(np@.take(i as int), p),
        decreases np@.len() - i,
    {
        assert(np@.take(i + 1).drop_last() =~= np@.take(i as int));
        if np[i].1 == p {
            let ghost before = out@;
            out.push(np[i].0.clone());
            assert(string_views(out@) =~= string_views(before).push(np@[i as int].0@));
        }
        i += 1;
    }
    assert(np@.take(np@.len() as int) =~= np@);
    out
}

fn shortest_period(periods: &Vec<(String, Option<u64>)>, names: &Vec<String>) -> (r: Option<u64>)
    ensures
        r == shortest_of(periods@, string_views(names@)),
{
    let mut best: Option<u64> = None;
    let mut i: usize = 0;
    assert(string_views(names@).take(0) =~= Seq::<Seq<char>>::empty());
    while i < names.len()
        invariant
            i <= names@.len(),
            best == shortest_of(periods@, string_views(names@).take(i as int)),
        decreases names@.len() - i,
    {
        let ghost t = string_views(names@).take(i + 1);
        assert(t.drop_last() =~= string_views(names@).take(i as int));
        assert(t.last() == names@[i as int]@);
        match period_lookup(periods, names[i].as_str()) {
            None => {},
            Some(x) => {
                best = match best {
                    None => Some(x),
                    Some(y) => Some(
                        if x < y {
                            x
                        } else {
                            y
                        },
                    ),
                };
            },
        }
        i += 1;
    }
    assert(string_views(names@).take(names@.len() as int) =~= string_views(names@));
    best
}

/// Decide which tied nodes get `SCHED_RR` instead of `SCHED_FIFO`.
///
/// A tie is two or more nodes at one priority. `SCHED_RR` rotates between
/// them only if the host's global slice is shorter than the shortest period
/// among them; otherwise they stay `SCHED_FIFO` and the tie is reported,
/// naming both numbers. An absent slice is unknown, never the default.
/// The nodes come keyed by name, in ascending order, as a sorted map holds
/// them; a warning names its nodes in that order.
pub fn rr_policy_for_ties(
    node_priority: &Vec<(String, i64)>,
    periods: &Vec<(String, Option<u64>)>,
    rr_slice_us: Option<u64>,
) -> (r: (Vec<String>, Vec<TieWarning>))
    requires
        names_ascending(node_priority@),
    ensures
        forall|n: Seq<char>|
            #![trigger string_views(r.0@).contains(n)]
            string_views(r.0@).contains(n) <==> exists|i: int|
                0 <= i < node_priority@.len() && #[trigger] node_priority@[i].0@ == n && mitigated(
                    node_priority@,
                    periods@,
                    rr_slice_us,
                    node_priority@[i].1,
                ),
        forall|a: int, b: int|
            0 <= a < b < r.1@.len() ==> (#[trigger] r.1@[a]).priority < (#[trigger] r.1@[b]).priority,
        forall|k: int|
            0 <= k < r.1@.len() ==> {
                let w = #[trigger] r.1@[k];
                &&& unmitigated(node_priority@, periods@, rr_slice_us, w.priority)
                &&& string_views(w.nodes@) == names_at(node_priority@, w.priority)
                &&& w.rr_timeslice_us == rr_slice_us
                &&& w.shortest_period_us == shortest_of(
                    periods@,
                    names_at(node_priority@, w.priority),
                )
            },
        forall|i: int|
            0 <= i < node_priority@.len() && unmitigated(
                node_priority@,
                periods@,
                rr_slice_us,
                #[trigger] node_priority@[i].1,
            ) ==> exists|k: int| 0 <= k < r.1@.len() && r.1@[k].priority == node_priority@[i].1,
{
    let np = node_priority;
    // The distinct priorities, ascending.
    let mut ps: Vec<i64> = Vec::new();
    let mut i: usize = 0;
    while i < np.len()
        invariant
            i <= np@.len(),
            forall|a: int, b: int| 0 <= a < b < ps@.len() ==> ps@[a] < ps@[b],
            forall|y: i64| ps@.contains(y) <==> exists|j: int| 0 <= j < i && np@[j].1 == y,
        decreases np@.len() - i,
    {
        let ghost before = ps@;
        insert_priority(&mut ps, np[i].1);
        proof {
            assert forall|y: i64| ps@.contains(y) <==> exists|j: int| 0 <= j < i + 1 && np@[j].1 == y by {
                if ps@.contains(y) && y != np@[i as int].1 {
                    assert(before.contains(y));
                }
            }
        }
        i += 1;
    }
    let mut rr: Vec<String> = Vec::new();
    let mut warnings: Vec<TieWarning> = Vec::new();
    let mut t: usize = 0;
    while t < ps.len()
        invariant
            t <= ps@.len(),
            forall|a: int, b: int| 0 <= a < b < ps@.len() ==> ps@[a] < ps@[b],
            forall|y: i64| ps@.contains(y) <==> exists|j: int| 0 <= j < np@.len() && np@[j].1 == y,
            rr_covers(string_views(rr@), np@, periods@, rr_slice_us, ps@, t as int),
            forall|a: int, b: int|
                0 <= a < b < warnings@.len() ==> (#[trigger] warnings@[a]).priority < (
                #[trigger] warnings@[b]).priority,
            forall|k: int|
                0 <= k < warnings@.len() ==> exists|s: int|
                    0 <= s < t && ps@[s] == (#[trigger] warnings@[k]).priority,
            forall|k: int|
                0 <= k < warnings@.len() ==> {
                    let w = #[trigger] warnings@[k];
                    &&& unmitigated(np@, periods@, rr_slice_us, w.priority)
                    &&& string_views(w.nodes@) == names_at(np@, w.priority)
                    &&& w.rr_timeslice_us == rr_slice_us
                    &&& w.shortest_period_us == shortest_of(periods@, names_at(np@, w.priority))
                },
            forall|s: int|
                0 <= s < t && unmitigated(np@, periods@, rr_slice_us, #[trigger] ps@[s])
                    ==> exists|k: int| 0 <= k < warnings@.len() && warnings@[k].priority == ps@[s],
        decreases ps@.len() - t,
    {
        let p = ps[t];
        let ghost rr_start = string_views(rr@);
        let names = names_with(np, p);
        if names.len() >= 2 {
            let shortest = shortest_period(periods, &names);
            let useful = match (rr_slice_us, shortest) {
                (Some(slice), Some(period)) => slice < period,
                _ => false,
            };
            if useful {
                let ghost before = rr@;
                let mut k: usize = 0;
                while k < names.len()
                    invariant
                        k <= names@.len(),
                        string_views(rr@) == string_views(before) + string_views(names@).take(
                            k as int,
                        ),
                    decreases names@.len() - k,
                {
                    let ghost prev = rr@;
                    rr.push(names[k].clone());
                    proof {
                        assert(rr@ == prev.push(names@[k as int]));
                        assert(string_views(rr@) =~= string_views(prev).push(names@[k as int]@));
                        assert(string_views(names@).take(k + 1) =~= string_views(names@).take(
                            k as int,
                        ).push(names@[k as int]@));
                    }
                    k += 1;
                    assert(string_views(rr@) =~= string_views(before) + string_views(names@).take(
                        k as int,
                    ));
                }
                proof {
                    assert(string_views(names@).take(names@.len() as int) =~= string_views(names@));
                }
            } else {
                let w = TieWarning {
                    priority: p,
                    nodes: names,
                    rr_timeslice_us: rr_slice_us,
                    shortest_period_us: shortest,
                };
                let ghost before = warnings@;
                warnings.push(w);
                proof {
                    assert forall|a: int, b: int|
                        0 <= a < b < warnings@.len() implies (#[trigger] warnings@[a]).priority < (
                        #[trigger] warnings@[b]).priority by {
                        if b == warnings@.len() - 1 {
                            let s = choose|s: int| 0 <= s < t && ps@[s] == before[a].priority;
                            assert(warnings@[a] == before[a]);
                        } else {
                            assert(warnings@[a] == before[a] && warnings@[b] == before[b]);
                        }
                    }
                    assert forall|k: int| 0 <= k < warnings@.len() implies exists|s: int|
                        0 <= s < t + 1 && ps@[s] == (#[trigger] warnings@[k]).priority by {
                        if k < before.len() {
                            assert(warnings@[k] == before[k]);
                            let s = choose|s: int| 0 <= s < t && ps@[s] == before[k].priority;
                        } else {
                            assert(ps@[t as int] == warnings@[k].priority);
                        }
                    }
                    assert forall|s: int|
                        0 <= s < t + 1 && unmitigated(np@, periods@, rr_slice_us, #[trigger] ps@[s])
                            implies exists|k: int|
                        0 <= k < warnings@.len() && warnings@[k].priority == ps@[s] by {
                        if s < t {
                            let k = choose|k: int| 0 <= k < before.len() && before[k].priority == ps@[s];
                            assert(warnings@[k] == before[k]);
                        } else {
                            assert(warnings@[before.len() as int].priority == ps@[s]);
                        }
                    }
                }
            }
        }
        proof {
            if names@.len() < 2 {
                assert(!unmitigated(np@, periods@, rr_slice_us, p));
                assert(!mitigated(np@, periods@, rr_slice_us, p));
            }
            lemma_rr_step(rr_start, string_views(rr@), np@, periods@, rr_slice_us, ps@, t as int);
        }
        t += 1;
    }
    proof {
        assert forall|i: int|
            0 <= i < np@.len() && unmitigated(np@, periods@, rr_slice_us, #[trigger] np@[i].1)
                implies exists|k: int| 0 <= k < warnings@.len() && warnings@[k].priority == np@[i].1 by {
            assert(ps@.contains(np@[i].1));
            let s = choose|s: int| 0 <= s < ps@.len() && ps@[s] == np@[i].1;
        }
        assert forall|n: Seq<char>| #![trigger string_views(rr@).contains(n)]
            string_views(rr@).contains(n) <==> exists|i: int|
                0 <= i < np@.len() && #[trigger] np@[i].0@ == n && mitigated(
                    np@,
                    periods@,
                    rr_slice_us,
                    np@[i].1,
                ) by {
            if exists|i: int|
                0 <= i < np@.len() && #[trigger] np@[i].0@ == n && mitigated(
                    np@,
                    periods@,
                    rr_slice_us,
                    np@[i].1,
                ) {
                let i = choose|i: int|
                    0 <= i < np@.len() && #[trigger] np@[i].0@ == n && mitigated(
                        np@,
                        periods@,
                        rr_slice_us,
                        np@[i].1,
                    );
                assert(ps@.contains(np@[i].1));
            }
        }
    }
    (rr, warnings)
}

} // verus!

verus! {

// ── The `posix` realizer ──

/// Per-item diagnostics: the item, the priority it got, and why.
#[derive(Debug, Clone, PartialEq, Eq)]
pub struct ChainAwareDetail {
    pub node: String,
    pub path: Option<String>,
    pub priority: i64,
    pub provenance: String,
}

/// What the `posix` realizer decides: the tier table, per-item details,
/// each ranked node's priority (by name), and the band-overflow and tie facts
/// the caller reports.
#[derive(Debug, Clone)]
pub struct PosixRealization {
    pub table: crate::resolve::ResolvedTierTable,
    pub details: Vec<ChainAwareDetail>,
    pub node_priority: Vec<(String, i64)>,
    pub overflow: Option<crate::chain_rank::BandOverflow>,
    pub ties: Vec<TieWarning>,
}

/// The highest priority any of the first `m` items of node `n` got.
pub open spec fn node_max(items: Seq<crate::chain_rank::RankItem>, p: Seq<i64>, n: Seq<char>, m: int) -> Option<
    i64,
>
    decreases m,
{
    if m <= 0 {
        None
    } else {
        let r = node_max(items, p, n, m - 1);
        if items[m - 1].node@ == n {
            match r {
                None => Some(p[m - 1]),
                Some(x) => Some(
                    if p[m - 1] > x {
                        p[m - 1]
                    } else {
                        x
                    },
                ),
            }
        } else {
            r
        }
    }
}

/// Names strictly ascending.
pub open spec fn names_ascending<T>(v: Seq<(String, T)>) -> bool {
    forall|i: int, j: int| 0 <= i < j < v.len() ==> crate::order::seq_lt(#[trigger] v[i].0@, #[trigger] v[j].0@)
}

/// Record `prio` for `name`, keeping the higher priority and the name order.
fn upsert_max(np: &mut Vec<(String, i64)>, name: &String, prio: i64)
    requires
        names_ascending(old(np)@),
    ensures
        names_ascending(final(np)@),
        forall|n: Seq<char>|
            #[trigger] crate::assoc::has_key(final(np)@, n) <==> (crate::assoc::has_key(old(np)@, n)
                || n == name@),
        forall|k: int|
            0 <= k < final(np)@.len() ==> if (#[trigger] final(np)@[k]).0@ == name@ {
                (exists|j: int|
                    0 <= j < old(np)@.len() && old(np)@[j].0@ == name@ && final(np)@[k].1 == (
                    if prio > old(np)@[j].1 {
                        prio
                    } else {
                        old(np)@[j].1
                    })) || (!crate::assoc::has_key(old(np)@, name@) && final(np)@[k].1 == prio)
            } else {
                exists|j: int| 0 <= j < old(np)@.len() && old(np)@[j] == final(np)@[k]
            },
{
    let ghost before = np@;
    let mut p: usize = 0;
    while p < np.len() && crate::order::str_lt(np[p].0.as_str(), name.as_str())
        invariant
            p <= np@.len(),
            np@ == before,
            forall|i: int| 0 <= i < p ==> crate::order::seq_lt(#[trigger] np@[i].0@, name@),
        decreases np@.len() - p,
    {
        p += 1;
    }
    proof {
        if p < before.len() {
            crate::order::lemma_lt_total(before[p as int].0@, name@);
        }
    }
    if p < np.len() && str_eq(np[p].0.as_str(), name.as_str()) {
        let old_prio = np[p].1;
        if prio > old_prio {
            let key = np[p].0.clone();
            np.set(p, (key, prio));
        }
        proof {
            assert forall|i: int, j: int|
                0 <= i < j < np@.len() implies crate::order::seq_lt(#[trigger] np@[i].0@, #[trigger] np@[j].0@) by {
                assert(np@[i].0@ == before[i].0@ && np@[j].0@ == before[j].0@);
            }
            assert forall|n: Seq<char>| #[trigger] crate::assoc::has_key(np@, n) <==> (
            crate::assoc::has_key(before, n) || n == name@) by {
                if crate::assoc::has_key(np@, n) {
                    let i = choose|i: int| 0 <= i < np@.len() && #[trigger] np@[i].0@ == n;
                    assert(before[i].0@ == n);
                }
                if crate::assoc::has_key(before, n) {
                    let i = choose|i: int| 0 <= i < before.len() && #[trigger] before[i].0@ == n;
                    assert(np@[i].0@ == n);
                }
                if n == name@ {
                    assert(np@[p as int].0@ == n);
                }
            }
            assert forall|k: int| 0 <= k < np@.len() implies if (#[trigger] np@[k]).0@ == name@ {
                (exists|j: int|
                    0 <= j < before.len() && before[j].0@ == name@ && np@[k].1 == (if prio
                        > before[j].1 {
                        prio
                    } else {
                        before[j].1
                    })) || (!crate::assoc::has_key(before, name@) && np@[k].1 == prio)
            } else {
                exists|j: int| 0 <= j < before.len() && before[j] == np@[k]
            } by {
                if np@[k].0@ == name@ {
                    if k != p {
                        if k < p {
                            crate::order::lemma_lt_irreflexive(name@);
                        } else {
                            crate::order::lemma_lt_asymmetric(before[p as int].0@, before[k].0@);
                            crate::order::lemma_lt_irreflexive(name@);
                        }
                    }
                    assert(before[p as int].0@ == name@);
                } else {
                    if k == p {
                    } else {
                        assert(np@[k] == before[k]);
                    }
                }
            }
        }
    } else {
        np.insert(p, (name.clone(), prio));
        proof {
            assert forall|i: int| 0 <= i < before.len() implies before[i].0@ != name@ by {
                if before[i].0@ == name@ {
                    if i < p {
                        crate::order::lemma_lt_irreflexive(name@);
                    } else if i > p {
                        assert(crate::order::seq_lt(before[p as int].0@, before[i].0@));
                        if crate::order::seq_lt(name@, before[p as int].0@) {
                            crate::order::lemma_lt_transitive(name@, before[p as int].0@, name@);
                        }
                        crate::order::lemma_lt_irreflexive(name@);
                    }
                }
            }
            assert(!crate::assoc::has_key(before, name@));
            assert forall|i: int, j: int|
                0 <= i < j < np@.len() implies crate::order::seq_lt(#[trigger] np@[i].0@, #[trigger] np@[j].0@) by {
                if j < p {
                    assert(np@[i] == before[i] && np@[j] == before[j]);
                } else if j == p {
                    assert(np@[i] == before[i]);
                } else if i < p {
                    assert(np@[i] == before[i] && np@[j] == before[j - 1]);
                } else if i == p {
                    assert(np@[j] == before[j - 1]);
                    assert(crate::order::seq_lt(name@, before[p as int].0@));
                    if j - 1 > p {
                        crate::order::lemma_lt_transitive(name@, before[p as int].0@, before[j - 1].0@);
                    }
                } else {
                    assert(np@[i] == before[i - 1] && np@[j] == before[j - 1]);
                }
            }
            assert forall|n: Seq<char>| #[trigger] crate::assoc::has_key(np@, n) <==> (
            crate::assoc::has_key(before, n) || n == name@) by {
                if crate::assoc::has_key(np@, n) {
                    let i = choose|i: int| 0 <= i < np@.len() && #[trigger] np@[i].0@ == n;
                    if i < p {
                        assert(before[i].0@ == n);
                    } else if i > p {
                        assert(before[i - 1].0@ == n);
                    }
                }
                if crate::assoc::has_key(before, n) {
                    let i = choose|i: int| 0 <= i < before.len() && #[trigger] before[i].0@ == n;
                    if i < p {
                        assert(np@[i].0@ == n);
                    } else {
                        assert(np@[i + 1].0@ == n);
                    }
                }
                if n == name@ {
                    assert(np@[p as int].0@ == n);
                }
            }
            assert forall|k: int| 0 <= k < np@.len() implies if (#[trigger] np@[k]).0@ == name@ {
                (exists|j: int|
                    0 <= j < before.len() && before[j].0@ == name@ && np@[k].1 == (if prio
                        > before[j].1 {
                        prio
                    } else {
                        before[j].1
                    })) || (!crate::assoc::has_key(before, name@) && np@[k].1 == prio)
            } else {
                exists|j: int| 0 <= j < before.len() && before[j] == np@[k]
            } by {
                if k < p {
                    assert(np@[k] == before[k]);
                } else if k > p {
                    assert(np@[k] == before[k - 1]);
                }
            }
        }
    }
}

} // verus!

verus! {

/// Every node's highest priority over its items, by name.
fn project_nodes(items: &[crate::chain_rank::RankItem], p: &Vec<i64>) -> (np: Vec<(String, i64)>)
    requires
        p@.len() == items@.len(),
    ensures
        names_ascending(np@),
        forall|n: Seq<char>|
            #[trigger] crate::assoc::has_key(np@, n) <==> exists|j: int|
                0 <= j < items@.len() && items@[j].node@ == n,
        forall|k: int|
            0 <= k < np@.len() ==> Some((#[trigger] np@[k]).1) == node_max(
                items@,
                p@,
                np@[k].0@,
                items@.len() as int,
            ),
{
    let mut np: Vec<(String, i64)> = Vec::new();
    let mut i: usize = 0;
    while i < items.len()
        invariant
            i <= items@.len(),
            p@.len() == items@.len(),
            names_ascending(np@),
            forall|n: Seq<char>|
                #[trigger] crate::assoc::has_key(np@, n) <==> exists|j: int|
                    0 <= j < i && items@[j].node@ == n,
            forall|k: int|
                0 <= k < np@.len() ==> Some((#[trigger] np@[k]).1) == node_max(
                    items@,
                    p@,
                    np@[k].0@,
                    i as int,
                ),
        decreases items@.len() - i,
    {
        let ghost before = np@;
        upsert_max(&mut np, &items[i].node, p[i]);
        proof {
            let name = items@[i as int].node@;
            assert forall|n: Seq<char>| #[trigger] crate::assoc::has_key(np@, n) <==> exists|j: int|
                0 <= j < i + 1 && items@[j].node@ == n by {
                if exists|j: int| 0 <= j < i + 1 && items@[j].node@ == n {
                    let j = choose|j: int| 0 <= j < i + 1 && items@[j].node@ == n;
                    if j < i {
                        assert(crate::assoc::has_key(before, n));
                    }
                }
            }
            assert forall|k: int| 0 <= k < np@.len() implies Some((#[trigger] np@[k]).1) == node_max(
                items@,
                p@,
                np@[k].0@,
                i + 1,
            ) by {
                if np@[k].0@ == name {
                    if exists|j: int|
                        0 <= j < before.len() && before[j].0@ == name && np@[k].1 == (if p@[i as int]
                            > before[j].1 {
                            p@[i as int]
                        } else {
                            before[j].1
                        }) {
                        let j = choose|j: int|
                            0 <= j < before.len() && before[j].0@ == name && np@[k].1 == (if p@[i as int]
                                > before[j].1 {
                                p@[i as int]
                            } else {
                                before[j].1
                            });
                        assert(Some(before[j].1) == node_max(items@, p@, name, i as int));
                    } else {
                        assert(!crate::assoc::has_key(before, name));
                        assert(node_max(items@, p@, name, i as int) is None) by {
                            lemma_node_max_absent(items@, p@, name, i as int);
                        }
                    }
                } else {
                    let j = choose|j: int| 0 <= j < before.len() && before[j] == np@[k];
                    assert(Some(before[j].1) == node_max(items@, p@, before[j].0@, i as int));
                }
            }
        }
        i += 1;
    }
    np
}

proof fn lemma_node_max_absent(items: Seq<crate::chain_rank::RankItem>, p: Seq<i64>, n: Seq<char>, m: int)
    requires
        0 <= m <= items.len(),
        forall|j: int| 0 <= j < m ==> items[j].node@ != n,
    ensures
        node_max(items, p, n, m) is None,
    decreases m,
{
    if m > 0 {
        lemma_node_max_absent(items, p, n, m - 1);
    }
}

/// The provenance of a detail: the item's, with the priority it got.
pub open spec fn detail_provenance(item: crate::chain_rank::RankItem, prio: i64) -> Seq<char> {
    item.provenance@ + " -> prio "@ + int_text(prio as int)
}

/// One detail per item, in ranked order.
fn make_details(items: &[crate::chain_rank::RankItem], p: &Vec<i64>) -> (d: Vec<ChainAwareDetail>)
    requires
        p@.len() == items@.len(),
    ensures
        d@.len() == items@.len(),
        forall|i: int|
            0 <= i < d@.len() ==> {
                &&& (#[trigger] d@[i]).node == items@[i].node
                &&& d@[i].path == Some(items@[i].path)
                &&& d@[i].priority == p@[i]
                &&& d@[i].provenance@ == detail_provenance(items@[i], p@[i])
            },
{
    let mut d: Vec<ChainAwareDetail> = Vec::new();
    let mut i: usize = 0;
    while i < items.len()
        invariant
            i <= items@.len(),
            p@.len() == items@.len(),
            d@.len() == i,
            forall|j: int|
                0 <= j < i ==> {
                    &&& (#[trigger] d@[j]).node == items@[j].node
                    &&& d@[j].path == Some(items@[j].path)
                    &&& d@[j].priority == p@[j]
                    &&& d@[j].provenance@ == detail_provenance(items@[j], p@[j])
                },
        decreases items@.len() - i,
    {
        let mut prov = items[i].provenance.clone();
        push_str(&mut prov, " -> prio ");
        push_int(&mut prov, p[i]);
        d.push(
            ChainAwareDetail {
                node: items[i].node.clone(),
                path: Some(items[i].path.clone()),
                priority: p[i],
                provenance: prov,
            },
        );
        i += 1;
    }
    d
}

} // verus!

verus! {

// ── Assembling the `posix` plan ──

/// The band the `posix` realizer works in: present and usable.
pub open spec fn usable_band(facts: PlatformResources) -> Option<PriorityBand> {
    match facts {
        PlatformResources::Posix(p) => match p.rt_priority_band {
            Some(b) => if band_reason(b) is None {
                Some(b)
            } else {
                None
            },
            None => None,
        },
        PlatformResources::Raw(_) => None,
    }
}

/// The host's round-robin slice, when the platform states one.
pub open spec fn host_rr_slice(facts: PlatformResources) -> Option<u64> {
    match facts {
        PlatformResources::Posix(p) => p.rr_timeslice_us,
        PlatformResources::Raw(_) => None,
    }
}

/// The priorities the details carry, in order.
pub open spec fn detail_priorities(d: Seq<ChainAwareDetail>) -> Seq<i64> {
    Seq::new(d.len(), |i: int| d[i].priority)
}

/// The scheduling policy of a ranked node's tier.
pub open spec fn ranked_sched(prio: i64, rr: bool) -> crate::posix::PosixSched {
    if rr {
        crate::posix::PosixSched::Rr { priority: prio as i32 }
    } else {
        crate::posix::PosixSched::Fifo { priority: prio as i32 }
    }
}

/// `t` is the one-member tier of ranked node `name` at `prio`, under
/// `SCHED_RR` when `rr` and `SCHED_FIFO` otherwise.
pub open spec fn ranked_tier(t: crate::resolve::ResolvedTier, name: Seq<char>, prio: i64, rr: bool) -> bool {
    let sched = ranked_sched(prio, rr);
    &&& t.name@ == name
    &&& t.priority == prio
    &&& t.sched_class is Some
    &&& t.sched_class->0@ == crate::posix::policy_name(crate::posix::sched_kind(sched))
    &&& t.posix == Some(
        crate::posix::PosixPlacement {
            sched,
            affinity: crate::posix::PosixAffinity::Inherit,
            uclamp: None,
        },
    )
    &&& t.class is Some
    &&& t.class->0@ == "real_time"@
    &&& t.members@.len() == 1
    &&& t.members@[0]@ == name
    &&& t.stack_bytes is None
    &&& t.core is None
    &&& t.preempt_threshold is None
    &&& t.period_us is None
    &&& t.budget_us is None
    &&& t.deadline_us is None
    &&& t.deadline_policy is None
    &&& t.spin_period_us is None
}

/// The first `n` of `names` that no entry of `np` ranks, in order.
pub open spec fn unranked(names: Seq<String>, np: Seq<(String, i64)>, n: int) -> Seq<String>
    decreases n,
{
    if n <= 0 {
        Seq::empty()
    } else {
        let r = unranked(names, np, n - 1);
        if has_key(np, names[n - 1]@) {
            r
        } else {
            r.push(names[n - 1])
        }
    }
}

/// What the tie warnings say: one per unmitigated tie, ascending by
/// priority, naming the tied nodes, the slice and the shortest period.
pub open spec fn ties_reported(
    np: Seq<(String, i64)>,
    periods: Seq<(String, Option<u64>)>,
    slice: Option<u64>,
    ties: Seq<TieWarning>,
) -> bool {
    &&& forall|a: int, b: int|
        0 <= a < b < ties.len() ==> (#[trigger] ties[a]).priority < (#[trigger] ties[b]).priority
    &&& forall|k: int|
        0 <= k < ties.len() ==> {
            let w = #[trigger] ties[k];
            &&& unmitigated(np, periods, slice, w.priority)
            &&& string_views(w.nodes@) == names_at(np, w.priority)
            &&& w.rr_timeslice_us == slice
            &&& w.shortest_period_us == shortest_of(periods, names_at(np, w.priority))
        }
    &&& forall|i: int|
        0 <= i < np.len() && unmitigated(np, periods, slice, #[trigger] np[i].1) ==> exists|k: int|
            0 <= k < ties.len() && ties[k].priority == np[i].1
}

/// Every tier of a `posix` plan: a ranked node's own tier, or the default
/// tier holding the unranked nodes, sorted.
pub open spec fn realized_tier(
    t: crate::resolve::ResolvedTier,
    np: Seq<(String, i64)>,
    periods: Seq<(String, Option<u64>)>,
    slice: Option<u64>,
    names: Seq<String>,
) -> bool {
    ||| exists|k: int|
        0 <= k < np.len() && ranked_tier(t, (#[trigger] np[k]).0@, np[k].1, mitigated(np, periods, slice, np[k].1))
    ||| {
        &&& crate::resolve::is_bare_default(t)
        &&& crate::order::names_sorted(t.members@)
        &&& t.members@.to_multiset() == unranked(names, np, names.len() as int).to_multiset()
    }
}

/// What the `posix` realizer returns for `items` in `band`.
pub open spec fn posix_realized(
    items: Seq<crate::chain_rank::RankItem>,
    names: Seq<String>,
    band: PriorityBand,
    slice: Option<u64>,
    periods: Seq<(String, Option<u64>)>,
    r: PosixRealization,
) -> bool {
    let p = detail_priorities(r.details@);
    let np = r.node_priority@;
    let tiers = r.table.tiers@;
    let rest = unranked(names, np, names.len() as int);
    &&& r.details@.len() == items.len()
    &&& forall|i: int|
        0 <= i < items.len() ==> {
            &&& (#[trigger] r.details@[i]).node == items[i].node
            &&& r.details@[i].path == Some(items[i].path)
            &&& r.details@[i].provenance@ == detail_provenance(items[i], r.details@[i].priority)
        }
    &&& crate::chain_rank::compression_laws(items, band, p, r.overflow)
    &&& names_ascending(np)
    &&& forall|n: Seq<char>|
        #[trigger] has_key(np, n) <==> exists|j: int| 0 <= j < items.len() && items[j].node@ == n
    &&& forall|k: int|
        0 <= k < np.len() ==> Some((#[trigger] np[k]).1) == node_max(items, p, np[k].0@, items.len() as int)
    &&& ties_reported(np, periods, slice, r.ties@)
    &&& crate::resolve::tiers_ordered(tiers)
    &&& forall|q: int| 0 <= q < tiers.len() ==> realized_tier(#[trigger] tiers[q], np, periods, slice, names)
    &&& forall|k: int|
        #![trigger np[k]]
        0 <= k < np.len() ==> exists|q: int|
            0 <= q < tiers.len() && ranked_tier(#[trigger] tiers[q], np[k].0@, np[k].1, mitigated(np, periods, slice, np[k].1))
    &&& (exists|q: int| 0 <= q < tiers.len() && crate::resolve::is_bare_default(#[trigger] tiers[q]))
        <==> rest.len() > 0
    &&& tiers.len() == np.len() + (if rest.len() > 0 {
        1int
    } else {
        0int
    })
}

proof fn lemma_node_max_member(items: Seq<crate::chain_rank::RankItem>, p: Seq<i64>, n: Seq<char>, m: int, x: i64)
    requires
        node_max(items, p, n, m) == Some(x),
    ensures
        exists|j: int| 0 <= j < m && #[trigger] p[j] == x,
    decreases m,
{
    if m > 0 {
        let r = node_max(items, p, n, m - 1);
        if items[m - 1].node@ == n {
            match r {
                None => {
                    assert(p[m - 1] == x);
                },
                Some(y) => {
                    if p[m - 1] > y {
                        assert(p[m - 1] == x);
                    } else {
                        lemma_node_max_member(items, p, n, m - 1, x);
                    }
                },
            }
        } else {
            lemma_node_max_member(items, p, n, m - 1, x);
        }
    }
}

/// Does `names` hold `name`?
fn listed(names: &Vec<String>, name: &str) -> (r: bool)
    ensures
        r == string_views(names@).contains(name@),
{
    let r = crate::assoc::names_contain(names.as_slice(), name);
    assert(names@.map_values(|s: String| s@) =~= string_views(names@));
    r
}

/// The tier of one ranked node.
fn ranked_tier_of(name: &String, prio: i64, rr: bool) -> (t: crate::resolve::ResolvedTier)
    requires
        i32::MIN <= prio <= i32::MAX,
    ensures
        ranked_tier(t, name@, prio, rr),
{
    let sched = if rr {
        crate::posix::PosixSched::Rr { priority: prio as i32 }
    } else {
        crate::posix::PosixSched::Fifo { priority: prio as i32 }
    };
    let kind = sched.kind();
    let members = vec![name.clone()];
    crate::resolve::ResolvedTier {
        name: name.clone(),
        priority: prio,
        stack_bytes: None,
        core: None,
        sched_class: Some(owned(kind.as_str())),
        preempt_threshold: None,
        class: Some(owned("real_time")),
        period_us: None,
        budget_us: None,
        deadline_us: None,
        deadline_policy: None,
        spin_period_us: None,
        posix: Some(
            crate::posix::PosixPlacement {
                sched,
                affinity: crate::posix::PosixAffinity::Inherit,
                uclamp: None,
            },
        ),
        members,
    }
}

} // verus!

verus! {

/// Why `facts` gives the mapper named `mapper` no band, as [`require_posix_band`] reports it.
pub open spec fn band_refusal(facts: PlatformResources, mapper: Seq<char>, e: MapError) -> bool {
    match facts {
        PlatformResources::Posix(p) => match p.rt_priority_band {
            None => e matches MapError::MissingPriorityBand { mapper: m } && m@ == mapper,
            Some(band) => match band_reason(band) {
                None => false,
                Some(why) => e matches MapError::InvalidPriorityBand { mapper: m, min, max, reason }
                    && m@ == mapper && min == band.min && max == band.max && reason@ == why,
            },
        },
        PlatformResources::Raw(_) => e matches MapError::MissingPriorityBand { mapper: m } && m@
            == mapper,
    }
}

proof fn lemma_ascending_distinct(np: Seq<(String, i64)>, i: int, k: int)
    requires
        names_ascending(np),
        0 <= i < np.len(),
        0 <= k < np.len(),
        i != k,
    ensures
        np[i].0@ != np[k].0@,
{
    if i < k {
        assert(crate::order::seq_lt(np[i].0@, np[k].0@));
    } else {
        assert(crate::order::seq_lt(np[k].0@, np[i].0@));
    }
    crate::order::lemma_lt_irreflexive(np[i].0@);
}

/// One tier per ranked node, in name order.
fn ranked_node_tiers(
    np: &Vec<(String, i64)>,
    rr: &Vec<String>,
    periods: &Vec<(String, Option<u64>)>,
    slice: Option<u64>,
    band: PriorityBand,
) -> (tiers: Vec<crate::resolve::ResolvedTier>)
    requires
        1 <= band.min <= band.max <= 99,
        names_ascending(np@),
        forall|j: int| 0 <= j < np@.len() ==> band.min <= #[trigger] np@[j].1 <= band.max,
        forall|n: Seq<char>|
            #![trigger string_views(rr@).contains(n)]
            string_views(rr@).contains(n) <==> exists|i: int|
                0 <= i < np@.len() && #[trigger] np@[i].0@ == n && mitigated(
                    np@,
                    periods@,
                    slice,
                    np@[i].1,
                ),
    ensures
        tiers@.len() == np@.len(),
        forall|j: int|
            0 <= j < np@.len() ==> ranked_tier(
                #[trigger] tiers@[j],
                np@[j].0@,
                np@[j].1,
                mitigated(np@, periods@, slice, np@[j].1),
            ),
{
    let mut tiers: Vec<crate::resolve::ResolvedTier> = Vec::new();
    let mut k: usize = 0;
    while k < np.len()
        invariant
            k <= np@.len(),
            tiers@.len() == k,
            1 <= band.min <= band.max <= 99,
            names_ascending(np@),
            forall|j: int| 0 <= j < np@.len() ==> band.min <= #[trigger] np@[j].1 <= band.max,
            forall|n: Seq<char>|
                #![trigger string_views(rr@).contains(n)]
                string_views(rr@).contains(n) <==> exists|i: int|
                    0 <= i < np@.len() && #[trigger] np@[i].0@ == n && mitigated(
                        np@,
                        periods@,
                        slice,
                        np@[i].1,
                    ),
            forall|j: int|
                0 <= j < k ==> ranked_tier(
                    #[trigger] tiers@[j],
                    np@[j].0@,
                    np@[j].1,
                    mitigated(np@, periods@, slice, np@[j].1),
                ),
        decreases np@.len() - k,
    {
        let is_rr = listed(rr, np[k].0.as_str());
        proof {
            let n = np@[k as int].0@;
            if is_rr {
                let i = choose|i: int|
                    0 <= i < np@.len() && #[trigger] np@[i].0@ == n && mitigated(
                        np@,
                        periods@,
                        slice,
                        np@[i].1,
                    );
                if i != k {
                    lemma_ascending_distinct(np@, i, k as int);
                }
            } else {
                assert(!(np@[k as int].0@ == n && mitigated(np@, periods@, slice, np@[k as int].1)));
            }
        }
        let t = ranked_tier_of(&np[k].0, np[k].1, is_rr);
        tiers.push(t);
        k += 1;
    }
    tiers
}

/// The nodes of `node_names` no entry of `np` ranks, in order.
fn unranked_names(node_names: &Vec<String>, np: &Vec<(String, i64)>) -> (rest: Vec<String>)
    ensures
        rest@ == unranked(node_names@, np@, node_names@.len() as int),
{
    let mut rest: Vec<String> = Vec::new();
    let mut i: usize = 0;
    while i < node_names.len()
        invariant
            i <= node_names@.len(),
            rest@ == unranked(node_names@, np@, i as int),
        decreases node_names@.len() - i,
    {
        if !crate::assoc::assoc_contains(np.as_slice(), node_names[i].as_str()) {
            rest.push(node_names[i].clone());
        }
        i += 1;
    }
    rest
}

proof fn lemma_posix_placed(
    np: Seq<(String, i64)>,
    periods: Seq<(String, Option<u64>)>,
    slice: Option<u64>,
    names: Seq<String>,
    unsorted: Seq<crate::resolve::ResolvedTier>,
    sorted: Seq<crate::resolve::ResolvedTier>,
    band: PriorityBand,
)
    requires
        1 <= band.min,
        forall|j: int| 0 <= j < np.len() ==> band.min <= #[trigger] np[j].1,
        unsorted.len() == np.len() + (if unranked(names, np, names.len() as int).len() > 0 {
            1int
        } else {
            0int
        }),
        forall|j: int|
            0 <= j < np.len() ==> ranked_tier(
                #[trigger] unsorted[j],
                np[j].0@,
                np[j].1,
                mitigated(np, periods, slice, np[j].1),
            ),
        unranked(names, np, names.len() as int).len() > 0 ==> {
            &&& crate::resolve::is_bare_default(unsorted[np.len() as int])
            &&& crate::order::names_sorted(unsorted[np.len() as int].members@)
            &&& unsorted[np.len() as int].members@.to_multiset() == unranked(
                names,
                np,
                names.len() as int,
            ).to_multiset()
        },
        sorted.to_multiset() == unsorted.to_multiset(),
    ensures
        sorted.len() == unsorted.len(),
        forall|q: int| 0 <= q < sorted.len() ==> realized_tier(#[trigger] sorted[q], np, periods, slice, names),
        forall|k: int|
            #![trigger np[k]]
            0 <= k < np.len() ==> exists|q: int|
                0 <= q < sorted.len() && ranked_tier(
                    #[trigger] sorted[q],
                    np[k].0@,
                    np[k].1,
                    mitigated(np, periods, slice, np[k].1),
                ),
        (exists|q: int| 0 <= q < sorted.len() && crate::resolve::is_bare_default(#[trigger] sorted[q]))
            <==> unranked(names, np, names.len() as int).len() > 0,
{
    let nranked = np.len() as int;
    sorted.to_multiset_ensures();
    unsorted.to_multiset_ensures();
    assert forall|q: int| 0 <= q < sorted.len() implies exists|j: int|
        0 <= j < unsorted.len() && unsorted[j] == #[trigger] sorted[q] by {
        assert(sorted.contains(sorted[q]));
        assert(sorted.to_multiset().count(sorted[q]) > 0);
        assert(unsorted.to_multiset().count(sorted[q]) > 0);
        assert(unsorted.contains(sorted[q]));
    }
    assert forall|q: int| 0 <= q < sorted.len() implies realized_tier(
        #[trigger] sorted[q],
        np,
        periods,
        slice,
        names,
    ) by {
        let j = choose|j: int| 0 <= j < unsorted.len() && unsorted[j] == sorted[q];
        if j < nranked {
            assert(ranked_tier(unsorted[j], np[j].0@, np[j].1, mitigated(np, periods, slice, np[j].1)));
        }
    }
    assert forall|k: int|
        #![trigger np[k]]
        0 <= k < np.len() implies exists|q: int|
        0 <= q < sorted.len() && ranked_tier(
            #[trigger] sorted[q],
            np[k].0@,
            np[k].1,
            mitigated(np, periods, slice, np[k].1),
        ) by {
        assert(ranked_tier(unsorted[k], np[k].0@, np[k].1, mitigated(np, periods, slice, np[k].1)));
        assert(unsorted.contains(unsorted[k]));
        assert(sorted.to_multiset().count(unsorted[k]) > 0);
        assert(sorted.contains(unsorted[k]));
        let q = choose|q: int| 0 <= q < sorted.len() && sorted[q] == unsorted[k];
        assert(ranked_tier(sorted[q], np[k].0@, np[k].1, mitigated(np, periods, slice, np[k].1)));
    }
    if unranked(names, np, names.len() as int).len() > 0 {
        assert(unsorted.contains(unsorted[nranked]));
        assert(sorted.to_multiset().count(unsorted[nranked]) > 0);
        assert(sorted.contains(unsorted[nranked]));
        let q = choose|q: int| 0 <= q < sorted.len() && sorted[q] == unsorted[nranked];
        assert(crate::resolve::is_bare_default(sorted[q]));
    }
    if exists|q: int| 0 <= q < sorted.len() && crate::resolve::is_bare_default(#[trigger] sorted[q]) {
        let q = choose|q: int| 0 <= q < sorted.len() && crate::resolve::is_bare_default(#[trigger] sorted[q]);
        let j = choose|j: int| 0 <= j < unsorted.len() && unsorted[j] == sorted[q];
        if j < nranked {
            assert(ranked_tier(unsorted[j], np[j].0@, np[j].1, mitigated(np, periods, slice, np[j].1)));
            assert(unsorted[j].priority == np[j].1);
        }
    }
}

/// The `posix` realizer: compress the ranking into the band, give each node
/// the highest priority of its items, choose `SCHED_RR` for the ties the
/// host's slice can rotate, and emit one tier per ranked node plus the
/// default tier for the rest, highest priority first.
#[verifier::spinoff_prover]
pub fn realize_posix(
    items: &[crate::chain_rank::RankItem],
    node_names: &Vec<String>,
    facts: &PlatformResources,
    periods: &Vec<(String, Option<u64>)>,
) -> (r: Result<PosixRealization, MapError>)
    requires
        items@.len() <= i64::MAX,
    ensures
        r is Err <==> usable_band(*facts) is None,
        r matches Err(e) ==> band_refusal(*facts, "chain_aware"@, e),
        r matches Ok(plan) ==> posix_realized(
            items@,
            node_names@,
            usable_band(*facts)->0,
            host_rr_slice(*facts),
            periods@,
            plan,
        ),
        r matches Ok(plan) ==> crate::chain_rank::compression_outcome(
            items@,
            usable_band(*facts)->0,
            detail_priorities(plan.details@),
            plan.overflow,
        ),
{
    let band = match require_posix_band(facts, "chain_aware") {
        Ok(b) => b,
        Err(e) => {
            return Err(e);
        },
    };
    assert(usable_band(*facts) == Some(band));
    let (p, overflow) = crate::chain_rank::assign_priorities_compressed(items, &band);
    let np = project_nodes(items, &p);
    let details = make_details(items, &p);
    let slice = match facts {
        PlatformResources::Posix(x) => x.rr_timeslice_us,
        PlatformResources::Raw(_) => None,
    };
    let (rr, ties) = rr_policy_for_ties(&np, periods, slice);
    proof {
        assert forall|k: int| 0 <= k < np@.len() implies band.min <= #[trigger] np@[k].1 <= band.max by {
            lemma_node_max_member(items@, p@, np@[k].0@, items@.len() as int, np@[k].1);
            let j = choose|j: int| 0 <= j < items@.len() && #[trigger] p@[j] == np@[k].1;
            assert(band.min <= p@[j]);
            assert(p@[j] <= band.max || p@[j] == band.min);
        }
    }
    let mut tiers = ranked_node_tiers(&np, &rr, periods, slice, band);
    let rest = unranked_names(node_names, &np);
    let ghost rest_seq = rest@;
    let ghost nranked = tiers@.len();
    if rest.len() > 0 {
        let members = crate::order::sort_names(rest);
        tiers.push(crate::resolve::ResolvedTier::default_tier(members));
    }
    let ghost unsorted = tiers@;
    proof {
        assert forall|a: int, b: int|
            0 <= a < unsorted.len() && 0 <= b < unsorted.len() && a != b implies !crate::resolve::same_key(
            #[trigger] unsorted[a],
            #[trigger] unsorted[b],
        ) by {
            if a < nranked && b < nranked {
                lemma_ascending_distinct(np@, a, b);
            }
        }
    }
    let sorted = crate::resolve::sort_tiers(tiers);
    proof {
        lemma_posix_placed(np@, periods@, slice, node_names@, unsorted, sorted@, band);
        assert(detail_priorities(details@) =~= p@);
    }
    Ok(
        PosixRealization {
            table: crate::resolve::ResolvedTierTable { tiers: sorted },
            details,
            node_priority: np,
            overflow,
            ties,
        },
    )
}

} // verus!

verus! {

/// Spreading ranks across a usable band: the first rank gets the top of
/// the band, the last rank its bottom, every rank lands inside it, and a
/// later rank never gets a higher priority than an earlier one.
pub proof fn lemma_spread_laws(i: int, j: int, n: int, band: PriorityBand)
    requires
        band.min <= band.max,
        0 <= i <= j < n,
    ensures
        spread(0, n, band) == band.max,
        n >= 2 ==> spread(n - 1, n, band) == band.min,
        band.min <= spread(i, n, band) <= band.max,
        spread(j, n, band) <= spread(i, n, band),
{
    if n >= 2 {
        let w = band.max - band.min;
        let d = n - 1;
        assert(w * 0 == 0);
        assert(round_div(0, d) == 0) by {
            assert((2 * 0 + d) / (2 * d) == 0) by (nonlinear_arith)
                requires
                    d > 0,
            ;
        }
        assert(round_div(w * d, d) == w) by {
            assert(w * d >= 0) by (nonlinear_arith)
                requires
                    w >= 0,
                    d > 0,
            ;
            assert((2 * (w * d) + d) / (2 * d) == w) by (nonlinear_arith)
                requires
                    w >= 0,
                    d > 0,
            ;
        }
        assert(0 <= w * i <= w * j <= w * d) by (nonlinear_arith)
            requires
                w >= 0,
                0 <= i <= j <= d,
        ;
        lemma_round_div_monotone(w * i, w * j, d);
        lemma_round_div_monotone(w * j, w * d, d);
        lemma_round_div_monotone(0, w * i, d);
    }
}

proof fn lemma_round_div_monotone(a: int, b: int, d: int)
    requires
        0 <= a <= b,
        d > 0,
    ensures
        round_div(a, d) <= round_div(b, d),
{
    assert((2 * a + d) / (2 * d) <= (2 * b + d) / (2 * d)) by (nonlinear_arith)
        requires
            0 <= a <= b,
            d > 0,
    ;
}

} // verus!
