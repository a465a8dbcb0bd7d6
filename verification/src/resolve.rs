//! Selector-based tier resolution.

use vstd::prelude::*;
use vstd::multiset::Multiset;
use crate::text::{to_chars, from_chars, push_char, push_str, owned, str_eq, chars_eq};
use crate::assoc::{has_key, first_key_at, keys_unique, maps_to};
use crate::order::{seq_lt, names_sorted};
use crate::sched_types::{AssignRule, TierDef, TierPlatformSpec, platform_of};
use crate::posix::{
    PosixError, posix_error_text, PosixPolicyKind, PosixSched, PosixAffinity, PosixPlacement,
    policy_of, sched_error,
};
use crate::text::trim;

verus! {

/// The synthesized tier for nodes matched by no assign rule.
pub const DEFAULT_TIER: &'static str = "default";

pub open spec fn default_tier_name() -> Seq<char> {
    "default"@
}

/// One node as seen by the resolver.
#[derive(Clone, Debug, PartialEq, Eq)]
pub struct SchedNode {
    /// Fully-qualified node name (e.g. `/perception/lidar/ndt_localizer`).
    pub name: String,
    /// The node's namespace (e.g. `/perception/lidar`).
    pub scope: String,
}

// ── Scopes and selectors ──

pub open spec fn strip_leading_slashes(s: Seq<char>) -> Seq<char>
    decreases s.len(),
{
    if s.len() > 0 && s[0] == '/' {
        strip_leading_slashes(s.drop_first())
    } else {
        s
    }
}

pub open spec fn strip_trailing_slashes(s: Seq<char>) -> Seq<char>
    decreases s.len(),
{
    if s.len() > 0 && s.last() == '/' {
        strip_trailing_slashes(s.drop_last())
    } else {
        s
    }
}

/// A namespace with exactly one leading slash and none trailing; `/` for the root.
pub open spec fn norm_scope_of(s: Seq<char>) -> Seq<char> {
    let t = strip_trailing_slashes(strip_leading_slashes(s));
    if t.len() == 0 {
        seq!['/']
    } else {
        seq!['/'] + t
    }
}

/// The characters after the last `/` (all of them when there is none).
pub open spec fn last_segment(s: Seq<char>) -> Seq<char>
    decreases s.len(),
{
    if s.len() == 0 {
        s
    } else if s.last() == '/' {
        Seq::empty()
    } else {
        last_segment(s.drop_last()).push(s.last())
    }
}

pub open spec fn is_prefix(p: Seq<char>, s: Seq<char>) -> bool {
    p.len() <= s.len() && s.take(p.len() as int) == p
}

/// A node selector names a node by its full name or by its last segment.
pub open spec fn name_hit(sel: Seq<char>, name: Seq<char>) -> bool {
    name == sel || last_segment(name) == sel
}

/// A scope selector covers a namespace equal to it or below it.
pub open spec fn scope_hit(sel: Seq<char>, scope: Seq<char>) -> bool {
    let s = norm_scope_of(sel);
    let n = norm_scope_of(scope);
    n == s || is_prefix(strip_trailing_slashes(s).push('/'), n)
}

fn norm_scope_chars(s: &str) -> (r: Vec<char>)
    ensures
        r@ == norm_scope_of(s@),
{
    let v = to_chars(s);
    let n = v.len();
    let mut lo: usize = 0;
    assert(v@.subrange(0, n as int) =~= v@);
    while lo < n && v[lo] == '/'
        invariant
            lo <= n,
            n == v@.len(),
            strip_leading_slashes(v@) == strip_leading_slashes(v@.subrange(lo as int, n as int)),
        decreases n - lo,
    {
        assert(v@.subrange(lo as int, n as int).drop_first() =~= v@.subrange(lo + 1, n as int));
        lo += 1;
    }
    let mut hi: usize = n;
    while hi > lo && v[hi - 1] == '/'
        invariant
            lo <= hi <= n,
            n == v@.len(),
            strip_trailing_slashes(v@.subrange(lo as int, n as int)) == strip_trailing_slashes(
                v@.subrange(lo as int, hi as int),
            ),
        decreases hi,
    {
        assert(v@.subrange(lo as int, hi as int).drop_last() =~= v@.subrange(lo as int, hi - 1));
        hi -= 1;
    }
    let mut out: Vec<char> = Vec::new();
    out.push('/');
    let mut i = lo;
    while i < hi
        invariant
            lo <= i <= hi <= n,
            n == v@.len(),
            out@ == seq!['/'] + v@.subrange(lo as int, i as int),
        decreases hi - i,
    {
        out.push(v[i]);
        i += 1;
        assert(out@ =~= seq!['/'] + v@.subrange(lo as int, i as int));
    }
    proof {
        let t = v@.subrange(lo as int, hi as int);
        if t.len() == 0 {
            assert(out@ =~= seq!['/']);
        }
    }
    out
}

/// Normalize a namespace: one leading slash, none trailing.
pub fn norm_scope(s: &str) -> (r: String)
    ensures
        r@ == norm_scope_of(s@),
{
    let v = norm_scope_chars(s);
    from_chars(v.as_slice())
}

fn last_segment_start(v: &[char]) -> (k: usize)
    ensures
        k <= v@.len(),
        last_segment(v@) == v@.subrange(k as int, v@.len() as int),
{
    let n = v.len();
    let mut k = n;
    assert(v@.subrange(n as int, n as int) =~= Seq::<char>::empty());
    assert(v@.subrange(0, n as int) =~= v@);
    assert(last_segment(v@) =~= last_segment(v@.subrange(0, n as int)) + v@.subrange(
        n as int,
        n as int,
    ));
    while k > 0 && v[k - 1] != '/'
        invariant
            k <= n,
            n == v@.len(),
            last_segment(v@) == last_segment(v@.subrange(0, k as int)) + v@.subrange(
                k as int,
                n as int,
            ),
        decreases k,
    {
        let ghost pre = v@.subrange(0, k as int);
        assert(pre.drop_last() =~= v@.subrange(0, k - 1));
        assert(v@.subrange(k - 1, n as int) =~= seq![v@[k - 1]] + v@.subrange(k as int, n as int));
        k -= 1;
    }
    proof {
        let pre = v@.subrange(0, k as int);
        if k == 0 {
            assert(pre =~= Seq::<char>::empty());
        }
        assert(last_segment(pre) =~= Seq::<char>::empty());
        assert(v@.subrange(0, n as int) =~= v@);
    }
    k
}

/// A node selector matches a node by full name or by its bare name.
pub fn node_selector_matches(selector: &str, node: &SchedNode) -> (r: bool)
    ensures
        r == name_hit(selector@, node.name@),
{
    let name = to_chars(node.name.as_str());
    let sel = to_chars(selector);
    if chars_eq(name.as_slice(), sel.as_slice()) {
        return true;
    }
    let k = last_segment_start(name.as_slice());
    let n = name.len();
    if n - k != sel.len() {
        assert(last_segment(name@).len() != sel@.len());
        return false;
    }
    let mut i: usize = 0;
    while i < sel.len()
        invariant
            k + sel@.len() == n,
            n == name@.len(),
            name@ != sel@,
            name@ == node.name@,
            sel@ == selector@,
            last_segment(name@) == name@.subrange(k as int, n as int),
            i <= sel@.len(),
            forall|j: int| 0 <= j < i ==> name@[k + j] == sel@[j],
        decreases sel@.len() - i,
    {
        if name[k + i] != sel[i] {
            assert(name@.subrange(k as int, n as int)[i as int] != sel@[i as int]);
            return false;
        }
        i += 1;
    }
    assert(name@.subrange(k as int, n as int) =~= sel@);
    true
}

fn starts_with_chars(s: &[char], p: &[char]) -> (r: bool)
    ensures
        r == is_prefix(p@, s@),
{
    if p.len() > s.len() {
        return false;
    }
    let mut i: usize = 0;
    while i < p.len()
        invariant
            p@.len() <= s@.len(),
            i <= p@.len(),
            forall|j: int| 0 <= j < i ==> s@[j] == p@[j],
        decreases p@.len() - i,
    {
        if s[i] != p[i] {
            assert(s@.take(p@.len() as int)[i as int] != p@[i as int]);
            return false;
        }
        i += 1;
    }
    assert(s@.take(p@.len() as int) =~= p@);
    true
}

/// A scope selector matches a node whose scope equals it or is a descendant.
pub fn scope_selector_matches(selector: &str, node: &SchedNode) -> (r: bool)
    ensures
        r == scope_hit(selector@, node.scope@),
{
    let sel = norm_scope_chars(selector);
    let ns = norm_scope_chars(node.scope.as_str());
    if chars_eq(ns.as_slice(), sel.as_slice()) {
        return true;
    }
    let mut hi = sel.len();
    assert(sel@.subrange(0, sel@.len() as int) =~= sel@);
    while hi > 0 && sel[hi - 1] == '/'
        invariant
            hi <= sel@.len(),
            strip_trailing_slashes(sel@) == strip_trailing_slashes(sel@.subrange(0, hi as int)),
        decreases hi,
    {
        assert(sel@.subrange(0, hi as int).drop_last() =~= sel@.subrange(0, hi - 1));
        hi -= 1;
    }
    proof {
        assert(sel@.subrange(0, sel@.len() as int) =~= sel@);
    }
    let mut prefix: Vec<char> = Vec::new();
    let mut i: usize = 0;
    while i < hi
        invariant
            hi <= sel@.len(),
            i <= hi,
            prefix@ == sel@.subrange(0, i as int),
        decreases hi - i,
    {
        prefix.push(sel[i]);
        i += 1;
        assert(prefix@ =~= sel@.subrange(0, i as int));
    }
    prefix.push('/');
    starts_with_chars(ns.as_slice(), prefix.as_slice())
}

// ── Errors ──

/// Errors from parsing or resolving the scheduling spec.
#[derive(Debug, Clone, PartialEq, Eq)]
pub enum SchedError {
    Parse(String),
    UnknownNodeSelector { selector: String },
    UnknownScopeSelector { selector: String },
    NodeMatchedByMultipleTiers { node: String, tier_a: String, tier_b: String },
    UnknownTier { tier: String },
    MissingPlatformSpec { tier: String, target: String },
    Posix { tier: String, source: PosixError },
}

/// What a [`SchedError`] says, as values.
pub enum SchedErrorView {
    Parse(Seq<char>),
    UnknownNodeSelector { selector: Seq<char> },
    UnknownScopeSelector { selector: Seq<char> },
    NodeMatchedByMultipleTiers { node: Seq<char>, tier_a: Seq<char>, tier_b: Seq<char> },
    UnknownTier { tier: Seq<char> },
    MissingPlatformSpec { tier: Seq<char>, target: Seq<char> },
    Posix { tier: Seq<char>, source: PosixError },
}

impl View for SchedError {
    type V = SchedErrorView;

    open spec fn view(&self) -> SchedErrorView {
        match self {
            SchedError::Parse(m) => SchedErrorView::Parse(m@),
            SchedError::UnknownNodeSelector { selector } => SchedErrorView::UnknownNodeSelector {
                selector: selector@,
            },
            SchedError::UnknownScopeSelector { selector } =>
                SchedErrorView::UnknownScopeSelector { selector: selector@ },
            SchedError::NodeMatchedByMultipleTiers { node, tier_a, tier_b } =>
                SchedErrorView::NodeMatchedByMultipleTiers {
                node: node@,
                tier_a: tier_a@,
                tier_b: tier_b@,
            },
            SchedError::UnknownTier { tier } => SchedErrorView::UnknownTier { tier: tier@ },
            SchedError::MissingPlatformSpec { tier, target } =>
                SchedErrorView::MissingPlatformSpec { tier: tier@, target: target@ },
            SchedError::Posix { tier, source } => SchedErrorView::Posix {
                tier: tier@,
                source: *source,
            },
        }
    }
}

/// The human-readable text of a [`SchedError`].
pub open spec fn sched_error_text(e: SchedError) -> Seq<char> {
    match e {
        SchedError::Parse(m) => "failed to parse system scheduling TOML: "@ + m@,
        SchedError::UnknownNodeSelector { selector } => "assign rule node selector `"@ + selector@
            + "` matches no node in the system"@,
        SchedError::UnknownScopeSelector { selector } => "assign rule scope selector `"@
            + selector@ + "` matches no node's scope in the system"@,
        SchedError::NodeMatchedByMultipleTiers { node, tier_a, tier_b } => "node `"@ + node@
            + "` is matched by two tiers (`"@ + tier_a@ + "` and `"@ + tier_b@
            + "`); a node must belong to exactly one tier"@,
        SchedError::UnknownTier { tier } => "assign rule references tier `"@ + tier@
            + "`, which has no [tiers."@ + tier@ + "] definition"@,
        SchedError::MissingPlatformSpec { tier, target } => "tier `"@ + tier@
            + "` has no [tiers."@ + tier@ + "."@ + target@
            + "] sub-table for the resolve target"@,
        SchedError::Posix { tier, source } => "tier `"@ + tier@ + "`: "@ + posix_error_text(
            source,
        ),
    }
}

impl SchedError {
    /// The message this error reads as.
    pub fn message(&self) -> (r: String)
        ensures
            r@ == sched_error_text(*self),
    {
        let mut s = String::new();
        match self {
            SchedError::Parse(m) => {
                push_str(&mut s, "failed to parse system scheduling TOML: ");
                push_str(&mut s, m.as_str());
            },
            SchedError::UnknownNodeSelector { selector } => {
                push_str(&mut s, "assign rule node selector `");
                push_str(&mut s, selector.as_str());
                push_str(&mut s, "` matches no node in the system");
            },
            SchedError::UnknownScopeSelector { selector } => {
                push_str(&mut s, "assign rule scope selector `");
                push_str(&mut s, selector.as_str());
                push_str(&mut s, "` matches no node's scope in the system");
            },
            SchedError::NodeMatchedByMultipleTiers { node, tier_a, tier_b } => {
                push_str(&mut s, "node `");
                push_str(&mut s, node.as_str());
                push_str(&mut s, "` is matched by two tiers (`");
                push_str(&mut s, tier_a.as_str());
                push_str(&mut s, "` and `");
                push_str(&mut s, tier_b.as_str());
                push_str(&mut s, "`); a node must belong to exactly one tier");
            },
            SchedError::UnknownTier { tier } => {
                push_str(&mut s, "assign rule references tier `");
                push_str(&mut s, tier.as_str());
                push_str(&mut s, "`, which has no [tiers.");
                push_str(&mut s, tier.as_str());
                push_str(&mut s, "] definition");
            },
            SchedError::MissingPlatformSpec { tier, target } => {
                push_str(&mut s, "tier `");
                push_str(&mut s, tier.as_str());
                push_str(&mut s, "` has no [tiers.");
                push_str(&mut s, tier.as_str());
                push_str(&mut s, ".");
                push_str(&mut s, target.as_str());
                push_str(&mut s, "] sub-table for the resolve target");
            },
            SchedError::Posix { tier, source } => {
                push_str(&mut s, "tier `");
                push_str(&mut s, tier.as_str());
                push_str(&mut s, "`: ");
                let m = source.message();
                push_str(&mut s, m.as_str());
            },
        }
        assert(s@ =~= sched_error_text(*self));
        s
    }
}

// ── Binding nodes to tiers ──

/// Node `k` is named by selector `si` of rule `ri`.
pub open spec fn ehit(a: Seq<AssignRule>, ns: Seq<SchedNode>, ri: int, si: int, k: int) -> bool {
    &&& 0 <= ri < a.len()
    &&& 0 <= si < a[ri].nodes@.len()
    &&& 0 <= k < ns.len()
    &&& name_hit(a[ri].nodes@[si]@, ns[k].name@)
}

/// Node `k` falls under the scope selector of rule `ri`.
pub open spec fn shit(a: Seq<AssignRule>, ns: Seq<SchedNode>, ri: int, k: int) -> bool {
    &&& 0 <= ri < a.len()
    &&& a[ri].scope is Some
    &&& 0 <= k < ns.len()
    &&& scope_hit(a[ri].scope->0@, ns[k].scope@)
}

/// Some explicit selector names a node called `name`.
pub open spec fn is_explicit(a: Seq<AssignRule>, ns: Seq<SchedNode>, name: Seq<char>) -> bool {
    exists|ri: int, si: int, k: int| #[trigger] ehit(a, ns, ri, si, k) && ns[k].name@ == name
}

/// Some scope selector covers a node called `name`.
pub open spec fn is_scoped(a: Seq<AssignRule>, ns: Seq<SchedNode>, name: Seq<char>) -> bool {
    exists|ri: int, k: int| #[trigger] shit(a, ns, ri, k) && ns[k].name@ == name
}

/// Selector `si` of rule `ri` names no node at all.
pub open spec fn dead_node_selector(
    a: Seq<AssignRule>,
    ns: Seq<SchedNode>,
    ri: int,
    si: int,
) -> bool {
    &&& 0 <= ri < a.len()
    &&& 0 <= si < a[ri].nodes@.len()
    &&& forall|k: int| 0 <= k < ns.len() ==> !name_hit(a[ri].nodes@[si]@, #[trigger] ns[k].name@)
}

/// The scope selector of rule `ri` covers no node at all.
pub open spec fn dead_scope_selector(a: Seq<AssignRule>, ns: Seq<SchedNode>, ri: int) -> bool {
    &&& 0 <= ri < a.len()
    &&& a[ri].scope is Some
    &&& forall|k: int| 0 <= k < ns.len() ==> !scope_hit(a[ri].scope->0@, #[trigger] ns[k].scope@)
}

/// Two explicit selectors name a node called `name` for two different tiers.
pub open spec fn explicit_clash(
    a: Seq<AssignRule>,
    ns: Seq<SchedNode>,
    name: Seq<char>,
    ta: Seq<char>,
    tb: Seq<char>,
) -> bool {
    &&& ta != tb
    &&& exists|ri: int, si: int, k: int|
        #[trigger] ehit(a, ns, ri, si, k) && ns[k].name@ == name && a[ri].tier@ == ta
    &&& exists|ri: int, si: int, k: int|
        #[trigger] ehit(a, ns, ri, si, k) && ns[k].name@ == name && a[ri].tier@ == tb
}

/// Two scope selectors cover a node called `name`, which no explicit selector
/// names, for two different tiers.
pub open spec fn scope_clash(
    a: Seq<AssignRule>,
    ns: Seq<SchedNode>,
    name: Seq<char>,
    ta: Seq<char>,
    tb: Seq<char>,
) -> bool {
    &&& ta != tb
    &&& !is_explicit(a, ns, name)
    &&& exists|ri: int, k: int| #[trigger] shit(a, ns, ri, k) && ns[k].name@ == name && a[ri].tier@ == ta
    &&& exists|ri: int, k: int| #[trigger] shit(a, ns, ri, k) && ns[k].name@ == name && a[ri].tier@ == tb
}

/// The binding rules cannot be applied: a selector matches nothing, or a
/// node would belong to two tiers.
pub open spec fn binding_defect(a: Seq<AssignRule>, ns: Seq<SchedNode>) -> bool {
    ||| exists|ri: int, si: int| dead_node_selector(a, ns, ri, si)
    ||| exists|ri: int| dead_scope_selector(a, ns, ri)
    ||| exists|name: Seq<char>, ta: Seq<char>, tb: Seq<char>| explicit_clash(a, ns, name, ta, tb)
    ||| exists|name: Seq<char>, ta: Seq<char>, tb: Seq<char>| scope_clash(a, ns, name, ta, tb)
}

/// The tier a node called `name` belongs to: that of the explicit selectors
/// naming it, else that of the scope selectors covering it, else `default`.
pub open spec fn tier_of(a: Seq<AssignRule>, ns: Seq<SchedNode>, name: Seq<char>) -> Seq<char> {
    if is_explicit(a, ns, name) {
        let (ri, si, k) = choose|ri: int, si: int, k: int|
            #[trigger] ehit(a, ns, ri, si, k) && ns[k].name@ == name;
        a[ri].tier@
    } else if is_scoped(a, ns, name) {
        let (ri, k) = choose|ri: int, k: int| #[trigger] shit(a, ns, ri, k) && ns[k].name@ == name;
        a[ri].tier@
    } else {
        default_tier_name()
    }
}

/// An error from [`bind_nodes`] names a genuine defect of the rules.
pub open spec fn binding_error_justified(
    a: Seq<AssignRule>,
    ns: Seq<SchedNode>,
    e: SchedErrorView,
) -> bool {
    match e {
        SchedErrorView::UnknownNodeSelector { selector } => exists|ri: int, si: int|
            #[trigger] dead_node_selector(a, ns, ri, si) && a[ri].nodes@[si]@ == selector,
        SchedErrorView::UnknownScopeSelector { selector } => exists|ri: int|
            #[trigger] dead_scope_selector(a, ns, ri) && a[ri].scope->0@ == selector,
        SchedErrorView::NodeMatchedByMultipleTiers { node, tier_a, tier_b } => explicit_clash(
            a,
            ns,
            node,
            tier_a,
            tier_b,
        ) || scope_clash(a, ns, node, tier_a, tier_b),
        _ => false,
    }
}

/// Position `(r1, s1, k1)` of the explicit pass comes before `(r2, s2, k2)`:
/// rule by rule, selector by selector, node by node; a selector's own check
/// (`k == -1`) comes before its nodes.
pub open spec fn epos_lt(r1: int, s1: int, k1: int, r2: int, s2: int, k2: int) -> bool {
    r1 < r2 || (r1 == r2 && (s1 < s2 || (s1 == s2 && k1 < k2)))
}

/// The explicit pass fails at `(ri, si, k)` with `e`: selector `si` of rule
/// `ri` names no node (`k == -1`), or it names node `k`, which an earlier
/// explicit selector gave another tier.
pub open spec fn efail(a: Seq<AssignRule>, ns: Seq<SchedNode>, ri: int, si: int, k: int, e: SchedErrorView) -> bool {
    ||| k == -1 && dead_node_selector(a, ns, ri, si) && e == SchedErrorView::UnknownNodeSelector {
        selector: a[ri].nodes@[si]@,
    }
    ||| ehit(a, ns, ri, si, k) && exists|r2: int, s2: int, k2: int|
        #[trigger] ehit(a, ns, r2, s2, k2) && epos_lt(r2, s2, k2, ri, si, k) && ns[k2].name@ == ns[k].name@
            && a[r2].tier@ != a[ri].tier@ && e == SchedErrorView::NodeMatchedByMultipleTiers {
            node: ns[k].name@,
            tier_a: a[r2].tier@,
            tier_b: a[ri].tier@,
        }
}

pub open spec fn efails(a: Seq<AssignRule>, ns: Seq<SchedNode>, ri: int, si: int, k: int) -> bool {
    exists|e: SchedErrorView| #[trigger] efail(a, ns, ri, si, k, e)
}

/// `e` is the error at the first position where the explicit pass fails.
pub open spec fn explicit_first(a: Seq<AssignRule>, ns: Seq<SchedNode>, e: SchedErrorView) -> bool {
    exists|ri: int, si: int, k: int|
        #[trigger] efail(a, ns, ri, si, k, e) && forall|r2: int, s2: int, k2: int|
            epos_lt(r2, s2, k2, ri, si, k) ==> !#[trigger] efails(a, ns, r2, s2, k2)
}

pub open spec fn explicit_fails(a: Seq<AssignRule>, ns: Seq<SchedNode>) -> bool {
    exists|ri: int, si: int, k: int| #[trigger] efails(a, ns, ri, si, k)
}

/// Position `(r1, k1)` of the scope pass comes before `(r2, k2)`.
pub open spec fn spos_lt(r1: int, k1: int, r2: int, k2: int) -> bool {
    r1 < r2 || (r1 == r2 && k1 < k2)
}

/// Node `k` falls under the scope selector of rule `ri` and no explicit
/// selector claims it.
pub open spec fn sclaim(a: Seq<AssignRule>, ns: Seq<SchedNode>, ri: int, k: int) -> bool {
    shit(a, ns, ri, k) && !is_explicit(a, ns, ns[k].name@)
}

/// The scope pass fails at `(ri, k)` with `e`: the scope selector of rule
/// `ri` covers no node (`k == -1`), or it claims node `k`, which an earlier
/// scope selector gave another tier.
pub open spec fn sfail(a: Seq<AssignRule>, ns: Seq<SchedNode>, ri: int, k: int, e: SchedErrorView) -> bool {
    ||| k == -1 && dead_scope_selector(a, ns, ri) && e == SchedErrorView::UnknownScopeSelector {
        selector: a[ri].scope->0@,
    }
    ||| sclaim(a, ns, ri, k) && exists|r2: int, k2: int|
        #[trigger] sclaim(a, ns, r2, k2) && spos_lt(r2, k2, ri, k) && ns[k2].name@ == ns[k].name@
            && a[r2].tier@ != a[ri].tier@ && e == SchedErrorView::NodeMatchedByMultipleTiers {
            node: ns[k].name@,
            tier_a: a[r2].tier@,
            tier_b: a[ri].tier@,
        }
}

pub open spec fn sfails(a: Seq<AssignRule>, ns: Seq<SchedNode>, ri: int, k: int) -> bool {
    exists|e: SchedErrorView| #[trigger] sfail(a, ns, ri, k, e)
}

/// `e` is the error at the first position where the scope pass fails.
pub open spec fn scope_first(a: Seq<AssignRule>, ns: Seq<SchedNode>, e: SchedErrorView) -> bool {
    exists|ri: int, k: int|
        #[trigger] sfail(a, ns, ri, k, e) && forall|r2: int, k2: int|
            spos_lt(r2, k2, ri, k) ==> !#[trigger] sfails(a, ns, r2, k2)
}

/// The error binding reports: the first failure of the explicit pass, or,
/// where that pass does not fail, the first failure of the scope pass.
pub open spec fn first_binding_error(a: Seq<AssignRule>, ns: Seq<SchedNode>, e: SchedErrorView) -> bool {
    if explicit_fails(a, ns) {
        explicit_first(a, ns, e)
    } else {
        scope_first(a, ns, e)
    }
}

proof fn lemma_explicit_first_unique(a: Seq<AssignRule>, ns: Seq<SchedNode>, e1: SchedErrorView, e2: SchedErrorView)
    requires
        explicit_first(a, ns, e1),
        explicit_first(a, ns, e2),
    ensures
        e1 == e2,
{
    let (r1, s1, k1) = choose|r1: int, s1: int, k1: int|
        #[trigger] efail(a, ns, r1, s1, k1, e1) && forall|r2: int, s2: int, k2: int|
            epos_lt(r2, s2, k2, r1, s1, k1) ==> !#[trigger] efails(a, ns, r2, s2, k2);
    let (q1, t1, m1) = choose|q1: int, t1: int, m1: int|
        #[trigger] efail(a, ns, q1, t1, m1, e2) && forall|r2: int, s2: int, k2: int|
            epos_lt(r2, s2, k2, q1, t1, m1) ==> !#[trigger] efails(a, ns, r2, s2, k2);
    assert(efails(a, ns, r1, s1, k1));
    assert(efails(a, ns, q1, t1, m1));
    assert(!epos_lt(r1, s1, k1, q1, t1, m1));
    assert(!epos_lt(q1, t1, m1, r1, s1, k1));
    assert(r1 == q1 && s1 == t1 && k1 == m1);
    if k1 != -1 || !dead_node_selector(a, ns, r1, s1) {
        let (ra, sa, ka) = choose|r2: int, s2: int, k2: int|
            #[trigger] ehit(a, ns, r2, s2, k2) && epos_lt(r2, s2, k2, r1, s1, k1) && ns[k2].name@ == ns[k1].name@
                && a[r2].tier@ != a[r1].tier@ && e1 == SchedErrorView::NodeMatchedByMultipleTiers {
                node: ns[k1].name@,
                tier_a: a[r2].tier@,
                tier_b: a[r1].tier@,
            };
        let (rb, sb, kb) = choose|r2: int, s2: int, k2: int|
            #[trigger] ehit(a, ns, r2, s2, k2) && epos_lt(r2, s2, k2, r1, s1, k1) && ns[k2].name@ == ns[k1].name@
                && a[r2].tier@ != a[r1].tier@ && e2 == SchedErrorView::NodeMatchedByMultipleTiers {
                node: ns[k1].name@,
                tier_a: a[r2].tier@,
                tier_b: a[r1].tier@,
            };
        if a[ra].tier@ != a[rb].tier@ {
            if epos_lt(ra, sa, ka, rb, sb, kb) {
                assert(efail(a, ns, rb, sb, kb, SchedErrorView::NodeMatchedByMultipleTiers {
                    node: ns[kb].name@,
                    tier_a: a[ra].tier@,
                    tier_b: a[rb].tier@,
                }));
                assert(efails(a, ns, rb, sb, kb));
            } else {
                assert(epos_lt(rb, sb, kb, ra, sa, ka));
                assert(efail(a, ns, ra, sa, ka, SchedErrorView::NodeMatchedByMultipleTiers {
                    node: ns[ka].name@,
                    tier_a: a[rb].tier@,
                    tier_b: a[ra].tier@,
                }));
                assert(efails(a, ns, ra, sa, ka));
            }
        }
    }
}

proof fn lemma_scope_first_unique(a: Seq<AssignRule>, ns: Seq<SchedNode>, e1: SchedErrorView, e2: SchedErrorView)
    requires
        scope_first(a, ns, e1),
        scope_first(a, ns, e2),
    ensures
        e1 == e2,
{
    let (r1, k1) = choose|r1: int, k1: int|
        #[trigger] sfail(a, ns, r1, k1, e1) && forall|r2: int, k2: int|
            spos_lt(r2, k2, r1, k1) ==> !#[trigger] sfails(a, ns, r2, k2);
    let (q1, m1) = choose|q1: int, m1: int|
        #[trigger] sfail(a, ns, q1, m1, e2) && forall|r2: int, k2: int|
            spos_lt(r2, k2, q1, m1) ==> !#[trigger] sfails(a, ns, r2, k2);
    assert(sfails(a, ns, r1, k1));
    assert(sfails(a, ns, q1, m1));
    assert(!spos_lt(r1, k1, q1, m1));
    assert(!spos_lt(q1, m1, r1, k1));
    assert(r1 == q1 && k1 == m1);
    if k1 != -1 || !dead_scope_selector(a, ns, r1) {
        let (ra, ka) = choose|r2: int, k2: int|
            #[trigger] sclaim(a, ns, r2, k2) && spos_lt(r2, k2, r1, k1) && ns[k2].name@ == ns[k1].name@
                && a[r2].tier@ != a[r1].tier@ && e1 == SchedErrorView::NodeMatchedByMultipleTiers {
                node: ns[k1].name@,
                tier_a: a[r2].tier@,
                tier_b: a[r1].tier@,
            };
        let (rb, kb) = choose|r2: int, k2: int|
            #[trigger] sclaim(a, ns, r2, k2) && spos_lt(r2, k2, r1, k1) && ns[k2].name@ == ns[k1].name@
                && a[r2].tier@ != a[r1].tier@ && e2 == SchedErrorView::NodeMatchedByMultipleTiers {
                node: ns[k1].name@,
                tier_a: a[r2].tier@,
                tier_b: a[r1].tier@,
            };
        if a[ra].tier@ != a[rb].tier@ {
            if spos_lt(ra, ka, rb, kb) {
                assert(sfail(a, ns, rb, kb, SchedErrorView::NodeMatchedByMultipleTiers {
                    node: ns[kb].name@,
                    tier_a: a[ra].tier@,
                    tier_b: a[rb].tier@,
                }));
                assert(sfails(a, ns, rb, kb));
            } else {
                assert(spos_lt(rb, kb, ra, ka));
                assert(sfail(a, ns, ra, ka, SchedErrorView::NodeMatchedByMultipleTiers {
                    node: ns[ka].name@,
                    tier_a: a[rb].tier@,
                    tier_b: a[ra].tier@,
                }));
                assert(sfails(a, ns, ra, ka));
            }
        }
    }
}

/// Binding reports one error at most: whatever rules and nodes it is given,
/// two errors that both meet [`first_binding_error`] are the same error.
pub proof fn lemma_binding_error_unique(a: Seq<AssignRule>, ns: Seq<SchedNode>, e1: SchedErrorView, e2: SchedErrorView)
    requires
        first_binding_error(a, ns, e1),
        first_binding_error(a, ns, e2),
    ensures
        e1 == e2,
{
    if explicit_fails(a, ns) {
        lemma_explicit_first_unique(a, ns, e1, e2);
    } else {
        lemma_scope_first_unique(a, ns, e1, e2);
    }
}

pub proof fn lemma_maps_to_unique(m: Seq<(String, String)>, k: Seq<char>, v1: Seq<char>, v2: Seq<char>)
    requires
        maps_to(m, k, v1),
        maps_to(m, k, v2),
    ensures
        v1 == v2,
{
    let i = choose|i: int| first_key_at(m, k, i) && #[trigger] m[i].1@ == v1;
    let j = choose|j: int| first_key_at(m, k, j) && #[trigger] m[j].1@ == v2;
    if i < j {
        assert(m[i].0@ == k);
    } else if j < i {
        assert(m[j].0@ == k);
    }
}

/// Record `node -> tier`, refusing a second, different tier for the same node.
fn assign_one(map: &mut Vec<(String, String)>, node: &str, tier: &str) -> (r: Result<(), SchedError>)
    requires
        keys_unique(old(map)@),
    ensures
        keys_unique(final(map)@),
        match r {
            Ok(()) => {
                &&& maps_to(final(map)@, node@, tier@)
                &&& forall|k: Seq<char>, v: Seq<char>|
                    #[trigger] maps_to(old(map)@, k, v) ==> maps_to(final(map)@, k, v)
                &&& forall|k: Seq<char>|
                    #[trigger] has_key(final(map)@, k) ==> has_key(old(map)@, k) || k == node@
                &&& forall|k: Seq<char>, v: Seq<char>|
                    #[trigger] maps_to(final(map)@, k, v) ==> maps_to(old(map)@, k, v) || (k
                        == node@ && v == tier@)
            },
            Err(e) => exists|prev: Seq<char>|
                maps_to(old(map)@, node@, prev) && prev != tier@ && e@
                    == SchedErrorView::NodeMatchedByMultipleTiers {
                    node: node@,
                    tier_a: prev,
                    tier_b: tier@,
                },
        },
{
    match crate::assoc::assoc_position(map.as_slice(), node) {
        Some(i) => {
            assert(maps_to(map@, node@, map@[i as int].1@));
            if str_eq(map[i].1.as_str(), tier) {
                assert(maps_to(map@, node@, tier@));
                Ok(())
            } else {
                let prev = map[i].1.clone();
                let err = SchedError::NodeMatchedByMultipleTiers {
                    node: owned(node),
                    tier_a: prev,
                    tier_b: owned(tier),
                };
                assert(prev@ == map@[i as int].1@);
                assert(maps_to(map@, node@, prev@));
                assert(err@ == SchedErrorView::NodeMatchedByMultipleTiers {
                    node: node@,
                    tier_a: prev@,
                    tier_b: tier@,
                });
                Err(err)
            }
        },
        None => {
            let ghost before = map@;
            map.push((owned(node), owned(tier)));
            proof {
                let n = before.len() as int;
                assert(first_key_at(map@, node@, n));
                assert(map@[n].1@ == tier@);
                assert(maps_to(map@, node@, tier@));
                assert forall|i: int, j: int|
                    0 <= i < map@.len() && 0 <= j < map@.len() && i != j implies map@[i].0@
                    != map@[j].0@ by {
                    if i < n && j < n {
                    } else if i == n {
                        assert(before[j].0@ == map@[j].0@);
                    } else {
                        assert(before[i].0@ == map@[i].0@);
                    }
                }
                assert forall|k: Seq<char>, v: Seq<char>|
                    #[trigger] maps_to(before, k, v) implies maps_to(map@, k, v) by {
                    let i = choose|i: int| first_key_at(before, k, i) && #[trigger] before[i].1@ == v;
                    assert(first_key_at(map@, k, i));
                }
                assert forall|k: Seq<char>| #[trigger] has_key(map@, k) implies has_key(before, k)
                    || k == node@ by {
                    let i = choose|i: int| 0 <= i < map@.len() && #[trigger] map@[i].0@ == k;
                    if i < n {
                        assert(before[i].0@ == k);
                    }
                }
                assert forall|k: Seq<char>, v: Seq<char>|
                    #[trigger] maps_to(map@, k, v) implies maps_to(before, k, v) || (k == node@ && v
                        == tier@) by {
                    let i = choose|i: int| first_key_at(map@, k, i) && #[trigger] map@[i].1@ == v;
                    if i < n {
                        assert(first_key_at(before, k, i));
                    }
                }
            }
            Ok(())
        },
    }
}

/// Apply one explicit node selector to the node-to-tier table.
fn apply_node_selector(
    map: &mut Vec<(String, String)>,
    sel: &str,
    tier: &str,
    nodes: &[SchedNode],
) -> (r: Result<(), SchedError>)
    requires
        keys_unique(old(map)@),
    ensures
        keys_unique(final(map)@),
        match r {
            Ok(()) => {
                &&& exists|k: int| 0 <= k < nodes@.len() && name_hit(sel@, #[trigger] nodes@[k].name@)
                &&& forall|k: int|
                    0 <= k < nodes@.len() && name_hit(sel@, #[trigger] nodes@[k].name@) ==> maps_to(
                        final(map)@,
                        nodes@[k].name@,
                        tier@,
                    )
                &&& forall|n: Seq<char>, v: Seq<char>|
                    #[trigger] maps_to(old(map)@, n, v) ==> maps_to(final(map)@, n, v)
                &&& forall|n: Seq<char>, v: Seq<char>|
                    #[trigger] maps_to(final(map)@, n, v) ==> maps_to(old(map)@, n, v) || (v == tier@
                        && exists|k: int|
                        0 <= k < nodes@.len() && name_hit(sel@, #[trigger] nodes@[k].name@)
                            && nodes@[k].name@ == n)
                &&& forall|j: int, v: Seq<char>|
                    0 <= j < nodes@.len() && name_hit(sel@, nodes@[j].name@) && #[trigger] maps_to(
                        old(map)@,
                        nodes@[j].name@,
                        v,
                    ) ==> v == tier@
            },
            Err(e) => (e@ == SchedErrorView::UnknownNodeSelector { selector: sel@ } && forall|k: int|
                0 <= k < nodes@.len() ==> !name_hit(sel@, #[trigger] nodes@[k].name@)) || exists|
                k: int,
                prev: Seq<char>,
            |
                0 <= k < nodes@.len() && name_hit(sel@, #[trigger] nodes@[k].name@) && #[trigger] maps_to(
                    old(map)@,
                    nodes@[k].name@,
                    prev,
                ) && prev != tier@ && e@ == SchedErrorView::NodeMatchedByMultipleTiers {
                    node: nodes@[k].name@,
                    tier_a: prev,
                    tier_b: tier@,
                } && forall|j: int, v: Seq<char>|
                    0 <= j < k && name_hit(sel@, nodes@[j].name@) && #[trigger] maps_to(
                        old(map)@,
                        nodes@[j].name@,
                        v,
                    ) ==> v == tier@,
        },
{
    let mut any = false;
    let mut k: usize = 0;
    while k < nodes.len()
        invariant
            k <= nodes@.len(),
            any == exists|j: int| 0 <= j < k && name_hit(sel@, #[trigger] nodes@[j].name@),
        decreases nodes@.len() - k,
    {
        if node_selector_matches(sel, &nodes[k]) {
            any = true;
        }
        k += 1;
    }
    if !any {
        return Err(SchedError::UnknownNodeSelector { selector: owned(sel) });
    }
    let ghost start = map@;
    assert(start == old(map)@);
    let mut k: usize = 0;
    while k < nodes.len()
        invariant
            k <= nodes@.len(),
            start == old(map)@,
            keys_unique(map@),
            forall|j: int|
                0 <= j < k && name_hit(sel@, #[trigger] nodes@[j].name@) ==> maps_to(
                    map@,
                    nodes@[j].name@,
                    tier@,
                ),
            forall|n: Seq<char>, v: Seq<char>| #[trigger] maps_to(start, n, v) ==> maps_to(map@, n, v),
            forall|n: Seq<char>, v: Seq<char>|
                #[trigger] maps_to(map@, n, v) ==> maps_to(start, n, v) || (v == tier@ && exists|
                    j: int,
                | 0 <= j < nodes@.len() && name_hit(sel@, #[trigger] nodes@[j].name@)
                    && nodes@[j].name@ == n),
            forall|j: int, v: Seq<char>|
                0 <= j < k && name_hit(sel@, nodes@[j].name@) && #[trigger] maps_to(
                    start,
                    nodes@[j].name@,
                    v,
                ) ==> v == tier@,
        decreases nodes@.len() - k,
    {
        if node_selector_matches(sel, &nodes[k]) {
            let ghost before = map@;
            match assign_one(map, nodes[k].name.as_str(), tier) {
                Ok(()) => {
                    proof {
                        assert forall|j: int, v: Seq<char>|
                            0 <= j < k + 1 && name_hit(sel@, nodes@[j].name@) && #[trigger] maps_to(
                                start,
                                nodes@[j].name@,
                                v,
                            ) implies v == tier@ by {
                            if j == k {
                                assert(maps_to(before, nodes@[j].name@, v));
                                assert(maps_to(map@, nodes@[j].name@, v));
                                lemma_maps_to_unique(map@, nodes@[j].name@, v, tier@);
                            }
                        }
                    }
                },
                Err(e) => {
                    proof {
                        let prev = choose|prev: Seq<char>|
                            maps_to(before, nodes@[k as int].name@, prev) && prev != tier@ && e@
                                == SchedErrorView::NodeMatchedByMultipleTiers {
                                node: nodes@[k as int].name@,
                                tier_a: prev,
                                tier_b: tier@,
                            };
                        assert(maps_to(before, nodes@[k as int].name@, prev));
                        assert(maps_to(start, nodes@[k as int].name@, prev));
                        assert(name_hit(sel@, nodes@[k as int].name@));
                        assert(start == old(map)@);
                    }
                    return Err(e);
                },
            }
        }
        k += 1;
    }
    Ok(())
}

/// A selector that names some node, none of whose nodes below `lim` an
/// earlier explicit selector gave another tier, fails nowhere below `lim`.
proof fn lemma_selector_clean(
    a: Seq<AssignRule>,
    ns: Seq<SchedNode>,
    r: int,
    s: int,
    before: Seq<(String, String)>,
    lim: int,
)
    requires
        0 <= r < a.len(),
        0 <= s < a[r].nodes@.len(),
        exists|k: int| 0 <= k < ns.len() && name_hit(a[r].nodes@[s]@, #[trigger] ns[k].name@),
        forall|ri: int, si: int, k: int|
            #[trigger] ehit(a, ns, ri, si, k) && (ri < r || (ri == r && si < s)) ==> maps_to(
                before,
                ns[k].name@,
                a[ri].tier@,
            ),
        forall|j: int, v: Seq<char>|
            0 <= j < lim && name_hit(a[r].nodes@[s]@, ns[j].name@) && #[trigger] maps_to(
                before,
                ns[j].name@,
                v,
            ) ==> v == a[r].tier@,
    ensures
        forall|k2: int| k2 < lim ==> !#[trigger] efails(a, ns, r, s, k2),
{
    assert forall|k2: int| k2 < lim implies !#[trigger] efails(a, ns, r, s, k2) by {
        if efails(a, ns, r, s, k2) {
            let e = choose|e: SchedErrorView| efail(a, ns, r, s, k2, e);
            if k2 == -1 && dead_node_selector(a, ns, r, s) {
                let k = choose|k: int| 0 <= k < ns.len() && name_hit(a[r].nodes@[s]@, #[trigger] ns[k].name@);
                assert(!name_hit(a[r].nodes@[s]@, ns[k].name@));
            } else {
                assert(ehit(a, ns, r, s, k2));
                let (r3, s3, k3) = choose|r3: int, s3: int, k3: int|
                    #[trigger] ehit(a, ns, r3, s3, k3) && epos_lt(r3, s3, k3, r, s, k2) && ns[k3].name@
                        == ns[k2].name@ && a[r3].tier@ != a[r].tier@;
                if !(r3 == r && s3 == s) {
                    assert(maps_to(before, ns[k3].name@, a[r3].tier@));
                    assert(name_hit(a[r].nodes@[s]@, ns[k2].name@));
                    assert(maps_to(before, ns[k2].name@, a[r3].tier@));
                }
            }
        }
    }
}

/// Pass 1: explicit node selectors, rule by rule, selector by selector.
fn explicit_pass(assigns: &[AssignRule], nodes: &[SchedNode]) -> (r: Result<
    Vec<(String, String)>,
    SchedError,
>)
    ensures
        match r {
            Ok(m) => {
                &&& keys_unique(m@)
                &&& forall|ri: int, si: int| !#[trigger] dead_node_selector(assigns@, nodes@, ri, si)
                &&& forall|ri: int, si: int, k: int|
                    #[trigger] ehit(assigns@, nodes@, ri, si, k) ==> maps_to(
                        m@,
                        nodes@[k].name@,
                        assigns@[ri].tier@,
                    )
                &&& forall|n: Seq<char>, v: Seq<char>|
                    #[trigger] maps_to(m@, n, v) ==> exists|ri: int, si: int, k: int|
                        #[trigger] ehit(assigns@, nodes@, ri, si, k) && nodes@[k].name@ == n
                            && assigns@[ri].tier@ == v
            },
            Err(e) => binding_error_justified(assigns@, nodes@, e@),
        },
        r is Ok ==> !explicit_fails(assigns@, nodes@),
        r matches Err(e) ==> explicit_first(assigns@, nodes@, e@),
{
    let mut m: Vec<(String, String)> = Vec::new();
    let mut r: usize = 0;
    while r < assigns.len()
        invariant
            r <= assigns@.len(),
            keys_unique(m@),
            forall|ri: int, si: int|
                0 <= ri < r ==> !#[trigger] dead_node_selector(assigns@, nodes@, ri, si),
            forall|ri: int, si: int, k: int|
                #[trigger] ehit(assigns@, nodes@, ri, si, k) && ri < r ==> maps_to(
                    m@,
                    nodes@[k].name@,
                    assigns@[ri].tier@,
                ),
            forall|n: Seq<char>, v: Seq<char>|
                #[trigger] maps_to(m@, n, v) ==> exists|ri: int, si: int, k: int|
                    #[trigger] ehit(assigns@, nodes@, ri, si, k) && ri < r && nodes@[k].name@ == n
                        && assigns@[ri].tier@ == v,
            forall|r2: int, s2: int, k2: int| r2 < r ==> !#[trigger] efails(assigns@, nodes@, r2, s2, k2),
        decreases assigns@.len() - r,
    {
        let rule = &assigns[r];
        let mut s: usize = 0;
        while s < rule.nodes.len()
            invariant
                r < assigns@.len(),
                *rule == assigns@[r as int],
                s <= rule.nodes@.len(),
                keys_unique(m@),
                forall|ri: int, si: int|
                    0 <= ri < r || (ri == r && si < s) ==> !#[trigger] dead_node_selector(
                        assigns@,
                        nodes@,
                        ri,
                        si,
                    ),
                forall|ri: int, si: int, k: int|
                    #[trigger] ehit(assigns@, nodes@, ri, si, k) && (ri < r || (ri == r && si < s))
                        ==> maps_to(m@, nodes@[k].name@, assigns@[ri].tier@),
                forall|n: Seq<char>, v: Seq<char>|
                    #[trigger] maps_to(m@, n, v) ==> exists|ri: int, si: int, k: int|
                        #[trigger] ehit(assigns@, nodes@, ri, si, k) && (ri < r || (ri == r && si
                            < s)) && nodes@[k].name@ == n && assigns@[ri].tier@ == v,
                forall|r2: int, s2: int, k2: int|
                    r2 < r || (r2 == r && s2 < s) ==> !#[trigger] efails(assigns@, nodes@, r2, s2, k2),
            decreases rule.nodes@.len() - s,
        {
            let ghost before = m@;
            let res = apply_node_selector(&mut m, rule.nodes[s].as_str(), rule.tier.as_str(), nodes);
            match res {
                Ok(()) => {
                    proof {
                        assert forall|ri: int, si: int|
                            0 <= ri < r || (ri == r && si < s + 1) implies !#[trigger] dead_node_selector(
                            assigns@,
                            nodes@,
                            ri,
                            si,
                        ) by {
                            if ri == r && si == s {
                                let k = choose|k: int|
                                    0 <= k < nodes@.len() && name_hit(
                                        rule.nodes@[s as int]@,
                                        #[trigger] nodes@[k].name@,
                                    );
                                assert(name_hit(assigns@[ri].nodes@[si]@, nodes@[k].name@));
                            }
                        }
                        assert forall|ri: int, si: int, k: int|
                            #[trigger] ehit(assigns@, nodes@, ri, si, k) && (ri < r || (ri == r && si
                                < s + 1)) implies maps_to(m@, nodes@[k].name@, assigns@[ri].tier@) by {
                            if ri == r && si == s {
                                assert(name_hit(rule.nodes@[s as int]@, nodes@[k].name@));
                            } else {
                                assert(maps_to(before, nodes@[k].name@, assigns@[ri].tier@));
                            }
                        }
                        assert forall|n: Seq<char>, v: Seq<char>| #[trigger] maps_to(m@, n, v) implies exists|
                            ri: int,
                            si: int,
                            k: int,
                        |
                            #[trigger] ehit(assigns@, nodes@, ri, si, k) && (ri < r || (ri == r && si
                                < s + 1)) && nodes@[k].name@ == n && assigns@[ri].tier@ == v by {
                            if !maps_to(before, n, v) {
                                let k = choose|k: int|
                                    0 <= k < nodes@.len() && name_hit(
                                        rule.nodes@[s as int]@,
                                        #[trigger] nodes@[k].name@,
                                    ) && nodes@[k].name@ == n;
                                assert(ehit(assigns@, nodes@, r as int, s as int, k));
                            }
                        }
                        lemma_selector_clean(assigns@, nodes@, r as int, s as int, before, nodes@.len() as int);
                        assert forall|r2: int, s2: int, k2: int|
                            r2 < r || (r2 == r && s2 < s + 1) implies !#[trigger] efails(
                            assigns@,
                            nodes@,
                            r2,
                            s2,
                            k2,
                        ) by {
                            if r2 == r && s2 == s && k2 >= nodes@.len() {
                                if efails(assigns@, nodes@, r2, s2, k2) {
                                    let e = choose|e: SchedErrorView| efail(assigns@, nodes@, r2, s2, k2, e);
                                }
                            }
                        }
                    }
                },
                Err(e) => {
                    proof {
                        if e@ is UnknownNodeSelector {
                            assert(dead_node_selector(assigns@, nodes@, r as int, s as int));
                            assert(efail(assigns@, nodes@, r as int, s as int, -1, e@));
                            assert forall|r2: int, s2: int, k2: int|
                                epos_lt(r2, s2, k2, r as int, s as int, -1) implies !#[trigger] efails(
                                assigns@,
                                nodes@,
                                r2,
                                s2,
                                k2,
                            ) by {
                                if r2 == r && s2 == s && efails(assigns@, nodes@, r2, s2, k2) {
                                    let e2 = choose|e2: SchedErrorView| efail(assigns@, nodes@, r2, s2, k2, e2);
                                }
                            }
                        } else {
                            let (k, prev) = choose|k: int, prev: Seq<char>|
                                0 <= k < nodes@.len() && name_hit(
                                    rule.nodes@[s as int]@,
                                    #[trigger] nodes@[k].name@,
                                ) && #[trigger] maps_to(before, nodes@[k].name@, prev) && prev != rule.tier@
                                    && e@ == SchedErrorView::NodeMatchedByMultipleTiers {
                                    node: nodes@[k].name@,
                                    tier_a: prev,
                                    tier_b: rule.tier@,
                                } && forall|j: int, v: Seq<char>|
                                    0 <= j < k && name_hit(rule.nodes@[s as int]@, nodes@[j].name@)
                                        && #[trigger] maps_to(before, nodes@[j].name@, v) ==> v == rule.tier@;
                            assert(ehit(assigns@, nodes@, r as int, s as int, k));
                            assert(explicit_clash(assigns@, nodes@, nodes@[k].name@, prev, rule.tier@));
                            let (r3, s3, k3) = choose|r3: int, s3: int, k3: int|
                                #[trigger] ehit(assigns@, nodes@, r3, s3, k3) && (r3 < r || (r3 == r && s3
                                    < s)) && nodes@[k3].name@ == nodes@[k].name@ && assigns@[r3].tier@ == prev;
                            assert(epos_lt(r3, s3, k3, r as int, s as int, k));
                            assert(efail(assigns@, nodes@, r as int, s as int, k, e@));
                            lemma_selector_clean(assigns@, nodes@, r as int, s as int, before, k);
                            assert forall|r2: int, s2: int, k2: int|
                                epos_lt(r2, s2, k2, r as int, s as int, k) implies !#[trigger] efails(
                                assigns@,
                                nodes@,
                                r2,
                                s2,
                                k2,
                            ) by {}
                        }
                    }
                    return Err(e);
                },
            }
            s += 1;
        }
        proof {
            assert forall|r2: int, s2: int, k2: int| r2 < r + 1 implies !#[trigger] efails(
                assigns@,
                nodes@,
                r2,
                s2,
                k2,
            ) by {
                if r2 == r && efails(assigns@, nodes@, r2, s2, k2) {
                    let e = choose|e: SchedErrorView| efail(assigns@, nodes@, r2, s2, k2, e);
                }
            }
        }
        r += 1;
    }
    proof {
        assert forall|r2: int, s2: int, k2: int| !#[trigger] efails(assigns@, nodes@, r2, s2, k2) by {
            if efails(assigns@, nodes@, r2, s2, k2) {
                let e = choose|e: SchedErrorView| efail(assigns@, nodes@, r2, s2, k2, e);
            }
        }
    }
    Ok(m)
}

/// Apply one scope selector: nodes an explicit selector already claimed are
/// skipped, every other covered node is recorded in `map`.
fn apply_scope_selector(
    map: &mut Vec<(String, String)>,
    explicit: &Vec<(String, String)>,
    sel: &str,
    tier: &str,
    nodes: &[SchedNode],
) -> (r: Result<(), SchedError>)
    requires
        keys_unique(old(map)@),
    ensures
        keys_unique(final(map)@),
        match r {
            Ok(()) => {
                &&& exists|k: int| 0 <= k < nodes@.len() && scope_hit(sel@, #[trigger] nodes@[k].scope@)
                &&& forall|k: int|
                    0 <= k < nodes@.len() && scope_hit(sel@, #[trigger] nodes@[k].scope@) && !has_key(
                        explicit@,
                        nodes@[k].name@,
                    ) ==> maps_to(final(map)@, nodes@[k].name@, tier@)
                &&& forall|n: Seq<char>, v: Seq<char>|
                    #[trigger] maps_to(old(map)@, n, v) ==> maps_to(final(map)@, n, v)
                &&& forall|n: Seq<char>, v: Seq<char>|
                    #[trigger] maps_to(final(map)@, n, v) ==> maps_to(old(map)@, n, v) || (v == tier@
                        && !has_key(explicit@, n) && exists|k: int|
                        0 <= k < nodes@.len() && scope_hit(sel@, #[trigger] nodes@[k].scope@)
                            && nodes@[k].name@ == n)
                &&& forall|j: int, v: Seq<char>|
                    0 <= j < nodes@.len() && scope_hit(sel@, nodes@[j].scope@) && !has_key(
                        explicit@,
                        nodes@[j].name@,
                    ) && #[trigger] maps_to(old(map)@, nodes@[j].name@, v) ==> v == tier@
            },
            Err(e) => (e@ == SchedErrorView::UnknownScopeSelector { selector: sel@ } && forall|k: int|
                0 <= k < nodes@.len() ==> !scope_hit(sel@, #[trigger] nodes@[k].scope@)) || exists|
                k: int,
                prev: Seq<char>,
            |
                0 <= k < nodes@.len() && scope_hit(sel@, #[trigger] nodes@[k].scope@) && !has_key(
                    explicit@,
                    nodes@[k].name@,
                ) && #[trigger] maps_to(old(map)@, nodes@[k].name@, prev) && prev != tier@ && e@
                    == SchedErrorView::NodeMatchedByMultipleTiers {
                    node: nodes@[k].name@,
                    tier_a: prev,
                    tier_b: tier@,
                } && forall|j: int, v: Seq<char>|
                    0 <= j < k && scope_hit(sel@, nodes@[j].scope@) && !has_key(explicit@, nodes@[j].name@)
                        && #[trigger] maps_to(old(map)@, nodes@[j].name@, v) ==> v == tier@,
        },
{
    let mut any = false;
    let mut k: usize = 0;
    while k < nodes.len()
        invariant
            k <= nodes@.len(),
            any == exists|j: int| 0 <= j < k && scope_hit(sel@, #[trigger] nodes@[j].scope@),
        decreases nodes@.len() - k,
    {
        if scope_selector_matches(sel, &nodes[k]) {
            any = true;
        }
        k += 1;
    }
    if !any {
        return Err(SchedError::UnknownScopeSelector { selector: owned(sel) });
    }
    let ghost start = map@;
    assert(start == old(map)@);
    let mut k: usize = 0;
    while k < nodes.len()
        invariant
            k <= nodes@.len(),
            start == old(map)@,
            keys_unique(map@),
            forall|j: int|
                0 <= j < k && scope_hit(sel@, #[trigger] nodes@[j].scope@) && !has_key(
                    explicit@,
                    nodes@[j].name@,
                ) ==> maps_to(map@, nodes@[j].name@, tier@),
            forall|n: Seq<char>, v: Seq<char>| #[trigger] maps_to(start, n, v) ==> maps_to(map@, n, v),
            forall|n: Seq<char>, v: Seq<char>|
                #[trigger] maps_to(map@, n, v) ==> maps_to(start, n, v) || (v == tier@ && !has_key(
                    explicit@,
                    n,
                ) && exists|j: int|
                    0 <= j < nodes@.len() && scope_hit(sel@, #[trigger] nodes@[j].scope@)
                        && nodes@[j].name@ == n),
            forall|j: int, v: Seq<char>|
                0 <= j < k && scope_hit(sel@, nodes@[j].scope@) && !has_key(explicit@, nodes@[j].name@)
                    && #[trigger] maps_to(start, nodes@[j].name@, v) ==> v == tier@,
        decreases nodes@.len() - k,
    {
        if scope_selector_matches(sel, &nodes[k]) && !crate::assoc::assoc_contains(
            explicit.as_slice(),
            nodes[k].name.as_str(),
        ) {
            let ghost before = map@;
            match assign_one(map, nodes[k].name.as_str(), tier) {
                Ok(()) => {
                    proof {
                        assert forall|j: int, v: Seq<char>|
                            0 <= j < k + 1 && scope_hit(sel@, nodes@[j].scope@) && !has_key(
                                explicit@,
                                nodes@[j].name@,
                            ) && #[trigger] maps_to(start, nodes@[j].name@, v) implies v == tier@ by {
                            if j == k {
                                assert(maps_to(before, nodes@[j].name@, v));
                                assert(maps_to(map@, nodes@[j].name@, v));
                                lemma_maps_to_unique(map@, nodes@[j].name@, v, tier@);
                            }
                        }
                    }
                },
                Err(e) => {
                    proof {
                        let prev = choose|prev: Seq<char>|
                            maps_to(before, nodes@[k as int].name@, prev) && prev != tier@ && e@
                                == SchedErrorView::NodeMatchedByMultipleTiers {
                                node: nodes@[k as int].name@,
                                tier_a: prev,
                                tier_b: tier@,
                            };
                        assert(maps_to(before, nodes@[k as int].name@, prev));
                        assert(maps_to(start, nodes@[k as int].name@, prev));
                        assert(scope_hit(sel@, nodes@[k as int].scope@));
                    }
                    return Err(e);
                },
            }
        }
        k += 1;
    }
    Ok(())
}

/// A scope selector that covers some node, none of whose claimed nodes
/// below `lim` an earlier scope selector gave another tier, fails nowhere
/// below `lim`.
proof fn lemma_scope_clean(
    a: Seq<AssignRule>,
    ns: Seq<SchedNode>,
    r: int,
    before: Seq<(String, String)>,
    lim: int,
)
    requires
        0 <= r < a.len(),
        a[r].scope is Some,
        exists|k: int| 0 <= k < ns.len() && scope_hit(a[r].scope->0@, #[trigger] ns[k].scope@),
        forall|ri: int, k: int|
            #[trigger] shit(a, ns, ri, k) && ri < r && !is_explicit(a, ns, ns[k].name@) ==> maps_to(
                before,
                ns[k].name@,
                a[ri].tier@,
            ),
        forall|j: int, v: Seq<char>|
            0 <= j < lim && scope_hit(a[r].scope->0@, ns[j].scope@) && !is_explicit(a, ns, ns[j].name@)
                && #[trigger] maps_to(before, ns[j].name@, v) ==> v == a[r].tier@,
    ensures
        forall|k2: int| k2 < lim ==> !#[trigger] sfails(a, ns, r, k2),
{
    assert forall|k2: int| k2 < lim implies !#[trigger] sfails(a, ns, r, k2) by {
        if sfails(a, ns, r, k2) {
            let e = choose|e: SchedErrorView| sfail(a, ns, r, k2, e);
            if k2 == -1 && dead_scope_selector(a, ns, r) {
                let k = choose|k: int| 0 <= k < ns.len() && scope_hit(a[r].scope->0@, #[trigger] ns[k].scope@);
                assert(!scope_hit(a[r].scope->0@, ns[k].scope@));
            } else {
                assert(sclaim(a, ns, r, k2));
                let (r3, k3) = choose|r3: int, k3: int|
                    #[trigger] sclaim(a, ns, r3, k3) && spos_lt(r3, k3, r, k2) && ns[k3].name@ == ns[k2].name@
                        && a[r3].tier@ != a[r].tier@;
                if r3 != r {
                    assert(shit(a, ns, r3, k3));
                    assert(maps_to(before, ns[k3].name@, a[r3].tier@));
                    assert(maps_to(before, ns[k2].name@, a[r3].tier@));
                }
            }
        }
    }
}

/// Pass 2: scope selectors, rule by rule. Nodes pass 1 claimed are skipped.
fn scope_pass(assigns: &[AssignRule], nodes: &[SchedNode], explicit: &Vec<(String, String)>) -> (r:
    Result<Vec<(String, String)>, SchedError>)
    requires
        forall|n: Seq<char>| #[trigger] has_key(explicit@, n) <==> is_explicit(assigns@, nodes@, n),
    ensures
        match r {
            Ok(m) => {
                &&& keys_unique(m@)
                &&& forall|ri: int| !#[trigger] dead_scope_selector(assigns@, nodes@, ri)
                &&& forall|ri: int, k: int|
                    #[trigger] shit(assigns@, nodes@, ri, k) && !is_explicit(
                        assigns@,
                        nodes@,
                        nodes@[k].name@,
                    ) ==> maps_to(m@, nodes@[k].name@, assigns@[ri].tier@)
                &&& forall|n: Seq<char>, v: Seq<char>|
                    #[trigger] maps_to(m@, n, v) ==> !is_explicit(assigns@, nodes@, n) && exists|
                        ri: int,
                        k: int,
                    | #[trigger] shit(assigns@, nodes@, ri, k) && nodes@[k].name@ == n
                        && assigns@[ri].tier@ == v
            },
            Err(e) => binding_error_justified(assigns@, nodes@, e@),
        },
        r is Ok ==> forall|r2: int, k2: int| !#[trigger] sfails(assigns@, nodes@, r2, k2),
        r matches Err(e) ==> scope_first(assigns@, nodes@, e@),
{
    let mut m: Vec<(String, String)> = Vec::new();
    let mut r: usize = 0;
    while r < assigns.len()
        invariant
            r <= assigns@.len(),
            forall|n: Seq<char>| #[trigger] has_key(explicit@, n) <==> is_explicit(assigns@, nodes@, n),
            keys_unique(m@),
            forall|ri: int| 0 <= ri < r ==> !#[trigger] dead_scope_selector(assigns@, nodes@, ri),
            forall|ri: int, k: int|
                #[trigger] shit(assigns@, nodes@, ri, k) && ri < r && !is_explicit(
                    assigns@,
                    nodes@,
                    nodes@[k].name@,
                ) ==> maps_to(m@, nodes@[k].name@, assigns@[ri].tier@),
            forall|n: Seq<char>, v: Seq<char>|
                #[trigger] maps_to(m@, n, v) ==> !is_explicit(assigns@, nodes@, n) && exists|
                    ri: int,
                    k: int,
                | #[trigger] shit(assigns@, nodes@, ri, k) && ri < r && nodes@[k].name@ == n
                    && assigns@[ri].tier@ == v,
            forall|r2: int, k2: int| r2 < r ==> !#[trigger] sfails(assigns@, nodes@, r2, k2),
        decreases assigns@.len() - r,
    {
        let rule = &assigns[r];
        match &rule.scope {
            None => {},
            Some(sel) => {
                let ghost before = m@;
                let res = apply_scope_selector(
                    &mut m,
                    explicit,
                    sel.as_str(),
                    rule.tier.as_str(),
                    nodes,
                );
                match res {
                    Ok(()) => {
                        proof {
                            assert forall|ri: int, k: int|
                                #[trigger] shit(assigns@, nodes@, ri, k) && ri < r + 1 && !is_explicit(
                                    assigns@,
                                    nodes@,
                                    nodes@[k].name@,
                                ) implies maps_to(m@, nodes@[k].name@, assigns@[ri].tier@) by {
                                if ri == r {
                                    assert(!has_key(explicit@, nodes@[k].name@));
                                    assert(scope_hit(sel@, nodes@[k].scope@));
                                } else {
                                    assert(maps_to(before, nodes@[k].name@, assigns@[ri].tier@));
                                }
                            }
                            assert forall|n: Seq<char>, v: Seq<char>|
                                #[trigger] maps_to(m@, n, v) implies !is_explicit(
                                assigns@,
                                nodes@,
                                n,
                            ) && exists|ri: int, k: int|
                                #[trigger] shit(assigns@, nodes@, ri, k) && ri < r + 1
                                    && nodes@[k].name@ == n && assigns@[ri].tier@ == v by {
                                if !maps_to(before, n, v) {
                                    assert(!has_key(explicit@, n));
                                    let k = choose|k: int|
                                        0 <= k < nodes@.len() && scope_hit(
                                            sel@,
                                            #[trigger] nodes@[k].scope@,
                                        ) && nodes@[k].name@ == n;
                                    assert(shit(assigns@, nodes@, r as int, k));
                                }
                            }
                            assert forall|ri: int| 0 <= ri < r + 1 implies !#[trigger] dead_scope_selector(
                                assigns@,
                                nodes@,
                                ri,
                            ) by {
                                if ri == r {
                                    let k = choose|k: int|
                                        0 <= k < nodes@.len() && scope_hit(
                                            sel@,
                                            #[trigger] nodes@[k].scope@,
                                        );
                                    assert(scope_hit(assigns@[ri].scope->0@, nodes@[k].scope@));
                                }
                            }
                            lemma_scope_clean(assigns@, nodes@, r as int, before, nodes@.len() as int);
                            assert forall|r2: int, k2: int| r2 < r + 1 implies !#[trigger] sfails(
                                assigns@,
                                nodes@,
                                r2,
                                k2,
                            ) by {
                                if r2 == r && k2 >= nodes@.len() && sfails(assigns@, nodes@, r2, k2) {
                                    let e = choose|e: SchedErrorView| sfail(assigns@, nodes@, r2, k2, e);
                                }
                            }
                        }
                    },
                    Err(e) => {
                        proof {
                            if e@ is UnknownScopeSelector {
                                assert(dead_scope_selector(assigns@, nodes@, r as int));
                                assert(sfail(assigns@, nodes@, r as int, -1, e@));
                                assert forall|r2: int, k2: int|
                                    spos_lt(r2, k2, r as int, -1) implies !#[trigger] sfails(
                                    assigns@,
                                    nodes@,
                                    r2,
                                    k2,
                                ) by {
                                    if r2 == r && sfails(assigns@, nodes@, r2, k2) {
                                        let e2 = choose|e2: SchedErrorView| sfail(assigns@, nodes@, r2, k2, e2);
                                    }
                                }
                            } else {
                                let (k, prev) = choose|k: int, prev: Seq<char>|
                                    0 <= k < nodes@.len() && scope_hit(
                                        sel@,
                                        #[trigger] nodes@[k].scope@,
                                    ) && !has_key(explicit@, nodes@[k].name@) && #[trigger] maps_to(
                                        before,
                                        nodes@[k].name@,
                                        prev,
                                    ) && prev != rule.tier@
                                        && e@ == SchedErrorView::NodeMatchedByMultipleTiers {
                                        node: nodes@[k].name@,
                                        tier_a: prev,
                                        tier_b: rule.tier@,
                                    } && forall|j: int, v: Seq<char>|
                                        0 <= j < k && scope_hit(sel@, nodes@[j].scope@) && !has_key(
                                            explicit@,
                                            nodes@[j].name@,
                                        ) && #[trigger] maps_to(before, nodes@[j].name@, v) ==> v
                                            == rule.tier@;
                                assert(shit(assigns@, nodes@, r as int, k));
                                assert(scope_clash(
                                    assigns@,
                                    nodes@,
                                    nodes@[k].name@,
                                    prev,
                                    rule.tier@,
                                ));
                                let (r3, k3) = choose|r3: int, k3: int|
                                    #[trigger] shit(assigns@, nodes@, r3, k3) && r3 < r && nodes@[k3].name@
                                        == nodes@[k].name@ && assigns@[r3].tier@ == prev;
                                assert(sclaim(assigns@, nodes@, r3, k3));
                                assert(sclaim(assigns@, nodes@, r as int, k));
                                assert(sfail(assigns@, nodes@, r as int, k, e@));
                                lemma_scope_clean(assigns@, nodes@, r as int, before, k);
                                assert forall|r2: int, k2: int|
                                    spos_lt(r2, k2, r as int, k) implies !#[trigger] sfails(
                                    assigns@,
                                    nodes@,
                                    r2,
                                    k2,
                                ) by {}
                            }
                        }
                        return Err(e);
                    },
                }
            },
        }
        proof {
            if rule.scope is None {
                assert forall|r2: int, k2: int| r2 < r + 1 implies !#[trigger] sfails(
                    assigns@,
                    nodes@,
                    r2,
                    k2,
                ) by {
                    if r2 == r && sfails(assigns@, nodes@, r2, k2) {
                        let e = choose|e: SchedErrorView| sfail(assigns@, nodes@, r2, k2, e);
                    }
                }
            }
        }
        r += 1;
    }
    proof {
        assert forall|r2: int, k2: int| !#[trigger] sfails(assigns@, nodes@, r2, k2) by {
            if sfails(assigns@, nodes@, r2, k2) {
                let e = choose|e: SchedErrorView| sfail(assigns@, nodes@, r2, k2, e);
            }
        }
    }
    Ok(m)
}

// ── Grouping members by tier ──

/// The names of the nodes `0..n` whose tier is `t`, as a multiset.
pub open spec fn members_ms(names: Seq<String>, tiers: Seq<Seq<char>>, t: Seq<char>, n: int) -> Multiset<
    String,
>
    decreases n,
{
    if n <= 0 {
        Multiset::empty()
    } else {
        members_ms(names, tiers, t, n - 1).add(
            if tiers[n - 1] == t {
                Multiset::singleton(names[n - 1])
            } else {
                Multiset::empty()
            },
        )
    }
}

/// `out` groups `names` by `tiers`: one entry per distinct tier, in
/// ascending tier-name order, each holding exactly that tier's names, sorted.
pub open spec fn grouped(
    out: Seq<(String, Vec<String>)>,
    names: Seq<String>,
    tiers: Seq<Seq<char>>,
) -> bool {
    &&& forall|i: int, j: int|
        0 <= i < j < out.len() ==> seq_lt(#[trigger] out[i].0@, #[trigger] out[j].0@)
    &&& forall|i: int| 0 <= i < out.len() ==> tier_listed(tiers, (#[trigger] out[i]).0@)
    &&& forall|k: int| 0 <= k < tiers.len() ==> has_group(out, #[trigger] tiers[k])
    &&& forall|i: int|
        0 <= i < out.len() ==> names_sorted((#[trigger] out[i]).1@) && out[i].1@.to_multiset()
            == members_ms(names, tiers, out[i].0@, names.len() as int)
}

proof fn lemma_members_absent(names: Seq<String>, tiers: Seq<Seq<char>>, t: Seq<char>, n: int)
    requires
        0 <= n <= tiers.len(),
        forall|k: int| 0 <= k < n ==> tiers[k] != t,
    ensures
        members_ms(names, tiers, t, n) =~= Multiset::empty(),
    decreases n,
{
    if n > 0 {
        lemma_members_absent(names, tiers, t, n - 1);
    }
}

pub open spec fn keys_strict(out: Seq<(String, Vec<String>)>) -> bool {
    forall|i: int, j: int|
        0 <= i < j < out.len() ==> seq_lt(#[trigger] out[i].0@, #[trigger] out[j].0@)
}

pub open spec fn tier_listed(tiers: Seq<Seq<char>>, t: Seq<char>) -> bool {
    exists|k: int| 0 <= k < tiers.len() && #[trigger] tiers[k] == t
}

pub open spec fn has_group(out: Seq<(String, Vec<String>)>, t: Seq<char>) -> bool {
    exists|i: int| 0 <= i < out.len() && #[trigger] out[i].0@ == t
}

proof fn lemma_strict_unique(out: Seq<(String, Vec<String>)>, i: int, j: int)
    requires
        keys_strict(out),
        0 <= i < out.len(),
        0 <= j < out.len(),
        out[i].0@ == out[j].0@,
    ensures
        i == j,
{
    if i < j {
        crate::order::lemma_lt_irreflexive(out[i].0@);
    } else if j < i {
        crate::order::lemma_lt_irreflexive(out[i].0@);
    }
}

/// Add `name` to the group keyed `t`, creating the group in order if needed.
fn add_member(out: &mut Vec<(String, Vec<String>)>, t: String, name: String)
    requires
        keys_strict(old(out)@),
    ensures
        keys_strict(final(out)@),
        forall|u: Seq<char>| #[trigger] has_group(final(out)@, u) <==> has_group(old(out)@, u) || u == t@,
        forall|i: int|
            0 <= i < final(out)@.len() && (#[trigger] final(out)@[i]).0@ == t@ ==> if has_group(
                old(out)@,
                t@,
            ) {
                exists|j: int|
                    0 <= j < old(out)@.len() && old(out)@[j].0@ == t@ && final(out)@[i].1@.to_multiset()
                        == (#[trigger] old(out)@[j]).1@.to_multiset().insert(name)
            } else {
                final(out)@[i].1@.to_multiset() == Multiset::<String>::empty().insert(name)
            },
        forall|i: int|
            0 <= i < final(out)@.len() && (#[trigger] final(out)@[i]).0@ != t@ ==> exists|j: int|
                0 <= j < old(out)@.len() && #[trigger] old(out)@[j] == final(out)@[i],
{
    let ghost before = out@;
    let mut p: usize = 0;
    while p < out.len() && crate::order::str_lt(out[p].0.as_str(), t.as_str())
        invariant
            p <= out@.len(),
            out@ == before,
            forall|i: int| 0 <= i < p ==> seq_lt(#[trigger] out@[i].0@, t@),
        decreases out@.len() - p,
    {
        p += 1;
    }
    // Every key from p on is above t, except possibly out[p] itself.
    proof {
        if p < before.len() {
            crate::order::lemma_lt_total(before[p as int].0@, t@);
        }
    }
    if p < out.len() && str_eq(out[p].0.as_str(), t.as_str()) {
        let (key, mut ms) = out.remove(p);
        let ghost old_ms = ms@;
        ms.push(name);
        out.insert(p, (key, ms));
        proof {
            old_ms.to_multiset_ensures();
            assert(out@[p as int].1@ == old_ms.push(name));
            assert forall|i: int| 0 <= i < out@.len() && i != p implies out@[i] == before[i] by {}
            assert forall|i: int, j: int|
                0 <= i < j < out@.len() implies seq_lt(#[trigger] out@[i].0@, #[trigger] out@[j].0@) by {
                assert(out@[i].0@ == before[i].0@);
                assert(out@[j].0@ == before[j].0@);
            }
            assert forall|u: Seq<char>| #[trigger] has_group(out@, u) <==> has_group(before, u) || u
                == t@ by {
                if has_group(out@, u) {
                    let i = choose|i: int| 0 <= i < out@.len() && #[trigger] out@[i].0@ == u;
                    assert(before[i].0@ == u);
                }
                if has_group(before, u) {
                    let i = choose|i: int| 0 <= i < before.len() && #[trigger] before[i].0@ == u;
                    assert(out@[i].0@ == u);
                }
                if u == t@ {
                    assert(out@[p as int].0@ == u);
                }
            }
            assert forall|i: int|
                0 <= i < out@.len() && (#[trigger] out@[i]).0@ == t@ implies i == p by {
                lemma_strict_unique(out@, i, p as int);
            }
            assert(has_group(before, t@)) by {
                assert(before[p as int].0@ == t@);
            }
            assert forall|i: int|
                0 <= i < out@.len() && (#[trigger] out@[i]).0@ == t@ implies exists|j: int|
                    0 <= j < before.len() && before[j].0@ == t@ && out@[i].1@.to_multiset()
                        == (#[trigger] before[j]).1@.to_multiset().insert(name) by {
                assert(before[p as int].1@ == old_ms);
            }
        }
    } else {
        let mut ms: Vec<String> = Vec::new();
        ms.push(name);
        out.insert(p, (t, ms));
        proof {
            let tv = out@[p as int].0@;
            assert(tv == t@);
            assert forall|i: int| 0 <= i < before.len() implies before[i].0@ != t@ by {
                if before[i].0@ == t@ {
                    if i < p {
                        crate::order::lemma_lt_irreflexive(t@);
                    } else if i > p {
                        if seq_lt(t@, before[p as int].0@) {
                            crate::order::lemma_lt_transitive(t@, before[p as int].0@, t@);
                        }
                        crate::order::lemma_lt_irreflexive(t@);
                    }
                }
            }
            assert(!has_group(before, t@));
            Seq::<String>::empty().to_multiset_ensures();
            assert(out@[p as int].1@ =~= Seq::<String>::empty().push(name));
            assert forall|i: int, j: int|
                0 <= i < j < out@.len() implies seq_lt(#[trigger] out@[i].0@, #[trigger] out@[j].0@) by {
                if i < p && j < p {
                    assert(out@[i] == before[i]);
                    assert(out@[j] == before[j]);
                } else if i < p && j == p {
                    assert(out@[i] == before[i]);
                } else if i < p {
                    assert(out@[i] == before[i]);
                    assert(out@[j] == before[j - 1]);
                } else if i == p {
                    assert(out@[j] == before[j - 1]);
                    assert(seq_lt(t@, before[p as int].0@));
                    if j - 1 > p {
                        crate::order::lemma_lt_transitive(t@, before[p as int].0@, before[j - 1].0@);
                    }
                } else {
                    assert(out@[i] == before[i - 1]);
                    assert(out@[j] == before[j - 1]);
                }
            }
            assert forall|u: Seq<char>| #[trigger] has_group(out@, u) <==> has_group(before, u) || u
                == t@ by {
                if has_group(out@, u) {
                    let i = choose|i: int| 0 <= i < out@.len() && #[trigger] out@[i].0@ == u;
                    if i < p {
                        assert(before[i].0@ == u);
                    } else if i > p {
                        assert(before[i - 1].0@ == u);
                    }
                }
                if has_group(before, u) {
                    let i = choose|i: int| 0 <= i < before.len() && #[trigger] before[i].0@ == u;
                    if i < p {
                        assert(out@[i].0@ == u);
                    } else {
                        assert(out@[i + 1].0@ == u);
                    }
                }
                if u == t@ {
                    assert(out@[p as int].0@ == u);
                }
            }
            assert forall|i: int|
                0 <= i < out@.len() && (#[trigger] out@[i]).0@ == t@ implies i == p by {
                if i < p {
                    assert(out@[i] == before[i]);
                } else if i > p {
                    assert(out@[i] == before[i - 1]);
                }
            }
            assert forall|i: int|
                0 <= i < out@.len() && (#[trigger] out@[i]).0@ != t@ implies exists|j: int|
                    0 <= j < before.len() && #[trigger] before[j] == out@[i] by {
                if i < p {
                    assert(out@[i] == before[i]);
                } else {
                    assert(out@[i] == before[i - 1]);
                }
            }
        }
    }
}

/// The character sequences of a list of strings.
pub open spec fn string_views(v: Seq<String>) -> Seq<Seq<char>> {
    Seq::new(v.len(), |i: int| v[i]@)
}

/// Group node names by tier name (see [`grouped`]).
fn group_by_tier(names: &Vec<String>, tiers: &Vec<String>) -> (out: Vec<(String, Vec<String>)>)
    requires
        names@.len() == tiers@.len(),
    ensures
        grouped(out@, names@, string_views(tiers@)),
{
    let ghost tv = string_views(tiers@);
    let mut out: Vec<(String, Vec<String>)> = Vec::new();
    let mut k: usize = 0;
    while k < names.len()
        invariant
            names@.len() == tiers@.len(),
            tv == string_views(tiers@),
            k <= names@.len(),
            keys_strict(out@),
            forall|u: Seq<char>|
                #[trigger] has_group(out@, u) <==> exists|q: int| 0 <= q < k && #[trigger] tv[q] == u,
            forall|i: int|
                0 <= i < out@.len() ==> (#[trigger] out@[i]).1@.to_multiset() == members_ms(
                    names@,
                    tv,
                    out@[i].0@,
                    k as int,
                ),
        decreases names@.len() - k,
    {
        let ghost before = out@;
        let t = tiers[k].clone();
        let name = names[k].clone();
        assert(tv[k as int] == t@);
        add_member(&mut out, t, name);
        proof {
            assert forall|u: Seq<char>| #[trigger] has_group(out@, u) <==> exists|q: int|
                0 <= q < k + 1 && #[trigger] tv[q] == u by {
                if has_group(out@, u) && u != tv[k as int] {
                    assert(has_group(before, u));
                }
            }
            assert forall|i: int| 0 <= i < out@.len() implies (#[trigger] out@[i]).1@.to_multiset()
                == members_ms(names@, tv, out@[i].0@, k + 1) by {
                if out@[i].0@ == tv[k as int] {
                    if has_group(before, tv[k as int]) {
                        let j = choose|j: int|
                            0 <= j < before.len() && before[j].0@ == tv[k as int]
                                && out@[i].1@.to_multiset() == (#[trigger] before[j]).1@.to_multiset().insert(
                                names@[k as int],
                            );
                        assert(members_ms(names@, tv, tv[k as int], k + 1) =~= members_ms(
                            names@,
                            tv,
                            tv[k as int],
                            k as int,
                        ).insert(names@[k as int]));
                    } else {
                        assert forall|q: int| 0 <= q < k implies tv[q] != tv[k as int] by {
                            if tv[q] == tv[k as int] {
                                assert(has_group(before, tv[q]));
                            }
                        }
                        lemma_members_absent(names@, tv, tv[k as int], k as int);
                        assert(members_ms(names@, tv, tv[k as int], k + 1) =~= Multiset::<
                            String,
                        >::empty().insert(names@[k as int]));
                    }
                } else {
                    let j = choose|j: int| 0 <= j < before.len() && #[trigger] before[j] == out@[i];
                    assert(members_ms(names@, tv, out@[i].0@, k + 1) =~= members_ms(
                        names@,
                        tv,
                        out@[i].0@,
                        k as int,
                    ));
                }
            }
        }
        k += 1;
    }
    let ghost g = out@;
    assert(k == names@.len());
    assert(tv.len() == names@.len());
    let r = sort_groups(out);
    proof {
        assert forall|i: int, j: int|
            0 <= i < j < r@.len() implies seq_lt(#[trigger] r@[i].0@, #[trigger] r@[j].0@) by {
            assert(r@[i].0 == g[i].0);
            assert(r@[j].0 == g[j].0);
        }
        assert forall|i: int| 0 <= i < r@.len() implies tier_listed(tv, (#[trigger] r@[i]).0@) by {
            assert(r@[i].0 == g[i].0);
            assert(has_group(g, g[i].0@));
        }
        assert forall|q: int| 0 <= q < tv.len() implies has_group(r@, #[trigger] tv[q]) by {
            assert(has_group(g, tv[q]));
            let i = choose|i: int| 0 <= i < g.len() && #[trigger] g[i].0@ == tv[q];
            assert(r@[i].0 == g[i].0);
        }
        assert forall|i: int| 0 <= i < r@.len() implies names_sorted((#[trigger] r@[i]).1@)
            && r@[i].1@.to_multiset() == members_ms(names@, tv, r@[i].0@, names@.len() as int) by {
            assert(r@[i].0 == g[i].0);
            assert(g[i].1@.to_multiset() == members_ms(names@, tv, g[i].0@, k as int));
        }
        assert(grouped(r@, names@, tv));
    }
    r
}

/// Sort the members of every group, keeping keys and contents.
fn sort_groups(groups: Vec<(String, Vec<String>)>) -> (r: Vec<(String, Vec<String>)>)
    ensures
        r@.len() == groups@.len(),
        forall|j: int|
            0 <= j < r@.len() ==> (#[trigger] r@[j]).0 == groups@[j].0 && names_sorted(r@[j].1@)
                && r@[j].1@.to_multiset() == groups@[j].1@.to_multiset(),
{
    let ghost unsorted = groups@;
    let n = groups.len();
    let mut sorted: Vec<(String, Vec<String>)> = Vec::new();
    let mut rest = groups;
    let mut i: usize = 0;
    while rest.len() > 0
        invariant
            unsorted.len() == n,
            i + rest@.len() == n,
            rest@ == unsorted.skip(i as int),
            sorted@.len() == i,
            forall|j: int|
                0 <= j < i ==> (#[trigger] sorted@[j]).0 == unsorted[j].0 && names_sorted(sorted@[j].1@)
                    && sorted@[j].1@.to_multiset() == unsorted[j].1@.to_multiset(),
        decreases rest@.len(),
    {
        assert(rest@[0] == unsorted[i as int]);
        let (key, ms) = rest.remove(0);
        let ms = crate::order::sort_names(ms);
        sorted.push((key, ms));
        i += 1;
        assert(rest@ =~= unsorted.skip(i as int));
    }
    sorted
}


// ── Binding ──

/// The node names, in input order.
pub open spec fn node_names(ns: Seq<SchedNode>) -> Seq<String> {
    Seq::new(ns.len(), |k: int| ns[k].name)
}

/// The tier of each node, in input order.
pub open spec fn node_tiers(a: Seq<AssignRule>, ns: Seq<SchedNode>) -> Seq<Seq<char>> {
    Seq::new(ns.len(), |k: int| tier_of(a, ns, ns[k].name@))
}

proof fn lemma_justified_is_defect(a: Seq<AssignRule>, ns: Seq<SchedNode>, e: SchedErrorView)
    requires
        binding_error_justified(a, ns, e),
    ensures
        binding_defect(a, ns),
{
    match e {
        SchedErrorView::UnknownNodeSelector { selector } => {
            let (ri, si) = choose|ri: int, si: int|
                #[trigger] dead_node_selector(a, ns, ri, si) && a[ri].nodes@[si]@ == selector;
            assert(dead_node_selector(a, ns, ri, si));
        },
        SchedErrorView::UnknownScopeSelector { selector } => {
            let ri = choose|ri: int| #[trigger] dead_scope_selector(a, ns, ri) && a[ri].scope->0@ == selector;
            assert(dead_scope_selector(a, ns, ri));
        },
        SchedErrorView::NodeMatchedByMultipleTiers { node, tier_a, tier_b } => {
            if explicit_clash(a, ns, node, tier_a, tier_b) {
                assert(exists|n: Seq<char>, x: Seq<char>, y: Seq<char>| explicit_clash(a, ns, n, x, y));
            } else {
                assert(scope_clash(a, ns, node, tier_a, tier_b));
                assert(exists|n: Seq<char>, x: Seq<char>, y: Seq<char>| scope_clash(a, ns, n, x, y));
            }
        },
        _ => {},
    }
}

proof fn lemma_maps_has_key(m: Seq<(String, String)>, k: Seq<char>, v: Seq<char>)
    requires
        maps_to(m, k, v),
    ensures
        has_key(m, k),
{
    let i = choose|i: int| first_key_at(m, k, i) && #[trigger] m[i].1@ == v;
    assert(m[i].0@ == k);
}

proof fn lemma_key_value(m: Seq<(String, String)>, k: Seq<char>) -> (v: Seq<char>)
    requires
        keys_unique(m),
        has_key(m, k),
    ensures
        maps_to(m, k, v),
{
    let i = choose|i: int| 0 <= i < m.len() && #[trigger] m[i].0@ == k;
    assert(first_key_at(m, k, i));
    m[i].1@
}

/// The tier recorded for `name` by the two passes, `default` when neither has one.
fn tier_for(
    assigns: &[AssignRule],
    nodes: &[SchedNode],
    m1: &Vec<(String, String)>,
    m2: &Vec<(String, String)>,
    name: &str,
) -> (r: String)
    requires
        keys_unique(m1@),
        keys_unique(m2@),
        forall|n: Seq<char>| #[trigger] has_key(m1@, n) <==> is_explicit(assigns@, nodes@, n),
        forall|ri: int, si: int, k: int|
            #[trigger] ehit(assigns@, nodes@, ri, si, k) ==> maps_to(
                m1@,
                nodes@[k].name@,
                assigns@[ri].tier@,
            ),
        forall|ri: int, k: int|
            #[trigger] shit(assigns@, nodes@, ri, k) && !is_explicit(
                assigns@,
                nodes@,
                nodes@[k].name@,
            ) ==> maps_to(m2@, nodes@[k].name@, assigns@[ri].tier@),
        forall|n: Seq<char>, v: Seq<char>|
            #[trigger] maps_to(m2@, n, v) ==> !is_explicit(assigns@, nodes@, n) && exists|
                ri: int,
                k: int,
            | #[trigger] shit(assigns@, nodes@, ri, k) && nodes@[k].name@ == n
                && assigns@[ri].tier@ == v,
    ensures
        r@ == tier_of(assigns@, nodes@, name@),
{
    match crate::assoc::assoc_get(m1.as_slice(), name) {
        Some(t) => {
            let r = t.clone();
            proof {
                let i = choose|i: int| first_key_at(m1@, name@, i) && m1@[i].1 == *t;
                assert(maps_to(m1@, name@, t@));
                lemma_maps_has_key(m1@, name@, t@);
                let (ri, si, k) = choose|ri: int, si: int, k: int|
                    #[trigger] ehit(assigns@, nodes@, ri, si, k) && nodes@[k].name@ == name@;
                lemma_maps_to_unique(m1@, name@, t@, assigns@[ri].tier@);
            }
            r
        },
        None => {
            assert(!is_explicit(assigns@, nodes@, name@));
            match crate::assoc::assoc_get(m2.as_slice(), name) {
                Some(t) => {
                    let r = t.clone();
                    proof {
                        let i = choose|i: int| first_key_at(m2@, name@, i) && m2@[i].1 == *t;
                        assert(maps_to(m2@, name@, t@));
                        assert(is_scoped(assigns@, nodes@, name@));
                        let (ri, k) = choose|ri: int, k: int|
                            #[trigger] shit(assigns@, nodes@, ri, k) && nodes@[k].name@ == name@;
                        lemma_maps_to_unique(m2@, name@, t@, assigns@[ri].tier@);
                    }
                    r
                },
                None => {
                    proof {
                        if is_scoped(assigns@, nodes@, name@) {
                            let (ri, k) = choose|ri: int, k: int|
                                #[trigger] shit(assigns@, nodes@, ri, k) && nodes@[k].name@ == name@;
                            lemma_maps_has_key(m2@, name@, assigns@[ri].tier@);
                        }
                    }
                    owned(DEFAULT_TIER)
                },
            }
        },
    }
}

/// Build tier name -> sorted member node names. Unmatched nodes go to
/// [`DEFAULT_TIER`]; explicit node selectors win over scope selectors.
pub fn bind_nodes(assigns: &[AssignRule], nodes: &[SchedNode]) -> (r: Result<
    Vec<(String, Vec<String>)>,
    SchedError,
>)
    ensures
        r is Ok <==> !binding_defect(assigns@, nodes@),
        match r {
            Ok(g) => grouped(g@, node_names(nodes@), node_tiers(assigns@, nodes@)),
            Err(e) => binding_error_justified(assigns@, nodes@, e@),
        },
        r matches Err(e) ==> first_binding_error(assigns@, nodes@, e@),
{
    let m1 = match explicit_pass(assigns, nodes) {
        Ok(m) => m,
        Err(e) => {
            proof {
                lemma_justified_is_defect(assigns@, nodes@, e@);
                let (ri, si, k) = choose|ri: int, si: int, k: int|
                    #[trigger] efail(assigns@, nodes@, ri, si, k, e@) && forall|r2: int, s2: int, k2: int|
                        epos_lt(r2, s2, k2, ri, si, k) ==> !#[trigger] efails(assigns@, nodes@, r2, s2, k2);
                assert(efails(assigns@, nodes@, ri, si, k));
                assert(explicit_fails(assigns@, nodes@));
            }
            return Err(e);
        },
    };
    proof {
        assert forall|n: Seq<char>| #[trigger] has_key(m1@, n) <==> is_explicit(assigns@, nodes@, n) by {
            if has_key(m1@, n) {
                let v = lemma_key_value(m1@, n);
                assert(maps_to(m1@, n, v));
            }
            if is_explicit(assigns@, nodes@, n) {
                let (ri, si, k) = choose|ri: int, si: int, k: int|
                    #[trigger] ehit(assigns@, nodes@, ri, si, k) && nodes@[k].name@ == n;
                lemma_maps_has_key(m1@, n, assigns@[ri].tier@);
            }
        }
    }
    let m2 = match scope_pass(assigns, nodes, &m1) {
        Ok(m) => m,
        Err(e) => {
            proof {
                lemma_justified_is_defect(assigns@, nodes@, e@);
            }
            return Err(e);
        },
    };
    proof {
        let a = assigns@;
        let ns = nodes@;
        assert forall|n: Seq<char>, x: Seq<char>, y: Seq<char>| !explicit_clash(a, ns, n, x, y) by {
            if explicit_clash(a, ns, n, x, y) {
                let (r1, s1, k1) = choose|ri: int, si: int, k: int|
                    #[trigger] ehit(a, ns, ri, si, k) && ns[k].name@ == n && a[ri].tier@ == x;
                let (r2, s2, k2) = choose|ri: int, si: int, k: int|
                    #[trigger] ehit(a, ns, ri, si, k) && ns[k].name@ == n && a[ri].tier@ == y;
                lemma_maps_to_unique(m1@, n, x, y);
            }
        }
        assert forall|n: Seq<char>, x: Seq<char>, y: Seq<char>| !scope_clash(a, ns, n, x, y) by {
            if scope_clash(a, ns, n, x, y) {
                let (r1, k1) = choose|ri: int, k: int|
                    #[trigger] shit(a, ns, ri, k) && ns[k].name@ == n && a[ri].tier@ == x;
                let (r2, k2) = choose|ri: int, k: int|
                    #[trigger] shit(a, ns, ri, k) && ns[k].name@ == n && a[ri].tier@ == y;
                lemma_maps_to_unique(m2@, n, x, y);
            }
        }
        assert(!binding_defect(a, ns));
    }
    let mut names: Vec<String> = Vec::new();
    let mut tiers: Vec<String> = Vec::new();
    let mut k: usize = 0;
    while k < nodes.len()
        invariant
            k <= nodes@.len(),
            keys_unique(m1@),
            keys_unique(m2@),
            forall|n: Seq<char>| #[trigger] has_key(m1@, n) <==> is_explicit(assigns@, nodes@, n),
            forall|ri: int, si: int, j: int|
                #[trigger] ehit(assigns@, nodes@, ri, si, j) ==> maps_to(
                    m1@,
                    nodes@[j].name@,
                    assigns@[ri].tier@,
                ),
            forall|ri: int, j: int|
                #[trigger] shit(assigns@, nodes@, ri, j) && !is_explicit(
                    assigns@,
                    nodes@,
                    nodes@[j].name@,
                ) ==> maps_to(m2@, nodes@[j].name@, assigns@[ri].tier@),
            forall|n: Seq<char>, v: Seq<char>|
                #[trigger] maps_to(m2@, n, v) ==> !is_explicit(assigns@, nodes@, n) && exists|
                    ri: int,
                    j: int,
                | #[trigger] shit(assigns@, nodes@, ri, j) && nodes@[j].name@ == n
                    && assigns@[ri].tier@ == v,
            names@ == node_names(nodes@).take(k as int),
            tiers@.len() == k,
            string_views(tiers@) == node_tiers(assigns@, nodes@).take(k as int),
        decreases nodes@.len() - k,
    {
        let t = tier_for(assigns, nodes, &m1, &m2, nodes[k].name.as_str());
        let ghost before = tiers@;
        names.push(nodes[k].name.clone());
        tiers.push(t);
        proof {
            assert forall|j: int| 0 <= j < k + 1 implies string_views(tiers@)[j] == node_tiers(
                assigns@,
                nodes@,
            )[j] by {
                if j < k {
                    assert(before.len() == k);
                    assert(tiers@[j] == before[j]);
                    assert(string_views(before)[j] == node_tiers(assigns@, nodes@).take(k as int)[j]);
                }
            }
        }
        k += 1;
        assert(names@ =~= node_names(nodes@).take(k as int));
        assert(string_views(tiers@) =~= node_tiers(assigns@, nodes@).take(k as int));
    }
    assert(names@ =~= node_names(nodes@));
    assert(string_views(tiers@) =~= node_tiers(assigns@, nodes@));
    Ok(group_by_tier(&names, &tiers))
}


// ── Lowering the legacy placement trio ──

/// The policy a `sched_class` names; an absent class means `SCHED_OTHER`.
pub open spec fn class_kind(c: Option<String>) -> Option<PosixPolicyKind> {
    match c {
        Some(s) => policy_of(trim(s@)),
        None => Some(PosixPolicyKind::Other),
    }
}

/// A priority narrowed to `i32`, saturating at its bounds.
pub open spec fn clamp_i32(p: i64) -> i32 {
    if p < i32::MIN {
        i32::MIN
    } else if p > i32::MAX {
        i32::MAX
    } else {
        p as i32
    }
}

/// The policy the legacy trio describes (for every kind but `SCHED_DEADLINE`).
pub open spec fn legacy_sched(k: PosixPolicyKind, priority: i64) -> PosixSched {
    match k {
        PosixPolicyKind::Fifo => PosixSched::Fifo { priority: clamp_i32(priority) },
        PosixPolicyKind::Rr => PosixSched::Rr { priority: clamp_i32(priority) },
        PosixPolicyKind::Idle => PosixSched::Idle,
        PosixPolicyKind::Batch => PosixSched::Batch { nice: 0 },
        _ => PosixSched::Other { nice: 0 },
    }
}

/// A single pinned core becomes a one-CPU mask; no core leaves affinity alone.
pub open spec fn legacy_affinity(a: PosixAffinity, core: Option<u32>) -> bool {
    match core {
        Some(c) => a matches PosixAffinity::Cpus { cpus } && cpus@ == seq![c],
        None => a is Inherit,
    }
}

/// The text reported when the legacy trio names `SCHED_DEADLINE`.
pub open spec fn deadline_unauthorable_text() -> Seq<char> {
    "SCHED_DEADLINE (not authorable in the v1 tier schema — use a v2 platform file with a declared budget)"@
}

/// Lowering `spec` fails with `e`.
pub open spec fn lowering_fails_with(spec: TierPlatformSpec, e: PosixError) -> bool {
    match class_kind(spec.sched_class) {
        None => e matches PosixError::UnknownSchedClass { value } && value@ == trim(
            spec.sched_class->0@,
        ),
        Some(PosixPolicyKind::Deadline) => e matches PosixError::UnknownSchedClass { value }
            && value@ == deadline_unauthorable_text(),
        Some(k) => sched_error(legacy_sched(k, spec.priority)) == Some(e),
    }
}

/// Lowering `spec` succeeds.
pub open spec fn lowering_ok(spec: TierPlatformSpec) -> bool {
    match class_kind(spec.sched_class) {
        None => false,
        Some(PosixPolicyKind::Deadline) => false,
        Some(k) => sched_error(legacy_sched(k, spec.priority)) is None,
    }
}

/// `p` is what lowering `spec` yields.
pub open spec fn lowered(spec: TierPlatformSpec, p: PosixPlacement) -> bool {
    &&& class_kind(spec.sched_class) matches Some(k)
    &&& p.sched == legacy_sched(k, spec.priority)
    &&& legacy_affinity(p.affinity, spec.core)
    &&& p.uclamp is None
}

/// Lower a `[tiers.<name>.posix]` sub-table into the typed placement.
///
/// An unrecognized `sched_class` is an error naming the legal values; an
/// absent one means `SCHED_OTHER`. `SCHED_DEADLINE` cannot be authored here:
/// the legacy schema has no per-tier runtime.
pub fn posix_placement_from_spec(spec: &TierPlatformSpec) -> (r: Result<PosixPlacement, PosixError>)
    ensures
        lowering_ok(*spec) <==> r is Ok,
        match r {
            Ok(p) => lowered(*spec, p),
            Err(e) => lowering_fails_with(*spec, e),
        },
{
    let kind = match &spec.sched_class {
        Some(s) => match PosixPolicyKind::parse(s.as_str()) {
            Ok(k) => k,
            Err(e) => return Err(e),
        },
        None => PosixPolicyKind::Other,
    };
    let priority: i32 = if spec.priority < -2147483648i64 {
        -2147483648i32
    } else if spec.priority > 2147483647i64 {
        2147483647i32
    } else {
        spec.priority as i32
    };
    let sched = match kind {
        PosixPolicyKind::Fifo => PosixSched::Fifo { priority },
        PosixPolicyKind::Rr => PosixSched::Rr { priority },
        PosixPolicyKind::Idle => PosixSched::Idle,
        PosixPolicyKind::Batch => PosixSched::Batch { nice: 0 },
        PosixPolicyKind::Other => PosixSched::Other { nice: 0 },
        PosixPolicyKind::Deadline => {
            return Err(
                PosixError::UnknownSchedClass {
                    value: owned(
                        "SCHED_DEADLINE (not authorable in the v1 tier schema — use a v2 platform file with a declared budget)",
                    ),
                },
            );
        },
    };
    assert(sched == legacy_sched(kind, spec.priority));
    let affinity = match spec.core {
        Some(cpu) => {
            let mut cpus: Vec<u32> = Vec::new();
            cpus.push(cpu);
            assert(cpus@ =~= seq![cpu]);
            PosixAffinity::Cpus { cpus }
        },
        None => PosixAffinity::Inherit,
    };
    PosixPlacement::new(sched, affinity)
}

// ── Resolved tiers ──

/// One resolved tier: generic policy plus concrete placement for one target.
#[derive(Clone, Debug, PartialEq, Eq)]
pub struct ResolvedTier {
    pub name: String,
    pub priority: i64,
    pub stack_bytes: Option<u32>,
    pub core: Option<u32>,
    pub sched_class: Option<String>,
    pub preempt_threshold: Option<i64>,
    pub class: Option<String>,
    pub period_us: Option<u64>,
    pub budget_us: Option<u64>,
    /// Effective deadline: the platform override if present, else the generic head.
    pub deadline_us: Option<u64>,
    pub deadline_policy: Option<String>,
    pub spin_period_us: Option<u64>,
    /// Typed `posix` placement; present exactly for the `posix`/`native` targets.
    pub posix: Option<PosixPlacement>,
    /// Member node names, sorted.
    pub members: Vec<String>,
}

/// `t` is the synthesized default tier: every setting absent or zero.
pub open spec fn is_bare_default(t: ResolvedTier) -> bool {
    &&& t.name@ == default_tier_name()
    &&& t.priority == 0
    &&& t.stack_bytes is None
    &&& t.core is None
    &&& t.sched_class is None
    &&& t.preempt_threshold is None
    &&& t.class is None
    &&& t.period_us is None
    &&& t.budget_us is None
    &&& t.deadline_us is None
    &&& t.deadline_policy is None
    &&& t.spin_period_us is None
    &&& t.posix is None
}

impl ResolvedTier {
    /// The synthesized tier for nodes no rule binds, with no settings.
    pub fn default_tier(members: Vec<String>) -> (r: Self)
        ensures
            is_bare_default(r),
            r.members == members,
    {
        ResolvedTier {
            name: owned(DEFAULT_TIER),
            priority: 0,
            stack_bytes: None,
            core: None,
            sched_class: None,
            preempt_threshold: None,
            class: None,
            period_us: None,
            budget_us: None,
            deadline_us: None,
            deadline_policy: None,
            spin_period_us: None,
            posix: None,
            members,
        }
    }
}

/// The ordered tier table for one target.
#[derive(Clone, Debug, PartialEq, Eq)]
pub struct ResolvedTierTable {
    /// Highest priority first; equal priorities by name.
    pub tiers: Vec<ResolvedTier>,
}

impl ResolvedTierTable {
    /// True when the whole system collapsed to the single synthesized default.
    pub fn is_single_tier(&self) -> (r: bool)
        ensures
            r == (self.tiers@.len() == 1 && self.tiers@[0].name@ == default_tier_name()),
    {
        self.tiers.len() == 1 && str_eq(self.tiers[0].name.as_str(), DEFAULT_TIER)
    }
}


// ── Resolution ──

/// The targets that read the typed `posix` placement.
pub open spec fn posix_target(t: Seq<char>) -> bool {
    t == "posix"@ || t == "native"@
}

/// Rule `ri` names a tier that has no definition (the default excepted).
pub open spec fn undefined_tier_rule(tiers: Seq<(String, TierDef)>, a: Seq<AssignRule>, ri: int) -> bool {
    &&& 0 <= ri < a.len()
    &&& a[ri].tier@ != default_tier_name()
    &&& !has_key(tiers, a[ri].tier@)
}

/// Every rule names a defined tier (or the default).
pub open spec fn rules_name_defined_tiers(tiers: Seq<(String, TierDef)>, a: Seq<AssignRule>) -> bool {
    forall|ri: int| !#[trigger] undefined_tier_rule(tiers, a, ri)
}

/// Group `t` is served by the synthesized default tier.
pub open spec fn synthesized(tiers: Seq<(String, TierDef)>, t: Seq<char>) -> bool {
    t == default_tier_name() && !has_key(tiers, t)
}

/// The definition of tier `t`: the first entry with that name.
pub open spec fn def_of(tiers: Seq<(String, TierDef)>, t: Seq<char>) -> TierDef {
    let i = choose|i: int| first_key_at(tiers, t, i);
    tiers[i].1
}

/// The placement tier `t` declares for `target`.
pub open spec fn spec_of(tiers: Seq<(String, TierDef)>, t: Seq<char>, target: Seq<char>) -> Option<
    TierPlatformSpec,
> {
    platform_of(def_of(tiers, t), target)
}

/// Resolving group `t` for `target` fails.
pub open spec fn tier_fails(tiers: Seq<(String, TierDef)>, target: Seq<char>, t: Seq<char>) -> bool {
    &&& !synthesized(tiers, t)
    &&& {
        ||| !has_key(tiers, t)
        ||| spec_of(tiers, t, target) is None
        ||| (posix_target(target) && !lowering_ok(spec_of(tiers, t, target)->0))
    }
}

/// Resolving group `t` for `target` fails with `e`.
pub open spec fn tier_fails_with(
    tiers: Seq<(String, TierDef)>,
    target: Seq<char>,
    t: Seq<char>,
    e: SchedErrorView,
) -> bool {
    &&& !synthesized(tiers, t)
    &&& if !has_key(tiers, t) {
        e == SchedErrorView::UnknownTier { tier: t }
    } else {
        match spec_of(tiers, t, target) {
            None => e == SchedErrorView::MissingPlatformSpec { tier: t, target },
            Some(spec) => posix_target(target) && (e matches SchedErrorView::Posix { tier, source }
                && tier == t && lowering_fails_with(spec, source)),
        }
    }
}

/// `rt` carries the head of `def` and its placement `spec`.
pub open spec fn placed(def: TierDef, spec: TierPlatformSpec, target: Seq<char>, rt: ResolvedTier) -> bool {
    &&& rt.priority == spec.priority
    &&& rt.stack_bytes == spec.stack_bytes
    &&& rt.core == spec.core
    &&& rt.sched_class == spec.sched_class
    &&& rt.preempt_threshold == spec.preempt_threshold
    &&& rt.class == def.class
    &&& rt.period_us == def.period_us
    &&& rt.budget_us == def.budget_us
    &&& rt.deadline_us == (if spec.deadline_us is Some {
        spec.deadline_us
    } else {
        def.deadline_us
    })
    &&& rt.deadline_policy == def.deadline_policy
    &&& rt.spin_period_us == def.spin_period_us
    &&& if posix_target(target) {
        (rt.posix matches Some(p) && lowered(spec, p))
    } else {
        rt.posix is None
    }
}

/// `rt` is the resolution of the group it names.
pub open spec fn tier_resolved(tiers: Seq<(String, TierDef)>, target: Seq<char>, rt: ResolvedTier) -> bool {
    if synthesized(tiers, rt.name@) {
        is_bare_default(rt)
    } else {
        &&& has_key(tiers, rt.name@)
        &&& spec_of(tiers, rt.name@, target) matches Some(spec)
        &&& placed(def_of(tiers, rt.name@), spec, target, rt)
    }
}

/// Highest priority first; equal priorities by name.
pub open spec fn tier_before(x: ResolvedTier, y: ResolvedTier) -> bool {
    x.priority > y.priority || (x.priority == y.priority && seq_lt(x.name@, y.name@))
}

proof fn lemma_first_key_unique<T>(s: Seq<(String, T)>, k: Seq<char>, i: int, j: int)
    requires
        first_key_at(s, k, i),
        first_key_at(s, k, j),
    ensures
        i == j,
{
    if i < j {
        assert(s[i].0@ == k);
    } else if j < i {
        assert(s[j].0@ == k);
    }
}

fn clone_opt_string(o: &Option<String>) -> (r: Option<String>)
    ensures
        r == *o,
{
    match o {
        Some(x) => Some(x.clone()),
        None => None,
    }
}

/// Resolve one group: its definition, its placement for `target`, and (for
/// the `posix`/`native` targets) the typed placement.
fn resolve_group(
    tiers: &Vec<(String, TierDef)>,
    name: String,
    members: Vec<String>,
    target: &str,
) -> (r: Result<ResolvedTier, SchedError>)
    ensures
        r is Ok <==> !tier_fails(tiers@, target@, name@),
        match r {
            Ok(rt) => tier_resolved(tiers@, target@, rt) && rt.name == name && rt.members == members,
            Err(e) => tier_fails_with(tiers@, target@, name@, e@),
        },
{
    if str_eq(name.as_str(), DEFAULT_TIER) && !crate::assoc::assoc_contains(tiers.as_slice(), DEFAULT_TIER) {
        let rt = ResolvedTier::default_tier(members);
        proof {
            assert(name@ == default_tier_name());
        }
        return Ok(ResolvedTier { name, ..rt });
    }
    let def = match crate::assoc::assoc_get(tiers.as_slice(), name.as_str()) {
        Some(d) => d,
        None => {
            return Err(SchedError::UnknownTier { tier: name });
        },
    };
    proof {
        let i = choose|i: int| first_key_at(tiers@, name@, i) && tiers@[i].1 == *def;
        let j = choose|j: int| first_key_at(tiers@, name@, j);
        lemma_first_key_unique(tiers@, name@, i, j);
        assert(def_of(tiers@, name@) == *def);
        assert(has_key(tiers@, name@));
    }
    let spec = match def.platform(target) {
        Some(sp) => sp,
        None => {
            return Err(SchedError::MissingPlatformSpec { tier: name, target: owned(target) });
        },
    };
    let posix = if str_eq(target, "posix") || str_eq(target, "native") {
        match posix_placement_from_spec(spec) {
            Ok(p) => Some(p),
            Err(source) => {
                return Err(SchedError::Posix { tier: name, source });
            },
        }
    } else {
        None
    };
    let deadline_us = match spec.deadline_us {
        Some(d) => Some(d),
        None => def.deadline_us,
    };
    Ok(
        ResolvedTier {
            name,
            priority: spec.priority,
            stack_bytes: spec.stack_bytes,
            core: spec.core,
            sched_class: clone_opt_string(&spec.sched_class),
            preempt_threshold: spec.preempt_threshold,
            class: clone_opt_string(&def.class),
            period_us: def.period_us,
            budget_us: def.budget_us,
            deadline_us,
            deadline_policy: clone_opt_string(&def.deadline_policy),
            spin_period_us: def.spin_period_us,
            posix,
            members,
        },
    )
}


/// Tiers in [`tier_before`] order.
pub open spec fn tiers_ordered(v: Seq<ResolvedTier>) -> bool {
    forall|i: int, j: int| 0 <= i < j < v.len() ==> tier_before(#[trigger] v[i], #[trigger] v[j])
}

proof fn lemma_before_transitive(x: ResolvedTier, y: ResolvedTier, z: ResolvedTier)
    requires
        tier_before(x, y),
        tier_before(y, z),
    ensures
        tier_before(x, z),
{
    if x.priority == y.priority && y.priority == z.priority {
        crate::order::lemma_lt_transitive(x.name@, y.name@, z.name@);
    }
}

/// Two tiers share a sort key: the same priority and the same name.
pub open spec fn same_key(x: ResolvedTier, y: ResolvedTier) -> bool {
    x.priority == y.priority && x.name@ == y.name@
}

proof fn lemma_before_total(x: ResolvedTier, y: ResolvedTier)
    requires
        !same_key(x, y),
    ensures
        tier_before(x, y) || tier_before(y, x),
{
    crate::order::lemma_lt_total(x.name@, y.name@);
}

fn insert_tier(v: &mut Vec<ResolvedTier>, x: ResolvedTier)
    requires
        tiers_ordered(old(v)@),
        forall|i: int| 0 <= i < old(v)@.len() ==> !same_key(#[trigger] old(v)@[i], x),
    ensures
        tiers_ordered(final(v)@),
        final(v)@.to_multiset() == old(v)@.to_multiset().insert(x),
{
    let mut p: usize = 0;
    while p < v.len() && !(x.priority > v[p].priority || (x.priority == v[p].priority
        && crate::order::str_lt(x.name.as_str(), v[p].name.as_str())))
        invariant
            p <= v@.len(),
            forall|i: int| 0 <= i < p ==> !tier_before(x, #[trigger] v@[i]),
        decreases v@.len() - p,
    {
        p += 1;
    }
    let ghost before = v@;
    v.insert(p, x);
    proof {
        let s2 = v@;
        s2.to_multiset_ensures();
        before.to_multiset_ensures();
        assert(s2.remove(p as int) =~= before);
        assert(s2[p as int] == x);
        assert(s2.to_multiset() =~= before.to_multiset().insert(x));
        assert forall|i: int, j: int| 0 <= i < j < s2.len() implies tier_before(
            #[trigger] s2[i],
            #[trigger] s2[j],
        ) by {
            if j < p {
                assert(s2[i] == before[i] && s2[j] == before[j]);
            } else if j == p {
                assert(s2[i] == before[i]);
                lemma_before_total(x, before[i]);
            } else if i < p {
                assert(s2[i] == before[i] && s2[j] == before[j - 1]);
            } else if i == p {
                assert(s2[j] == before[j - 1]);
                assert(tier_before(x, before[p as int]));
                if j - 1 > p {
                    lemma_before_transitive(x, before[p as int], before[j - 1]);
                }
            } else {
                assert(s2[i] == before[i - 1] && s2[j] == before[j - 1]);
            }
        }
    }
}

/// Put tiers in [`tier_before`] order, keeping every one.
pub(crate) fn sort_tiers(v: Vec<ResolvedTier>) -> (r: Vec<ResolvedTier>)
    requires
        forall|i: int, j: int|
            0 <= i < v@.len() && 0 <= j < v@.len() && i != j ==> !same_key(
                #[trigger] v@[i],
                #[trigger] v@[j],
            ),
    ensures
        tiers_ordered(r@),
        r@.to_multiset() == v@.to_multiset(),
{
    let mut out: Vec<ResolvedTier> = Vec::new();
    let mut rest = v;
    let ghost orig = rest@;
    let total = rest.len();
    assert(orig.len() == total);
    let mut i: usize = 0;
    proof {
        assert(orig.take(0) =~= Seq::<ResolvedTier>::empty());
        assert(out@ =~= Seq::<ResolvedTier>::empty());
    }
    while rest.len() > 0
        invariant
            tiers_ordered(out@),
            i + rest@.len() == orig.len(),
            rest@ == orig.skip(i as int),
            i <= orig.len(),
            orig.len() <= usize::MAX,
            out@.to_multiset() == orig.take(i as int).to_multiset(),
            forall|a: int, b: int|
                0 <= a < orig.len() && 0 <= b < orig.len() && a != b ==> !same_key(
                    #[trigger] orig[a],
                    #[trigger] orig[b],
                ),
        decreases rest@.len(),
    {
        assert(rest@[0] == orig[i as int]);
        let x = rest.remove(0);
        proof {
            out@.to_multiset_ensures();
            orig.take(i as int).to_multiset_ensures();
            assert forall|q: int| 0 <= q < out@.len() implies !same_key(#[trigger] out@[q], x) by {
                assert(out@.contains(out@[q]));
                assert(out@.to_multiset().count(out@[q]) > 0);
                assert(orig.take(i as int).to_multiset().count(out@[q]) > 0);
                assert(orig.take(i as int).contains(out@[q]));
                let j = choose|j: int| 0 <= j < i && orig.take(i as int)[j] == out@[q];
                assert(orig[j] == out@[q]);
            }
        }
        insert_tier(&mut out, x);
        proof {
            assert(orig.take(i + 1) =~= orig.take(i as int).push(orig[i as int]));
            orig.take(i as int).to_multiset_ensures();
        }
        i += 1;
        assert(rest@ =~= orig.skip(i as int));
    }
    assert(orig.take(i as int) =~= orig);
    out
}


/// An error from [`resolve`] names the first defect, checked in order: rules
/// naming undefined tiers, then the binding rules (the first failure of the
/// explicit pass, else of the scope pass), then the groups in ascending name
/// order.
pub open spec fn resolve_error_justified(
    tiers: Seq<(String, TierDef)>,
    a: Seq<AssignRule>,
    ns: Seq<SchedNode>,
    target: Seq<char>,
    e: SchedErrorView,
) -> bool {
    ||| exists|ri: int|
        #[trigger] undefined_tier_rule(tiers, a, ri) && (forall|rj: int|
            0 <= rj < ri ==> !#[trigger] undefined_tier_rule(tiers, a, rj)) && e
            == SchedErrorView::UnknownTier { tier: a[ri].tier@ }
    ||| rules_name_defined_tiers(tiers, a) && binding_defect(a, ns) && binding_error_justified(
        a,
        ns,
        e,
    ) && first_binding_error(a, ns, e)
    ||| rules_name_defined_tiers(tiers, a) && !binding_defect(a, ns) && exists|t: Seq<char>|
        #[trigger] tier_listed(node_tiers(a, ns), t) && tier_fails_with(tiers, target, t, e)
            && forall|u: Seq<char>|
            #[trigger] tier_listed(node_tiers(a, ns), u) && seq_lt(u, t) ==> !tier_fails(
                tiers,
                target,
                u,
            )
}

/// Every group resolves.
pub open spec fn groups_resolve(
    tiers: Seq<(String, TierDef)>,
    a: Seq<AssignRule>,
    ns: Seq<SchedNode>,
    target: Seq<char>,
) -> bool {
    forall|k: int| 0 <= k < ns.len() ==> !tier_fails(tiers, target, #[trigger] node_tiers(a, ns)[k])
}

/// `table` holds one resolved tier per group, in [`tier_before`] order.
pub open spec fn table_resolved(
    tiers: Seq<(String, TierDef)>,
    a: Seq<AssignRule>,
    ns: Seq<SchedNode>,
    target: Seq<char>,
    table: Seq<ResolvedTier>,
) -> bool {
    &&& tiers_ordered(table)
    &&& forall|i: int|
        0 <= i < table.len() ==> {
            &&& tier_resolved(tiers, target, #[trigger] table[i])
            &&& tier_listed(node_tiers(a, ns), table[i].name@)
            &&& names_sorted(table[i].members@)
            &&& table[i].members@.to_multiset() == members_ms(
                node_names(ns),
                node_tiers(a, ns),
                table[i].name@,
                ns.len() as int,
            )
        }
    &&& forall|k: int| 0 <= k < ns.len() ==> tier_in_table(table, #[trigger] node_tiers(a, ns)[k])
}

/// Some entry of `table` is the tier called `t`.
pub open spec fn tier_in_table(table: Seq<ResolvedTier>, t: Seq<char>) -> bool {
    exists|i: int| 0 <= i < table.len() && #[trigger] table[i].name@ == t
}

/// Resolve tiers and assign rules against the system's nodes for one target.
pub fn resolve(
    tiers: &Vec<(String, TierDef)>,
    assigns: &[AssignRule],
    nodes: &[SchedNode],
    target: &str,
) -> (r: Result<ResolvedTierTable, SchedError>)
    ensures
        r is Ok <==> (rules_name_defined_tiers(tiers@, assigns@) && !binding_defect(
            assigns@,
            nodes@,
        ) && groups_resolve(tiers@, assigns@, nodes@, target@)),
        match r {
            Ok(table) => table_resolved(tiers@, assigns@, nodes@, target@, table.tiers@),
            Err(e) => resolve_error_justified(tiers@, assigns@, nodes@, target@, e@),
        },
{
    let mut ri: usize = 0;
    while ri < assigns.len()
        invariant
            ri <= assigns@.len(),
            forall|rj: int| 0 <= rj < ri ==> !#[trigger] undefined_tier_rule(tiers@, assigns@, rj),
        decreases assigns@.len() - ri,
    {
        let t = assigns[ri].tier.as_str();
        if !str_eq(t, DEFAULT_TIER) && !crate::assoc::assoc_contains(tiers.as_slice(), t) {
            assert(undefined_tier_rule(tiers@, assigns@, ri as int));
            return Err(SchedError::UnknownTier { tier: assigns[ri].tier.clone() });
        }
        ri += 1;
    }
    assert(rules_name_defined_tiers(tiers@, assigns@)) by {
        assert forall|rj: int| !#[trigger] undefined_tier_rule(tiers@, assigns@, rj) by {
            if 0 <= rj < assigns@.len() {
            }
        }
    }
    let groups = match bind_nodes(assigns, nodes) {
        Ok(g) => g,
        Err(e) => {
            return Err(e);
        },
    };
    let ghost tv = node_tiers(assigns@, nodes@);
    let ghost g0 = groups@;
    let n = groups.len();
    let mut out: Vec<ResolvedTier> = Vec::new();
    let mut rest = groups;
    let mut i: usize = 0;
    while rest.len() > 0
        invariant
            grouped(g0, node_names(nodes@), tv),
            tv == node_tiers(assigns@, nodes@),
            rules_name_defined_tiers(tiers@, assigns@),
            !binding_defect(assigns@, nodes@),
            g0.len() == n,
            i + rest@.len() == n,
            rest@ == g0.skip(i as int),
            out@.len() == i,
            forall|j: int|
                0 <= j < i ==> {
                    &&& tier_resolved(tiers@, target@, #[trigger] out@[j])
                    &&& out@[j].name == g0[j].0
                    &&& out@[j].members == g0[j].1
                    &&& !tier_fails(tiers@, target@, g0[j].0@)
                },
        decreases rest@.len(),
    {
        assert(rest@[0] == g0[i as int]);
        let (name, members) = rest.remove(0);
        match resolve_group(tiers, name, members, target) {
            Ok(rt) => {
                out.push(rt);
            },
            Err(e) => {
                proof {
                    let t = g0[i as int].0@;
                    assert(tier_listed(tv, t));
                    assert forall|u: Seq<char>|
                        #[trigger] tier_listed(tv, u) && seq_lt(u, t) implies !tier_fails(
                        tiers@,
                        target@,
                        u,
                    ) by {
                        let q = choose|q: int| 0 <= q < tv.len() && #[trigger] tv[q] == u;
                        assert(has_group(g0, tv[q]));
                        let j = choose|j: int| 0 <= j < g0.len() && #[trigger] g0[j].0@ == u;
                        if j < i {
                            assert(out@[j].name == g0[j].0);
                        }
                        if j > i {
                            crate::order::lemma_lt_asymmetric(u, t);
                        } else if j == i {
                            crate::order::lemma_lt_irreflexive(t);
                        }
                    }
                }
                return Err(e);
            },
        }
        i += 1;
        assert(rest@ =~= g0.skip(i as int));
    }
    proof {
        assert forall|k: int| 0 <= k < nodes@.len() implies !tier_fails(
            tiers@,
            target@,
            #[trigger] node_tiers(assigns@, nodes@)[k],
        ) by {
            assert(has_group(g0, tv[k]));
            let j = choose|j: int| 0 <= j < g0.len() && #[trigger] g0[j].0@ == tv[k];
            assert(out@[j].name == g0[j].0);
        }
        assert forall|a: int, b: int|
            0 <= a < out@.len() && 0 <= b < out@.len() && a != b implies (#[trigger] out@[a]).name@
            != (#[trigger] out@[b]).name@ by {
            if a < b {
                assert(seq_lt(g0[a].0@, g0[b].0@));
                crate::order::lemma_lt_irreflexive(g0[a].0@);
            } else {
                assert(seq_lt(g0[b].0@, g0[a].0@));
                crate::order::lemma_lt_irreflexive(g0[a].0@);
            }
        }
    }
    let ghost unsorted = out@;
    let sorted = sort_tiers(out);
    proof {
        sorted@.to_multiset_ensures();
        unsorted.to_multiset_ensures();
        assert forall|q: int| 0 <= q < sorted@.len() implies exists|j: int|
            0 <= j < unsorted.len() && unsorted[j] == #[trigger] sorted@[q] by {
            assert(sorted@.contains(sorted@[q]));
            assert(sorted@.to_multiset().count(sorted@[q]) > 0);
            assert(unsorted.to_multiset().count(sorted@[q]) > 0);
            assert(unsorted.contains(sorted@[q]));
        }
        assert forall|q: int| 0 <= q < sorted@.len() implies {
            &&& tier_resolved(tiers@, target@, #[trigger] sorted@[q])
            &&& tier_listed(tv, sorted@[q].name@)
            &&& names_sorted(sorted@[q].members@)
            &&& sorted@[q].members@.to_multiset() == members_ms(
                node_names(nodes@),
                tv,
                sorted@[q].name@,
                nodes@.len() as int,
            )
        } by {
            let j = choose|j: int| 0 <= j < unsorted.len() && unsorted[j] == #[trigger] sorted@[q];
            assert(g0[j] == g0[j]);
            assert(tier_listed(tv, (g0[j]).0@));
            assert(names_sorted(g0[j].1@));
        }
        assert forall|k: int| 0 <= k < nodes@.len() implies tier_in_table(
            sorted@,
            #[trigger] node_tiers(assigns@, nodes@)[k],
        ) by {
            assert(has_group(g0, tv[k]));
            let j = choose|j: int| 0 <= j < g0.len() && #[trigger] g0[j].0@ == tv[k];
            assert(unsorted.contains(unsorted[j]));
            assert(unsorted.to_multiset().count(unsorted[j]) > 0);
            assert(sorted@.to_multiset().count(unsorted[j]) > 0);
            assert(sorted@.contains(unsorted[j]));
            let q = choose|q: int| 0 <= q < sorted@.len() && sorted@[q] == unsorted[j];
            assert(sorted@[q].name@ == tv[k]);
        }
    }
    assert(table_resolved(tiers@, assigns@, nodes@, target@, sorted@));
    Ok(ResolvedTierTable { tiers: sorted })
}

} // verus!
