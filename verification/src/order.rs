//! The ordering of names: `String`'s `Ord`, which compares character by
//! character (UTF-8 byte order and code point order agree).

use vstd::prelude::*;
use crate::text::to_chars;

verus! {

/// `a < b` as `String` orders them.
pub open spec fn seq_lt(a: Seq<char>, b: Seq<char>) -> bool
    decreases a.len(),
{
    if a.len() == 0 {
        b.len() > 0
    } else if b.len() == 0 {
        false
    } else if a[0] != b[0] {
        (a[0] as int) < (b[0] as int)
    } else {
        seq_lt(a.drop_first(), b.drop_first())
    }
}

pub proof fn lemma_lt_irreflexive(a: Seq<char>)
    ensures
        !seq_lt(a, a),
    decreases a.len(),
{
    if a.len() > 0 {
        lemma_lt_irreflexive(a.drop_first());
    }
}

pub proof fn lemma_lt_asymmetric(a: Seq<char>, b: Seq<char>)
    ensures
        !(seq_lt(a, b) && seq_lt(b, a)),
    decreases a.len(),
{
    if a.len() > 0 && b.len() > 0 && a[0] == b[0] {
        lemma_lt_asymmetric(a.drop_first(), b.drop_first());
    }
}

pub proof fn lemma_lt_transitive(a: Seq<char>, b: Seq<char>, c: Seq<char>)
    requires
        seq_lt(a, b),
        seq_lt(b, c),
    ensures
        seq_lt(a, c),
    decreases a.len(),
{
    if a.len() > 0 && b.len() > 0 && c.len() > 0 && a[0] == b[0] && b[0] == c[0] {
        lemma_lt_transitive(a.drop_first(), b.drop_first(), c.drop_first());
    }
}

/// Distinct sequences are ordered one way or the other.
pub proof fn lemma_lt_total(a: Seq<char>, b: Seq<char>)
    ensures
        a == b || seq_lt(a, b) || seq_lt(b, a),
    decreases a.len(),
{
    if a.len() > 0 && b.len() > 0 {
        if a[0] == b[0] {
            lemma_lt_total(a.drop_first(), b.drop_first());
            if a.drop_first() == b.drop_first() {
                assert(a =~= seq![a[0]] + a.drop_first());
                assert(b =~= seq![b[0]] + b.drop_first());
            }
        } else {
            assert((a[0] as int) != (b[0] as int));
        }
    } else if a.len() == 0 && b.len() == 0 {
        assert(a =~= b);
    }
}

/// `a < b` on character slices.
pub fn chars_lt(a: &[char], b: &[char]) -> (r: bool)
    ensures
        r == seq_lt(a@, b@),
{
    let mut i: usize = 0;
    assert(a@.skip(0) =~= a@);
    assert(b@.skip(0) =~= b@);
    while i < a.len() && i < b.len() && a[i] == b[i]
        invariant
            i <= a@.len(),
            i <= b@.len(),
            seq_lt(a@, b@) == seq_lt(a@.skip(i as int), b@.skip(i as int)),
        decreases a@.len() - i,
    {
        assert(a@.skip(i as int).drop_first() =~= a@.skip(i + 1));
        assert(b@.skip(i as int).drop_first() =~= b@.skip(i + 1));
        i += 1;
    }
    if i == a.len() {
        i < b.len()
    } else if i == b.len() {
        false
    } else {
        a[i] < b[i]
    }
}

/// `a < b` as `String` orders them.
pub fn str_lt(a: &str, b: &str) -> (r: bool)
    ensures
        r == seq_lt(a@, b@),
{
    let av = to_chars(a);
    let bv = to_chars(b);
    chars_lt(av.as_slice(), bv.as_slice())
}

/// Names in non-decreasing order.
pub open spec fn names_sorted(s: Seq<String>) -> bool {
    forall|i: int, j: int| 0 <= i < j < s.len() ==> !seq_lt(#[trigger] s[j]@, #[trigger] s[i]@)
}

/// Insert `x` into sorted `v`, after every name not greater than it.
pub fn insert_sorted(v: &mut Vec<String>, x: String)
    requires
        names_sorted(old(v)@),
    ensures
        names_sorted(final(v)@),
        final(v)@.to_multiset() == old(v)@.to_multiset().insert(x),
{
    let mut p: usize = 0;
    while p < v.len() && !str_lt(x.as_str(), v[p].as_str())
        invariant
            p <= v@.len(),
            forall|i: int| 0 <= i < p ==> !seq_lt(x@, #[trigger] v@[i]@),
        decreases v@.len() - p,
    {
        p += 1;
    }
    let ghost before = v@;
    proof {
        before.insert_ensures(p as int, x);
    }
    v.insert(p, x);
    assert(v@ == before.insert(p as int, x));
    proof {
        let s2 = v@;
        s2.to_multiset_ensures();
        before.to_multiset_ensures();
        assert(s2.remove(p as int) =~= before);
        assert(s2[p as int] == x);
        assert(s2.contains(x));
        assert(s2.to_multiset() =~= before.to_multiset().insert(x));
    }
    assert forall|i: int, j: int| 0 <= i < j < v@.len() implies !seq_lt(
        #[trigger] v@[j]@,
        #[trigger] v@[i]@,
    ) by {
        if j < p {
        } else if j == p {
            assert(v@[i] == before[i]);
        } else if i < p {
            assert(v@[j] == before[j - 1]);
            assert(v@[i] == before[i]);
            if seq_lt(v@[j]@, v@[i]@) {
                assert(i < j - 1 || i == j - 1);
            }
        } else if i == p {
            assert(v@[j] == before[j - 1]);
            assert(seq_lt(x@, before[p as int]@));
            if seq_lt(before[j - 1]@, x@) {
                if j - 1 == p {
                    lemma_lt_asymmetric(x@, before[p as int]@);
                } else {
                    lemma_lt_transitive(before[j - 1]@, x@, before[p as int]@);
                }
            }
        } else {
            assert(v@[j] == before[j - 1]);
            assert(v@[i] == before[i - 1]);
        }
    }
}

/// Sort names into non-decreasing order, keeping every one.
pub fn sort_names(v: Vec<String>) -> (r: Vec<String>)
    ensures
        names_sorted(r@),
        r@.to_multiset() == v@.to_multiset(),
{
    let mut out: Vec<String> = Vec::new();
    let n = v.len();
    let mut rest = v;
    let ghost orig = rest@;
    let mut i: usize = 0;
    proof {
        orig.to_multiset_ensures();
        assert(orig.take(0) =~= Seq::<String>::empty());
        assert(out@ =~= Seq::<String>::empty());
    }
    while rest.len() > 0
        invariant
            names_sorted(out@),
            i + rest@.len() == orig.len(),
            rest@ == orig.skip(i as int),
            i <= orig.len(),
            out@.to_multiset() == orig.take(i as int).to_multiset(),
            orig.len() <= usize::MAX,
        decreases rest@.len(),
    {
        assert(rest@[0] == orig[i as int]);
        let x = rest.remove(0);
        insert_sorted(&mut out, x);
        proof {
            assert(orig.take(i + 1) =~= orig.take(i as int).push(orig[i as int]));
            orig.take(i as int).to_multiset_ensures();
        }
        i += 1;
        assert(rest@ =~= orig.skip(i as int));
    }
    assert(orig.take(i as int) =~= orig);
    out
}

} // verus!
