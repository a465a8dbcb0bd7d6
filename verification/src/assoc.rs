//! Name-keyed tables, kept as ordered `(name, value)` lists.
//!
//! Every table in the manifest and scheduling models is keyed by an
//! author-chosen name. They are held as lists so that the verified code can
//! state exactly what each operation keeps, drops or finds.

use vstd::prelude::*;
use crate::text::str_eq;

verus! {

/// Does some entry carry the name `k`?
pub open spec fn has_key<T>(s: Seq<(String, T)>, k: Seq<char>) -> bool {
    exists|i: int| 0 <= i < s.len() && #[trigger] s[i].0@ == k
}

/// `i` is the first entry named `k`.
pub open spec fn first_key_at<T>(s: Seq<(String, T)>, k: Seq<char>, i: int) -> bool {
    &&& 0 <= i < s.len()
    &&& s[i].0@ == k
    &&& forall|j: int| 0 <= j < i ==> #[trigger] s[j].0@ != k
}

/// No two entries share a name.
pub open spec fn keys_unique<T>(s: Seq<(String, T)>) -> bool {
    forall|i: int, j: int| 0 <= i < s.len() && 0 <= j < s.len() && i != j ==> s[i].0@ != s[j].0@
}

/// The names of the entries, in order.
pub open spec fn key_views<T>(s: Seq<(String, T)>) -> Seq<Seq<char>> {
    s.map_values(|e: (String, T)| e.0@)
}

/// The first entry named `k` carries the name-value `v`.
pub open spec fn maps_to(m: Seq<(String, String)>, k: Seq<char>, v: Seq<char>) -> bool {
    exists|i: int| first_key_at(m, k, i) && #[trigger] m[i].1@ == v
}

/// The value of the first entry named `key`.
pub fn assoc_get<'a, T>(entries: &'a [(String, T)], key: &str) -> (r: Option<&'a T>)
    ensures
        match r {
            Some(v) => exists|i: int| first_key_at(entries@, key@, i) && entries@[i].1 == *v,
            None => !has_key(entries@, key@),
        },
{
    let mut i: usize = 0;
    while i < entries.len()
        invariant
            i <= entries@.len(),
            forall|j: int| 0 <= j < i ==> #[trigger] entries@[j].0@ != key@,
        decreases entries@.len() - i,
    {
        if str_eq(entries[i].0.as_str(), key) {
            assert(first_key_at(entries@, key@, i as int));
            return Some(&entries[i].1);
        }
        i += 1;
    }
    None
}

/// The position of the first entry named `key`.
pub fn assoc_position<T>(entries: &[(String, T)], key: &str) -> (r: Option<usize>)
    ensures
        match r {
            Some(i) => first_key_at(entries@, key@, i as int),
            None => !has_key(entries@, key@),
        },
{
    let mut i: usize = 0;
    while i < entries.len()
        invariant
            i <= entries@.len(),
            forall|j: int| 0 <= j < i ==> #[trigger] entries@[j].0@ != key@,
        decreases entries@.len() - i,
    {
        if str_eq(entries[i].0.as_str(), key) {
            return Some(i);
        }
        i += 1;
    }
    None
}

/// Is some entry named `key`?
pub fn assoc_contains<T>(entries: &[(String, T)], key: &str) -> (r: bool)
    ensures
        r == has_key(entries@, key@),
{
    assoc_position(entries, key).is_some()
}

/// Does the list of names contain `name`?
pub fn names_contain(names: &[String], name: &str) -> (r: bool)
    ensures
        r == names@.map_values(|s: String| s@).contains(name@),
{
    let ghost views = names@.map_values(|s: String| s@);
    let mut i: usize = 0;
    while i < names.len()
        invariant
            i <= names@.len(),
            views == names@.map_values(|s: String| s@),
            forall|j: int| 0 <= j < i ==> names@[j]@ != name@,
        decreases names@.len() - i,
    {
        if str_eq(names[i].as_str(), name) {
            assert(views[i as int] == name@);
            return true;
        }
        i += 1;
    }
    assert(!views.contains(name@)) by {
        if views.contains(name@) {
            let k = choose|k: int| 0 <= k < views.len() && views[k] == name@;
            assert(names@[k]@ == name@);
        }
    }
    false
}

} // verus!
