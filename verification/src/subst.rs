//! `$(var ...)` substitution for manifest arguments.
//!
//! Argument tables are name-keyed lists; a caller's table holds each name
//! at most once.

use vstd::prelude::*;
use crate::text::{push_str, push_char, push_debug_quoted, debug_quoted, trim, to_chars, owned};
use crate::assoc::{has_key, first_key_at, keys_unique, maps_to};
use crate::decls::{ArgDecl, valid_values_of};
use crate::order::seq_lt;

verus! {

/// Error during substitution.
#[derive(Debug, Clone, PartialEq, Eq)]
pub enum SubstError {
    Unresolved { name: String },
    RequiredArgMissing { name: String },
    InvalidArgValue { name: String, value: String, expected: String },
    Malformed { expr: String },
}

/// What a [`SubstError`] says, as values.
pub enum SubstErrorView {
    Unresolved { name: Seq<char> },
    RequiredArgMissing { name: Seq<char> },
    InvalidArgValue { name: Seq<char>, value: Seq<char>, expected: Seq<char> },
    Malformed { expr: Seq<char> },
}

impl View for SubstError {
    type V = SubstErrorView;

    open spec fn view(&self) -> SubstErrorView {
        match self {
            SubstError::Unresolved { name } => SubstErrorView::Unresolved { name: name@ },
            SubstError::RequiredArgMissing { name } => SubstErrorView::RequiredArgMissing {
                name: name@,
            },
            SubstError::InvalidArgValue { name, value, expected } =>
                SubstErrorView::InvalidArgValue {
                name: name@,
                value: value@,
                expected: expected@,
            },
            SubstError::Malformed { expr } => SubstErrorView::Malformed { expr: expr@ },
        }
    }
}

/// The human-readable text of a [`SubstError`].
pub open spec fn subst_error_text(e: SubstErrorView) -> Seq<char> {
    match e {
        SubstErrorView::Unresolved { name } => "unresolved variable: $(var "@ + name
            + ") — not in args"@,
        SubstErrorView::RequiredArgMissing { name } => "required arg '"@ + name
            + "' has no default and was not provided"@,
        SubstErrorView::InvalidArgValue { name, value, expected } => "arg '"@ + name
            + "' has invalid value '"@ + value + "' — expected one of "@ + expected,
        SubstErrorView::Malformed { expr } => "malformed substitution: "@ + expr,
    }
}

impl SubstError {
    /// The message this error reads as.
    pub fn message(&self) -> (r: String)
        ensures
            r@ == subst_error_text(self@),
    {
        let mut s = String::new();
        match self {
            SubstError::Unresolved { name } => {
                push_str(&mut s, "unresolved variable: $(var ");
                push_str(&mut s, name.as_str());
                push_str(&mut s, ") — not in args");
            },
            SubstError::RequiredArgMissing { name } => {
                push_str(&mut s, "required arg '");
                push_str(&mut s, name.as_str());
                push_str(&mut s, "' has no default and was not provided");
            },
            SubstError::InvalidArgValue { name, value, expected } => {
                push_str(&mut s, "arg '");
                push_str(&mut s, name.as_str());
                push_str(&mut s, "' has invalid value '");
                push_str(&mut s, value.as_str());
                push_str(&mut s, "' — expected one of ");
                push_str(&mut s, expected.as_str());
            },
            SubstError::Malformed { expr } => {
                push_str(&mut s, "malformed substitution: ");
                push_str(&mut s, expr.as_str());
            },
        }
        assert(s@ =~= subst_error_text(self@));
        s
    }
}

// ── Lookup ──

/// The value the table gives `k`: that of its first entry named `k`.
pub open spec fn value_of(args: Seq<(String, String)>, k: Seq<char>) -> Option<Seq<char>> {
    if has_key(args, k) {
        let i = choose|i: int| first_key_at(args, k, i);
        Some(args[i].1@)
    } else {
        None
    }
}

proof fn lemma_first_key_unique(s: Seq<(String, String)>, k: Seq<char>, i: int, j: int)
    requires
        first_key_at(s, k, i),
        first_key_at(s, k, j),
    ensures
        i == j,
{
    if i < j {
        assert(s[i].0@ == k);
    } else if j < i {
        assert(s[j].0@ == k);
    }
}

/// The value of `key` in `args`, cloned.
fn lookup(args: &Vec<(String, String)>, key: &str) -> (r: Option<String>)
    ensures
        match r {
            Some(v) => value_of(args@, key@) == Some(v@),
            None => value_of(args@, key@) is None,
        },
{
    match crate::assoc::assoc_get(args.as_slice(), key) {
        Some(v) => {
            proof {
                let i = choose|i: int| first_key_at(args@, key@, i) && args@[i].1 == *v;
                assert(has_key(args@, key@));
                let j = choose|j: int| first_key_at(args@, key@, j);
                lemma_first_key_unique(args@, key@, i, j);
            }
            Some(v.clone())
        },
        None => None,
    }
}

// ── `$(var name)` ──

/// `$(var ` starts at `j`.
pub open spec fn var_at(s: Seq<char>, j: int) -> bool {
    &&& 0 <= j && j + 6 <= s.len()
    &&& s[j] == '$' && s[j + 1] == '(' && s[j + 2] == 'v' && s[j + 3] == 'a'
    &&& s[j + 4] == 'r' && s[j + 5] == ' '
}

/// The first `$(var ` at or after `i`.
pub open spec fn find_var(s: Seq<char>, i: int) -> Option<int>
    decreases s.len() - i,
{
    if i < 0 || i + 6 > s.len() {
        None
    } else if var_at(s, i) {
        Some(i)
    } else {
        find_var(s, i + 1)
    }
}

/// The first `)` at or after `i`.
pub open spec fn find_close(s: Seq<char>, i: int) -> Option<int>
    decreases s.len() - i,
{
    if i < 0 || i >= s.len() {
        None
    } else if s[i] == ')' {
        Some(i)
    } else {
        find_close(s, i + 1)
    }
}

pub proof fn lemma_find_var(s: Seq<char>, i: int)
    requires
        0 <= i,
    ensures
        find_var(s, i) matches Some(j) ==> i <= j && var_at(s, j),
    decreases s.len() - i,
{
    if i + 6 <= s.len() && !var_at(s, i) {
        lemma_find_var(s, i + 1);
    }
}

pub proof fn lemma_find_close(s: Seq<char>, i: int)
    requires
        0 <= i,
    ensures
        find_close(s, i) matches Some(j) ==> i <= j < s.len() && s[j] == ')',
    decreases s.len() - i,
{
    if 0 <= i < s.len() && s[i] != ')' {
        lemma_find_close(s, i + 1);
    }
}

/// Substituting `s` from position `i` on.
pub open spec fn subst_from(s: Seq<char>, i: int, args: Seq<(String, String)>) -> Result<
    Seq<char>,
    SubstErrorView,
>
    decreases s.len() - i,
{
    if i < 0 || i > s.len() {
        Ok(Seq::empty())
    } else {
        proof {
            lemma_find_var(s, i);
        }
        match find_var(s, i) {
            None => Ok(s.subrange(i, s.len() as int)),
            Some(st) => {
                proof {
                    lemma_find_close(s, st + 6);
                }
                match find_close(s, st + 6) {
                    None => Err(SubstErrorView::Malformed { expr: s.subrange(st, s.len() as int) }),
                    Some(e) => {
                        let name = trim(s.subrange(st + 6, e));
                        match value_of(args, name) {
                            None => Err(SubstErrorView::Unresolved { name }),
                            Some(v) => match subst_from(s, e + 1, args) {
                                Ok(rest) => Ok(s.subrange(i, st) + v + rest),
                                Err(x) => Err(x),
                            },
                        }
                    },
                }
            },
        }
    }
}

/// Replace every `$(var name)` with the value of `name`.
pub open spec fn substituted(s: Seq<char>, args: Seq<(String, String)>) -> Result<
    Seq<char>,
    SubstErrorView,
> {
    subst_from(s, 0, args)
}

fn find_var_exec(v: &[char], i: usize) -> (r: Option<usize>)
    requires
        i <= v@.len(),
    ensures
        match r {
            Some(j) => find_var(v@, i as int) == Some(j as int),
            None => find_var(v@, i as int) is None,
        },
{
    let n = v.len();
    let mut j = i;
    while j < n && n - j >= 6
        invariant
            i <= j <= n == v@.len(),
            find_var(v@, i as int) == find_var(v@, j as int),
        decreases n - j,
    {
        if v[j] == '$' && v[j + 1] == '(' && v[j + 2] == 'v' && v[j + 3] == 'a' && v[j + 4] == 'r'
            && v[j + 5] == ' ' {
            return Some(j);
        }
        j += 1;
    }
    None
}

fn find_close_exec(v: &[char], i: usize) -> (r: Option<usize>)
    requires
        i <= v@.len(),
    ensures
        match r {
            Some(j) => find_close(v@, i as int) == Some(j as int),
            None => find_close(v@, i as int) is None,
        },
{
    let mut j = i;
    while j < v.len()
        invariant
            i <= j <= v@.len(),
            find_close(v@, i as int) == find_close(v@, j as int),
        decreases v@.len() - j,
    {
        if v[j] == ')' {
            return Some(j);
        }
        j += 1;
    }
    None
}

fn push_range(out: &mut String, v: &[char], lo: usize, hi: usize)
    requires
        lo <= hi <= v@.len(),
    ensures
        final(out)@ == old(out)@ + v@.subrange(lo as int, hi as int),
{
    let ghost start = out@;
    let mut i = lo;
    while i < hi
        invariant
            lo <= i <= hi <= v@.len(),
            out@ == start + v@.subrange(lo as int, i as int),
        decreases hi - i,
    {
        push_char(out, v[i]);
        i += 1;
        assert(out@ =~= start + v@.subrange(lo as int, i as int));
    }
}

fn range_string(v: &[char], lo: usize, hi: usize) -> (s: String)
    requires
        lo <= hi <= v@.len(),
    ensures
        s@ == v@.subrange(lo as int, hi as int),
{
    let mut s = String::new();
    push_range(&mut s, v, lo, hi);
    assert(s@ =~= v@.subrange(lo as int, hi as int));
    s
}

/// Replace all `$(var name)` in a string with values from the args table.
pub fn substitute_str(s: &str, args: &Vec<(String, String)>) -> (r: Result<String, SubstError>)
    ensures
        match r {
            Ok(t) => substituted(s@, args@) == Ok::<Seq<char>, SubstErrorView>(t@),
            Err(e) => substituted(s@, args@) == Err::<Seq<char>, SubstErrorView>(e@),
        },
{
    let v = to_chars(s);
    let n = v.len();
    let mut out = String::new();
    let mut i: usize = 0;
    assert(out@ =~= Seq::<char>::empty());
    loop
        invariant
            i <= n == v@.len(),
            v@ == s@,
            match subst_from(v@, i as int, args@) {
                Ok(rest) => substituted(s@, args@) == Ok::<Seq<char>, SubstErrorView>(out@ + rest),
                Err(x) => substituted(s@, args@) == Err::<Seq<char>, SubstErrorView>(x),
            },
        decreases n - i,
    {
        proof {
            lemma_find_var(v@, i as int);
        }
        match find_var_exec(v.as_slice(), i) {
            None => {
                push_range(&mut out, v.as_slice(), i, n);
                return Ok(out);
            },
            Some(st) => {
                proof {
                    lemma_find_close(v@, st + 6);
                }
                match find_close_exec(v.as_slice(), st + 6) {
                    None => {
                        let expr = range_string(v.as_slice(), st, n);
                        return Err(SubstError::Malformed { expr });
                    },
                    Some(e) => {
                        let (a, b) = crate::decls::trimmed_range(v.as_slice(), st + 6, e);
                        let name = range_string(v.as_slice(), a, b);
                        match lookup(args, name.as_str()) {
                            None => {
                                return Err(SubstError::Unresolved { name });
                            },
                            Some(val) => {
                                let ghost before = out@;
                                push_range(&mut out, v.as_slice(), i, st);
                                push_str(&mut out, val.as_str());
                                proof {
                                    assert(out@ == before + v@.subrange(i as int, st as int) + val@);
                                    match subst_from(v@, e + 1, args@) {
                                        Ok(rest) => {
                                            assert(before + (v@.subrange(i as int, st as int) + val@
                                                + rest) =~= out@ + rest);
                                        },
                                        Err(x) => {},
                                    }
                                }
                                i = e + 1;
                            },
                        }
                    },
                }
            },
        }
    }
}

/// Substitute every string of a list; the first failure wins.
pub fn substitute_vec(v: &Vec<String>, args: &Vec<(String, String)>) -> (r: Result<
    Vec<String>,
    SubstError,
>)
    ensures
        match r {
            Ok(out) => out@.len() == v@.len() && forall|i: int|
                0 <= i < v@.len() ==> substituted(v@[i]@, args@) == Ok::<
                    Seq<char>,
                    SubstErrorView,
                >((#[trigger] out@[i])@),
            Err(e) => exists|i: int|
                0 <= i < v@.len() && substituted(#[trigger] v@[i]@, args@) == Err::<
                    Seq<char>,
                    SubstErrorView,
                >(e@) && forall|j: int| 0 <= j < i ==> (#[trigger] substituted(v@[j]@, args@)) is Ok,
        },
{
    let mut out: Vec<String> = Vec::new();
    let mut i: usize = 0;
    while i < v.len()
        invariant
            i <= v@.len(),
            out@.len() == i,
            forall|j: int|
                0 <= j < i ==> substituted(v@[j]@, args@) == Ok::<Seq<char>, SubstErrorView>(
                    (#[trigger] out@[j])@,
                ),
        decreases v@.len() - i,
    {
        match substitute_str(v[i].as_str(), args) {
            Ok(t) => out.push(t),
            Err(e) => {
                assert forall|j: int| 0 <= j < i implies (#[trigger] substituted(v@[j]@, args@)) is Ok by {
                    assert(substituted(v@[j]@, args@) == Ok::<Seq<char>, SubstErrorView>(out@[j]@));
                }
                return Err(e);
            },
        }
        i += 1;
    }
    Ok(out)
}

/// Substitute an optional string.
pub fn substitute_opt(o: &Option<String>, args: &Vec<(String, String)>) -> (r: Result<
    Option<String>,
    SubstError,
>)
    ensures
        match o {
            None => r == Ok::<Option<String>, SubstError>(None),
            Some(s) => match r {
                Ok(t) => t matches Some(x) && substituted(s@, args@) == Ok::<
                    Seq<char>,
                    SubstErrorView,
                >(x@),
                Err(e) => substituted(s@, args@) == Err::<Seq<char>, SubstErrorView>(e@),
            },
        },
{
    match o {
        Some(s) => match substitute_str(s.as_str(), args) {
            Ok(t) => Ok(Some(t)),
            Err(e) => Err(e),
        },
        None => Ok(None),
    }
}

} // verus!

verus! {

// ── Resolving arguments ──

/// `[a, b, ...]` as `{:?}` renders a list of strings.
pub open spec fn debug_list(vs: Seq<Seq<char>>) -> Seq<char> {
    "["@ + debug_items(vs) + "]"@
}

pub open spec fn debug_items(vs: Seq<Seq<char>>) -> Seq<char>
    decreases vs.len(),
{
    if vs.len() == 0 {
        Seq::empty()
    } else if vs.len() == 1 {
        debug_quoted(vs[0])
    } else {
        debug_items(vs.drop_last()) + ", "@ + debug_quoted(vs.last())
    }
}

/// The caller supplies a value for the declared argument `name`, and the
/// value is one the declaration allows.
pub open spec fn arg_satisfied(decl: ArgDecl, caller: Seq<(String, String)>, name: Seq<char>) -> bool {
    &&& value_of(caller, name) is Some
    &&& (valid_values_of(decl) matches Some(vs) ==> vs.contains(value_of(caller, name)->0))
}

/// Which values satisfy a declared argument: any value for a free string,
/// either `true` or `false` for a boolean, any one of the listed values for
/// a choice; and no argument is satisfied without a value.
pub proof fn lemma_accepted_values(decl: ArgDecl, caller: Seq<(String, String)>, name: Seq<char>)
    ensures
        value_of(caller, name) is None ==> !arg_satisfied(decl, caller, name),
        value_of(caller, name) matches Some(v) ==> match decl {
            ArgDecl::String => arg_satisfied(decl, caller, name),
            ArgDecl::Bool => arg_satisfied(decl, caller, name) <==> (v == "true"@ || v == "false"@),
            ArgDecl::Choices(c) => arg_satisfied(decl, caller, name) <==> exists|i: int|
                0 <= i < c@.len() && (#[trigger] c@[i])@ == v,
        },
{
    if let Some(v) = value_of(caller, name) {
        match decl {
            ArgDecl::String => {},
            ArgDecl::Bool => {
                let vs = seq!["true"@, "false"@];
                if v == "true"@ {
                    assert(vs[0] == v);
                }
                if v == "false"@ {
                    assert(vs[1] == v);
                }
            },
            ArgDecl::Choices(c) => {
                let vs = Seq::new(c@.len(), |i: int| c@[i]@);
                if exists|i: int| 0 <= i < c@.len() && (#[trigger] c@[i])@ == v {
                    let i = choose|i: int| 0 <= i < c@.len() && (#[trigger] c@[i])@ == v;
                    assert(vs[i] == v);
                }
                if vs.contains(v) {
                    let i = choose|i: int| 0 <= i < vs.len() && vs[i] == v;
                    assert(c@[i]@ == v);
                }
            },
        }
    }
}

/// The error for a declared argument the caller does not satisfy.
pub open spec fn arg_error(decl: ArgDecl, caller: Seq<(String, String)>, name: Seq<char>) -> SubstErrorView {
    match value_of(caller, name) {
        None => SubstErrorView::RequiredArgMissing { name },
        Some(v) => SubstErrorView::InvalidArgValue {
            name,
            value: v,
            expected: debug_list(valid_values_of(decl)->0),
        },
    }
}

fn debug_list_string(vs: &Vec<&str>) -> (r: String)
    ensures
        r@ == debug_list(Seq::new(vs@.len(), |i: int| vs@[i]@)),
{
    let ghost views = Seq::new(vs@.len(), |i: int| vs@[i]@);
    let mut s = String::new();
    push_str(&mut s, "[");
    let mut i: usize = 0;
    while i < vs.len()
        invariant
            i <= vs@.len(),
            views == Seq::new(vs@.len(), |i: int| vs@[i]@),
            s@ == "["@ + debug_items(views.take(i as int)),
        decreases vs@.len() - i,
    {
        let ghost before = s@;
        if i > 0 {
            push_str(&mut s, ", ");
        }
        push_debug_quoted(&mut s, vs[i]);
        proof {
            let t = views.take(i + 1);
            assert(t.drop_last() =~= views.take(i as int));
            assert(t.last() == vs@[i as int]@);
            if i == 0 {
                assert(t.len() == 1);
                assert(s@ =~= "["@ + debug_items(t));
            } else {
                assert(s@ =~= "["@ + debug_items(t));
            }
        }
        i += 1;
    }
    assert(views.take(vs@.len() as int) =~= views);
    push_str(&mut s, "]");
    s
}

/// Resolve a manifest's declared arguments from the caller's values.
///
/// Every declared argument is required, and must take one of its allowed
/// values; declarations are checked in name order (the table is kept by
/// name ascending, as [`crate::manifest_read::read_args`] gives it). Caller arguments that
/// are not declared pass through, so on success the result holds exactly
/// the caller's values.
pub fn resolve_args(
    manifest_args: &Vec<(String, ArgDecl)>,
    caller_args: &Vec<(String, String)>,
) -> (r: Result<Vec<(String, String)>, SubstError>)
    requires
        crate::realize::names_ascending(manifest_args@),
        keys_unique(caller_args@),
    ensures
        r is Ok <==> forall|i: int|
            0 <= i < manifest_args@.len() ==> arg_satisfied(
                (#[trigger] manifest_args@[i]).1,
                caller_args@,
                manifest_args@[i].0@,
            ),
        match r {
            Ok(res) => {
                &&& keys_unique(res@)
                &&& forall|k: Seq<char>, v: Seq<char>|
                    #[trigger] maps_to(res@, k, v) <==> maps_to(caller_args@, k, v)
            },
            Err(e) => exists|i: int|
                0 <= i < manifest_args@.len() && !arg_satisfied(
                    (#[trigger] manifest_args@[i]).1,
                    caller_args@,
                    manifest_args@[i].0@,
                ) && (forall|j: int|
                    0 <= j < i ==> arg_satisfied(
                        (#[trigger] manifest_args@[j]).1,
                        caller_args@,
                        manifest_args@[j].0@,
                    )) && e@ == arg_error(manifest_args@[i].1, caller_args@, manifest_args@[i].0@),
        },
{
    let mut i: usize = 0;
    while i < manifest_args.len()
        invariant
            i <= manifest_args@.len(),
            forall|j: int|
                0 <= j < i ==> arg_satisfied(
                    (#[trigger] manifest_args@[j]).1,
                    caller_args@,
                    manifest_args@[j].0@,
                ),
        decreases manifest_args@.len() - i,
    {
        let name = manifest_args[i].0.as_str();
        let decl = &manifest_args[i].1;
        match lookup(caller_args, name) {
            None => {
                return Err(SubstError::RequiredArgMissing { name: owned(name) });
            },
            Some(value) => {
                match decl.valid_values() {
                    Some(valid) => {
                        if !contains_str(&valid, value.as_str()) {
                            let expected = debug_list_string(&valid);
                            proof {
                                let vs = valid_values_of(*decl)->0;
                                assert(Seq::new(valid@.len(), |i: int| valid@[i]@) =~= vs);
                            }
                            return Err(
                                SubstError::InvalidArgValue {
                                    name: owned(name),
                                    value,
                                    expected,
                                },
                            );
                        }
                        proof {
                            let vs = valid_values_of(*decl)->0;
                            let k = choose|k: int| 0 <= k < valid@.len() && valid@[k]@ == value@;
                            assert(vs[k] == value@);
                        }
                    },
                    None => {},
                }
            },
        }
        i += 1;
    }
    // Every declared name takes the caller's value; the rest pass through.
    let mut res: Vec<(String, String)> = Vec::new();
    let mut k: usize = 0;
    while k < caller_args.len()
        invariant
            k <= caller_args@.len(),
            keys_unique(caller_args@),
            res@ == caller_args@.take(k as int),
        decreases caller_args@.len() - k,
    {
        res.push((caller_args[k].0.clone(), caller_args[k].1.clone()));
        k += 1;
        assert(res@ =~= caller_args@.take(k as int));
    }
    assert(res@ =~= caller_args@);
    Ok(res)
}

fn contains_str(vs: &Vec<&str>, s: &str) -> (r: bool)
    ensures
        r == exists|k: int| 0 <= k < vs@.len() && vs@[k]@ == s@,
{
    let mut i: usize = 0;
    while i < vs.len()
        invariant
            i <= vs@.len(),
            forall|k: int| 0 <= k < i ==> vs@[k]@ != s@,
        decreases vs@.len() - i,
    {
        if crate::text::str_eq(vs[i], s) {
            return true;
        }
        i += 1;
    }
    false
}

} // verus!

verus! {

// ── Substituting a whole manifest ──

use crate::manifest::{
    ManifestText, PathText, NodeText, TopicText, ServiceDecl, ActionDecl, IncludeText, IncludeKind,
    ExternalTopicDecl,
};
use crate::realize::string_views;

/// The first substitution error among `ts`, in order, if any.
pub open spec fn first_failure(ts: Seq<Seq<char>>, args: Seq<(String, String)>) -> Option<SubstErrorView>
    decreases ts.len(),
{
    if ts.len() == 0 {
        None
    } else {
        match substituted(ts[0], args) {
            Err(e) => Some(e),
            Ok(_) => first_failure(ts.drop_first(), args),
        }
    }
}

/// The text of an optional string: none, or the one string.
pub open spec fn opt_texts(o: Option<String>) -> Seq<Seq<char>> {
    match o {
        Some(s) => seq![s@],
        None => Seq::empty(),
    }
}

/// The substitutable strings of the first `m` entries, entry by entry.
pub open spec fn all_texts<T>(s: Seq<(String, T)>, f: spec_fn(T) -> Seq<Seq<char>>, m: int) -> Seq<Seq<char>>
    decreases m,
{
    if m <= 0 {
        Seq::empty()
    } else {
        all_texts(s, f, m - 1) + f(s[m - 1].1)
    }
}

pub open spec fn path_texts(p: PathText) -> Seq<Seq<char>> {
    opt_texts(p.if_condition) + opt_texts(p.unless_condition) + string_views(p.input@) + string_views(
        p.output@,
    ) + opt_texts(p.correlation)
}

pub open spec fn node_texts(n: NodeText) -> Seq<Seq<char>> {
    opt_texts(n.if_condition) + opt_texts(n.unless_condition) + all_texts(
        n.paths@,
        |p: PathText| path_texts(p),
        n.paths@.len() as int,
    )
}

pub open spec fn topic_texts(t: TopicText) -> Seq<Seq<char>> {
    opt_texts(t.if_condition) + opt_texts(t.unless_condition) + seq![t.msg_type@] + string_views(
        t.publishers@,
    ) + string_views(t.subscribers@)
}

pub open spec fn service_texts(t: ServiceDecl) -> Seq<Seq<char>> {
    opt_texts(t.if_condition) + opt_texts(t.unless_condition) + seq![t.srv_type@] + string_views(
        t.server@,
    ) + string_views(t.client@)
}

pub open spec fn action_texts(t: ActionDecl) -> Seq<Seq<char>> {
    opt_texts(t.if_condition) + opt_texts(t.unless_condition) + seq![t.action_type@] + string_views(
        t.server@,
    ) + string_views(t.client@)
}

pub open spec fn include_texts(i: IncludeText) -> Seq<Seq<char>> {
    match i.kind {
        IncludeKind::External { manifest } => seq![manifest@],
        IncludeKind::Inline(_) => Seq::empty(),
    }
}

pub open spec fn external_texts(e: ExternalTopicDecl) -> Seq<Seq<char>> {
    opt_texts(e.msg_type)
}

/// Every substitutable string of a manifest, in the order they are
/// substituted: nodes (and their paths), topics, services, actions,
/// scope paths, external include targets, external topic types.
pub open spec fn manifest_texts(m: ManifestText) -> Seq<Seq<char>> {
    all_texts(m.nodes@, |x: NodeText| node_texts(x), m.nodes@.len() as int) + all_texts(
        m.topics@,
        |x: TopicText| topic_texts(x),
        m.topics@.len() as int,
    ) + all_texts(m.services@, |x: ServiceDecl| service_texts(x), m.services@.len() as int)
        + all_texts(m.actions@, |x: ActionDecl| action_texts(x), m.actions@.len() as int) + all_texts(
        m.paths@,
        |x: PathText| path_texts(x),
        m.paths@.len() as int,
    ) + all_texts(m.includes@, |x: IncludeText| include_texts(x), m.includes@.len() as int)
        + all_texts(
        m.external_topics@,
        |x: ExternalTopicDecl| external_texts(x),
        m.external_topics@.len() as int,
    )
}

pub open spec fn str_subst(o: String, n: String, args: Seq<(String, String)>) -> bool {
    substituted(o@, args) == Ok::<Seq<char>, SubstErrorView>(n@)
}

pub open spec fn opt_subst(o: Option<String>, n: Option<String>, args: Seq<(String, String)>) -> bool {
    match o {
        None => n is None,
        Some(s) => n is Some && str_subst(s, n->0, args),
    }
}

pub open spec fn vec_subst(o: Vec<String>, n: Vec<String>, args: Seq<(String, String)>) -> bool {
    &&& n@.len() == o@.len()
    &&& forall|i: int| 0 <= i < o@.len() ==> str_subst(o@[i], #[trigger] n@[i], args)
}

/// Entry by entry, the same names and `rel` between the values.
pub open spec fn entries_subst<T>(o: Seq<(String, T)>, n: Seq<(String, T)>, rel: spec_fn(T, T) -> bool) -> bool {
    &&& n.len() == o.len()
    &&& forall|k: int| 0 <= k < o.len() ==> (#[trigger] n[k]).0 == o[k].0 && rel(o[k].1, n[k].1)
}

pub open spec fn path_subst(o: PathText, n: PathText, args: Seq<(String, String)>) -> bool {
    &&& opt_subst(o.if_condition, n.if_condition, args)
    &&& opt_subst(o.unless_condition, n.unless_condition, args)
    &&& vec_subst(o.input, n.input, args)
    &&& vec_subst(o.output, n.output, args)
    &&& opt_subst(o.correlation, n.correlation, args)
    &&& n.contract == o.contract
}

pub open spec fn node_subst(o: NodeText, n: NodeText, args: Seq<(String, String)>) -> bool {
    &&& opt_subst(o.if_condition, n.if_condition, args)
    &&& opt_subst(o.unless_condition, n.unless_condition, args)
    &&& entries_subst(o.paths@, n.paths@, |a: PathText, b: PathText| path_subst(a, b, args))
    &&& n.endpoints == o.endpoints
}

pub open spec fn topic_subst(o: TopicText, n: TopicText, args: Seq<(String, String)>) -> bool {
    &&& opt_subst(o.if_condition, n.if_condition, args)
    &&& opt_subst(o.unless_condition, n.unless_condition, args)
    &&& str_subst(o.msg_type, n.msg_type, args)
    &&& vec_subst(o.publishers, n.publishers, args)
    &&& vec_subst(o.subscribers, n.subscribers, args)
    &&& n.extras == o.extras
}

pub open spec fn service_subst(o: ServiceDecl, n: ServiceDecl, args: Seq<(String, String)>) -> bool {
    &&& opt_subst(o.if_condition, n.if_condition, args)
    &&& opt_subst(o.unless_condition, n.unless_condition, args)
    &&& str_subst(o.srv_type, n.srv_type, args)
    &&& vec_subst(o.server, n.server, args)
    &&& vec_subst(o.client, n.client, args)
    &&& n.external == o.external
}

pub open spec fn action_subst(o: ActionDecl, n: ActionDecl, args: Seq<(String, String)>) -> bool {
    &&& opt_subst(o.if_condition, n.if_condition, args)
    &&& opt_subst(o.unless_condition, n.unless_condition, args)
    &&& str_subst(o.action_type, n.action_type, args)
    &&& vec_subst(o.server, n.server, args)
    &&& vec_subst(o.client, n.client, args)
    &&& n.external == o.external
}

/// An include keeps its conditions; an external one has its target
/// substituted, an inline one is left as it is.
pub open spec fn include_subst(o: IncludeText, n: IncludeText, args: Seq<(String, String)>) -> bool {
    &&& n.if_condition == o.if_condition
    &&& n.unless_condition == o.unless_condition
    &&& match o.kind {
        IncludeKind::External { manifest } => n.kind is External && str_subst(
            manifest,
            n.kind->manifest,
            args,
        ),
        IncludeKind::Inline(_) => n.kind == o.kind,
    }
}

pub open spec fn external_subst(o: ExternalTopicDecl, n: ExternalTopicDecl, args: Seq<(String, String)>) -> bool {
    &&& n.side == o.side
    &&& n.qos == o.qos
    &&& opt_subst(o.msg_type, n.msg_type, args)
}

/// `n` is `o` with every substitutable string substituted.
pub open spec fn manifest_subst(o: ManifestText, n: ManifestText, args: Seq<(String, String)>) -> bool {
    &&& entries_subst(o.nodes@, n.nodes@, |a: NodeText, b: NodeText| node_subst(a, b, args))
    &&& entries_subst(o.topics@, n.topics@, |a: TopicText, b: TopicText| topic_subst(a, b, args))
    &&& entries_subst(o.services@, n.services@, |a: ServiceDecl, b: ServiceDecl| service_subst(a, b, args))
    &&& entries_subst(o.actions@, n.actions@, |a: ActionDecl, b: ActionDecl| action_subst(a, b, args))
    &&& entries_subst(o.paths@, n.paths@, |a: PathText, b: PathText| path_subst(a, b, args))
    &&& entries_subst(o.includes@, n.includes@, |a: IncludeText, b: IncludeText| include_subst(a, b, args))
    &&& entries_subst(
        o.external_topics@,
        n.external_topics@,
        |a: ExternalTopicDecl, b: ExternalTopicDecl| external_subst(a, b, args),
    )
}

// ── Lemmas on the first failure ──

proof fn lemma_first_failure_concat(a: Seq<Seq<char>>, b: Seq<Seq<char>>, args: Seq<(String, String)>)
    ensures
        first_failure(a + b, args) == match first_failure(a, args) {
            Some(e) => Some(e),
            None => first_failure(b, args),
        },
    decreases a.len(),
{
    if a.len() > 0 {
        assert((a + b).drop_first() =~= a.drop_first() + b);
        assert((a + b)[0] == a[0]);
        lemma_first_failure_concat(a.drop_first(), b, args);
    } else {
        assert(a + b =~= b);
    }
}

proof fn lemma_first_failure_at(ts: Seq<Seq<char>>, i: int, e: SubstErrorView, args: Seq<(String, String)>)
    requires
        0 <= i < ts.len(),
        substituted(ts[i], args) == Err::<Seq<char>, SubstErrorView>(e),
        forall|j: int| 0 <= j < i ==> (#[trigger] substituted(ts[j], args)) is Ok,
    ensures
        first_failure(ts, args) == Some(e),
    decreases i,
{
    if i > 0 {
        assert(substituted(ts[0], args) is Ok);
        assert forall|j: int| 0 <= j < i - 1 implies (#[trigger] substituted(ts.drop_first()[j], args)) is Ok by {
            assert(ts.drop_first()[j] == ts[j + 1]);
            assert(substituted(ts[j + 1], args) is Ok);
        }
        lemma_first_failure_at(ts.drop_first(), i - 1, e, args);
    }
}

proof fn lemma_first_failure_none(ts: Seq<Seq<char>>, args: Seq<(String, String)>)
    requires
        forall|j: int| 0 <= j < ts.len() ==> (#[trigger] substituted(ts[j], args)) is Ok,
    ensures
        first_failure(ts, args) is None,
    decreases ts.len(),
{
    if ts.len() > 0 {
        assert(substituted(ts[0], args) is Ok);
        assert forall|j: int| 0 <= j < ts.len() - 1 implies (#[trigger] substituted(ts.drop_first()[j], args)) is Ok by {
            assert(ts.drop_first()[j] == ts[j + 1]);
            assert(substituted(ts[j + 1], args) is Ok);
        }
        lemma_first_failure_none(ts.drop_first(), args);
    }
}

proof fn lemma_all_texts_prefix<T>(s: Seq<(String, T)>, f: spec_fn(T) -> Seq<Seq<char>>, m: int, n: int)
    requires
        0 <= m <= n,
    ensures
        all_texts(s, f, n) =~= all_texts(s, f, m) + all_texts(s, f, n).skip(all_texts(s, f, m).len() as int),
        all_texts(s, f, m).len() <= all_texts(s, f, n).len(),
    decreases n - m,
{
    if m < n {
        lemma_all_texts_prefix(s, f, m, n - 1);
        assert(all_texts(s, f, n) == all_texts(s, f, n - 1) + f(s[n - 1].1));
    }
}

/// A failure in the texts so far is the first failure of the whole list.
proof fn lemma_fail_in_prefix<T>(
    s: Seq<(String, T)>,
    f: spec_fn(T) -> Seq<Seq<char>>,
    i: int,
    e: SubstErrorView,
    args: Seq<(String, String)>,
)
    requires
        0 <= i < s.len(),
        first_failure(all_texts(s, f, i), args) is None,
        first_failure(f(s[i].1), args) == Some(e),
    ensures
        first_failure(all_texts(s, f, s.len() as int), args) == Some(e),
{
    lemma_all_texts_prefix(s, f, i + 1, s.len() as int);
    let full = all_texts(s, f, s.len() as int);
    let pre = all_texts(s, f, i + 1);
    lemma_first_failure_concat(all_texts(s, f, i), f(s[i].1), args);
    lemma_first_failure_concat(pre, full.skip(pre.len() as int), args);
}

proof fn lemma_ok_extends<T>(s: Seq<(String, T)>, f: spec_fn(T) -> Seq<Seq<char>>, i: int, args: Seq<(String, String)>)
    requires
        0 <= i < s.len(),
        first_failure(all_texts(s, f, i), args) is None,
        first_failure(f(s[i].1), args) is None,
    ensures
        first_failure(all_texts(s, f, i + 1), args) is None,
{
    lemma_first_failure_concat(all_texts(s, f, i), f(s[i].1), args);
}


// ── Substituting, field by field ──

fn subst_opt_text(o: Option<String>, args: &Vec<(String, String)>) -> (r: Result<Option<String>, SubstError>)
    ensures
        match r {
            Ok(n) => first_failure(opt_texts(o), args@) is None && opt_subst(o, n, args@),
            Err(e) => first_failure(opt_texts(o), args@) == Some(e@),
        },
{
    let r = substitute_opt(&o, args);
    proof {
        assert(first_failure(Seq::<Seq<char>>::empty(), args@) is None);
        if let Some(x) = o {
            assert(opt_texts(o) =~= seq![x@]);
            assert(opt_texts(o).drop_first() =~= Seq::<Seq<char>>::empty());
        }
    }
    r
}

fn subst_str_text(o: String, args: &Vec<(String, String)>) -> (r: Result<String, SubstError>)
    ensures
        match r {
            Ok(n) => first_failure(seq![o@], args@) is None && str_subst(o, n, args@),
            Err(e) => first_failure(seq![o@], args@) == Some(e@),
        },
{
    let r = substitute_str(o.as_str(), args);
    assert(seq![o@].drop_first() =~= Seq::<Seq<char>>::empty());
    assert(first_failure(Seq::<Seq<char>>::empty(), args@) is None);
    r
}

fn subst_vec_text(v: Vec<String>, args: &Vec<(String, String)>) -> (r: Result<Vec<String>, SubstError>)
    ensures
        match r {
            Ok(n) => first_failure(string_views(v@), args@) is None && vec_subst(v, n, args@),
            Err(e) => first_failure(string_views(v@), args@) == Some(e@),
        },
{
    let r = substitute_vec(&v, args);
    proof {
        match &r {
            Ok(n) => {
                assert forall|j: int| 0 <= j < string_views(v@).len() implies (#[trigger] substituted(
                    string_views(v@)[j],
                    args@,
                )) is Ok by {
                    assert(substituted(v@[j]@, args@) == Ok::<Seq<char>, SubstErrorView>(n@[j]@));
                }
                lemma_first_failure_none(string_views(v@), args@);
            },
            Err(e) => {
                let i = choose|i: int|
                    0 <= i < v@.len() && substituted(#[trigger] v@[i]@, args@) == Err::<
                        Seq<char>,
                        SubstErrorView,
                    >(e@) && forall|j: int| 0 <= j < i ==> (#[trigger] substituted(v@[j]@, args@)) is Ok;
                assert forall|j: int| 0 <= j < i implies (#[trigger] substituted(
                    string_views(v@)[j],
                    args@,
                )) is Ok by {
                    assert(substituted(v@[j]@, args@) is Ok);
                }
                lemma_first_failure_at(string_views(v@), i, e@, args@);
            },
        }
    }
    r
}

fn subst_path(p: PathText, args: &Vec<(String, String)>) -> (r: Result<PathText, SubstError>)
    ensures
        match r {
            Ok(n) => first_failure(path_texts(p), args@) is None && path_subst(p, n, args@),
            Err(e) => first_failure(path_texts(p), args@) == Some(e@),
        },
{
    let ghost t1 = opt_texts(p.if_condition);
    let ghost t2 = opt_texts(p.unless_condition);
    let ghost t3 = string_views(p.input@);
    let ghost t4 = string_views(p.output@);
    let ghost t5 = opt_texts(p.correlation);
    proof {
        lemma_first_failure_concat(t1, t2, args@);
        lemma_first_failure_concat(t1 + t2, t3, args@);
        lemma_first_failure_concat(t1 + t2 + t3, t4, args@);
        lemma_first_failure_concat(t1 + t2 + t3 + t4, t5, args@);
    }
    let PathText { if_condition, unless_condition, input, output, correlation, contract } = p;
    let if_condition = subst_opt_text(if_condition, args)?;
    let unless_condition = subst_opt_text(unless_condition, args)?;
    let input = subst_vec_text(input, args)?;
    let output = subst_vec_text(output, args)?;
    let correlation = subst_opt_text(correlation, args)?;
    Ok(PathText { if_condition, unless_condition, input, output, correlation, contract })
}


fn subst_paths(v: Vec<(String, PathText)>, args: &Vec<(String, String)>) -> (r: Result<Vec<(String, PathText)>, SubstError>)
    ensures
        match r {
            Ok(n) => first_failure(all_texts(v@, |x: PathText| path_texts(x), v@.len() as int), args@) is None
                && entries_subst(v@, n@, |a: PathText, b: PathText| path_subst(a, b, args@)),
            Err(e) => first_failure(all_texts(v@, |x: PathText| path_texts(x), v@.len() as int), args@) == Some(e@),
        },
{
    let ghost orig = v@;
    let ghost f = |x: PathText| path_texts(x);
    let ghost rel = |a: PathText, b: PathText| path_subst(a, b, args@);
    let mut rest = v;
    let mut out: Vec<(String, PathText)> = Vec::new();
    let total = rest.len();
    let mut i: usize = 0;
    assert(first_failure(all_texts(orig, f, 0), args@) is None);
    #[verifier::loop_isolation(false)]
    while rest.len() > 0
        invariant
            i + rest@.len() == orig.len(),
            i <= orig.len(),
            total == orig.len(),
            rest@ == orig.skip(i as int),
            f == (|x: PathText| path_texts(x)),
            rel == (|a: PathText, b: PathText| path_subst(a, b, args@)),
            first_failure(all_texts(orig, f, i as int), args@) is None,
            out@.len() == i,
            forall|k: int| 0 <= k < i ==> (#[trigger] out@[k]).0 == orig[k].0 && rel(orig[k].1, out@[k].1),
        decreases rest@.len(),
    {
        assert(rest@[0] == orig[i as int]);
        let (name, x) = rest.remove(0);
        match subst_path(x, args) {
            Ok(y) => {
                proof {
                    lemma_ok_extends(orig, f, i as int, args@);
                }
                out.push((name, y));
            },
            Err(e) => {
                proof {
                    lemma_fail_in_prefix(orig, f, i as int, e@, args@);
                }
                return Err(e);
            },
        }
        i += 1;
        assert(rest@ =~= orig.skip(i as int));
    }
    assert(orig.len() == i);
    Ok(out)
}

fn subst_node(x: NodeText, args: &Vec<(String, String)>) -> (r: Result<NodeText, SubstError>)
    ensures
        match r {
            Ok(n) => first_failure(node_texts(x), args@) is None && node_subst(x, n, args@),
            Err(e) => first_failure(node_texts(x), args@) == Some(e@),
        },
{
    let ghost t1 = opt_texts(x.if_condition);
    let ghost t2 = opt_texts(x.unless_condition);
    let ghost t3 = all_texts(x.paths@, |p: PathText| path_texts(p), x.paths@.len() as int);
    proof {
        lemma_first_failure_concat(t1, t2, args@);
        lemma_first_failure_concat(t1 + t2, t3, args@);
    }
    let NodeText { if_condition, unless_condition, paths, endpoints } = x;
    let if_condition = subst_opt_text(if_condition, args)?;
    let unless_condition = subst_opt_text(unless_condition, args)?;
    let paths = subst_paths(paths, args)?;
    Ok(NodeText { if_condition, unless_condition, paths, endpoints })
}

fn subst_topic(x: TopicText, args: &Vec<(String, String)>) -> (r: Result<TopicText, SubstError>)
    ensures
        match r {
            Ok(n) => first_failure(topic_texts(x), args@) is None && topic_subst(x, n, args@),
            Err(e) => first_failure(topic_texts(x), args@) == Some(e@),
        },
{
    let ghost t1 = opt_texts(x.if_condition);
    let ghost t2 = opt_texts(x.unless_condition);
    let ghost t3 = seq![x.msg_type@];
    let ghost t4 = string_views(x.publishers@);
    let ghost t5 = string_views(x.subscribers@);
    proof {
        lemma_first_failure_concat(t1, t2, args@);
        lemma_first_failure_concat(t1 + t2, t3, args@);
        lemma_first_failure_concat(t1 + t2 + t3, t4, args@);
        lemma_first_failure_concat(t1 + t2 + t3 + t4, t5, args@);
    }
    let TopicText { if_condition, unless_condition, msg_type, publishers, subscribers, extras } = x;
    let if_condition = subst_opt_text(if_condition, args)?;
    let unless_condition = subst_opt_text(unless_condition, args)?;
    let msg_type = subst_str_text(msg_type, args)?;
    let publishers = subst_vec_text(publishers, args)?;
    let subscribers = subst_vec_text(subscribers, args)?;
    Ok(TopicText { if_condition, unless_condition, msg_type, publishers, subscribers, extras })
}

fn subst_service(x: ServiceDecl, args: &Vec<(String, String)>) -> (r: Result<ServiceDecl, SubstError>)
    ensures
        match r {
            Ok(n) => first_failure(service_texts(x), args@) is None && service_subst(x, n, args@),
            Err(e) => first_failure(service_texts(x), args@) == Some(e@),
        },
{
    let ghost t1 = opt_texts(x.if_condition);
    let ghost t2 = opt_texts(x.unless_condition);
    let ghost t3 = seq![x.srv_type@];
    let ghost t4 = string_views(x.server@);
    let ghost t5 = string_views(x.client@);
    proof {
        lemma_first_failure_concat(t1, t2, args@);
        lemma_first_failure_concat(t1 + t2, t3, args@);
        lemma_first_failure_concat(t1 + t2 + t3, t4, args@);
        lemma_first_failure_concat(t1 + t2 + t3 + t4, t5, args@);
    }
    let ServiceDecl { if_condition, unless_condition, srv_type, server, client, external } = x;
    let if_condition = subst_opt_text(if_condition, args)?;
    let unless_condition = subst_opt_text(unless_condition, args)?;
    let srv_type = subst_str_text(srv_type, args)?;
    let server = subst_vec_text(server, args)?;
    let client = subst_vec_text(client, args)?;
    Ok(ServiceDecl { if_condition, unless_condition, srv_type, server, client, external })
}

fn subst_action(x: ActionDecl, args: &Vec<(String, String)>) -> (r: Result<ActionDecl, SubstError>)
    ensures
        match r {
            Ok(n) => first_failure(action_texts(x), args@) is None && action_subst(x, n, args@),
            Err(e) => first_failure(action_texts(x), args@) == Some(e@),
        },
{
    let ghost t1 = opt_texts(x.if_condition);
    let ghost t2 = opt_texts(x.unless_condition);
    let ghost t3 = seq![x.action_type@];
    let ghost t4 = string_views(x.server@);
    let ghost t5 = string_views(x.client@);
    proof {
        lemma_first_failure_concat(t1, t2, args@);
        lemma_first_failure_concat(t1 + t2, t3, args@);
        lemma_first_failure_concat(t1 + t2 + t3, t4, args@);
        lemma_first_failure_concat(t1 + t2 + t3 + t4, t5, args@);
    }
    let ActionDecl { if_condition, unless_condition, action_type, server, client, external } = x;
    let if_condition = subst_opt_text(if_condition, args)?;
    let unless_condition = subst_opt_text(unless_condition, args)?;
    let action_type = subst_str_text(action_type, args)?;
    let server = subst_vec_text(server, args)?;
    let client = subst_vec_text(client, args)?;
    Ok(ActionDecl { if_condition, unless_condition, action_type, server, client, external })
}

fn subst_include(x: IncludeText, args: &Vec<(String, String)>) -> (r: Result<IncludeText, SubstError>)
    ensures
        match r {
            Ok(n) => first_failure(include_texts(x), args@) is None && include_subst(x, n, args@),
            Err(e) => first_failure(include_texts(x), args@) == Some(e@),
        },
{
    let IncludeText { if_condition, unless_condition, kind } = x;
    let kind = match kind {
        IncludeKind::External { manifest } => {
            let manifest = subst_str_text(manifest, args)?;
            IncludeKind::External { manifest }
        },
        IncludeKind::Inline(b) => {
            assert(first_failure(Seq::<Seq<char>>::empty(), args@) is None);
            IncludeKind::Inline(b)
        },
    };
    Ok(IncludeText { if_condition, unless_condition, kind })
}

fn subst_external(x: ExternalTopicDecl, args: &Vec<(String, String)>) -> (r: Result<ExternalTopicDecl, SubstError>)
    ensures
        match r {
            Ok(n) => first_failure(external_texts(x), args@) is None && external_subst(x, n, args@),
            Err(e) => first_failure(external_texts(x), args@) == Some(e@),
        },
{
    let ExternalTopicDecl { side, msg_type, qos } = x;
    let msg_type = subst_opt_text(msg_type, args)?;
    Ok(ExternalTopicDecl { side, msg_type, qos })
}

fn subst_nodes(v: Vec<(String, NodeText)>, args: &Vec<(String, String)>) -> (r: Result<Vec<(String, NodeText)>, SubstError>)
    ensures
        match r {
            Ok(n) => first_failure(all_texts(v@, |x: NodeText| node_texts(x), v@.len() as int), args@) is None
                && entries_subst(v@, n@, |a: NodeText, b: NodeText| node_subst(a, b, args@)),
            Err(e) => first_failure(all_texts(v@, |x: NodeText| node_texts(x), v@.len() as int), args@) == Some(e@),
        },
{
    let ghost orig = v@;
    let ghost f = |x: NodeText| node_texts(x);
    let ghost rel = |a: NodeText, b: NodeText| node_subst(a, b, args@);
    let mut rest = v;
    let mut out: Vec<(String, NodeText)> = Vec::new();
    let total = rest.len();
    let mut i: usize = 0;
    assert(first_failure(all_texts(orig, f, 0), args@) is None);
    #[verifier::loop_isolation(false)]
    while rest.len() > 0
        invariant
            i + rest@.len() == orig.len(),
            i <= orig.len(),
            total == orig.len(),
            rest@ == orig.skip(i as int),
            f == (|x: NodeText| node_texts(x)),
            rel == (|a: NodeText, b: NodeText| node_subst(a, b, args@)),
            first_failure(all_texts(orig, f, i as int), args@) is None,
            out@.len() == i,
            forall|k: int| 0 <= k < i ==> (#[trigger] out@[k]).0 == orig[k].0 && rel(orig[k].1, out@[k].1),
        decreases rest@.len(),
    {
        assert(rest@[0] == orig[i as int]);
        let (name, x) = rest.remove(0);
        match subst_node(x, args) {
            Ok(y) => {
                proof {
                    lemma_ok_extends(orig, f, i as int, args@);
                }
                out.push((name, y));
            },
            Err(e) => {
                proof {
                    lemma_fail_in_prefix(orig, f, i as int, e@, args@);
                }
                return Err(e);
            },
        }
        i += 1;
        assert(rest@ =~= orig.skip(i as int));
    }
    assert(orig.len() == i);
    Ok(out)
}

fn subst_topics(v: Vec<(String, TopicText)>, args: &Vec<(String, String)>) -> (r: Result<Vec<(String, TopicText)>, SubstError>)
    ensures
        match r {
            Ok(n) => first_failure(all_texts(v@, |x: TopicText| topic_texts(x), v@.len() as int), args@) is None
                && entries_subst(v@, n@, |a: TopicText, b: TopicText| topic_subst(a, b, args@)),
            Err(e) => first_failure(all_texts(v@, |x: TopicText| topic_texts(x), v@.len() as int), args@) == Some(e@),
        },
{
    let ghost orig = v@;
    let ghost f = |x: TopicText| topic_texts(x);
    let ghost rel = |a: TopicText, b: TopicText| topic_subst(a, b, args@);
    let mut rest = v;
    let mut out: Vec<(String, TopicText)> = Vec::new();
    let total = rest.len();
    let mut i: usize = 0;
    assert(first_failure(all_texts(orig, f, 0), args@) is None);
    #[verifier::loop_isolation(false)]
    while rest.len() > 0
        invariant
            i + rest@.len() == orig.len(),
            i <= orig.len(),
            total == orig.len(),
            rest@ == orig.skip(i as int),
            f == (|x: TopicText| topic_texts(x)),
            rel == (|a: TopicText, b: TopicText| topic_subst(a, b, args@)),
            first_failure(all_texts(orig, f, i as int), args@) is None,
            out@.len() == i,
            forall|k: int| 0 <= k < i ==> (#[trigger] out@[k]).0 == orig[k].0 && rel(orig[k].1, out@[k].1),
        decreases rest@.len(),
    {
        assert(rest@[0] == orig[i as int]);
        let (name, x) = rest.remove(0);
        match subst_topic(x, args) {
            Ok(y) => {
                proof {
                    lemma_ok_extends(orig, f, i as int, args@);
                }
                out.push((name, y));
            },
            Err(e) => {
                proof {
                    lemma_fail_in_prefix(orig, f, i as int, e@, args@);
                }
                return Err(e);
            },
        }
        i += 1;
        assert(rest@ =~= orig.skip(i as int));
    }
    assert(orig.len() == i);
    Ok(out)
}

fn subst_services(v: Vec<(String, ServiceDecl)>, args: &Vec<(String, String)>) -> (r: Result<Vec<(String, ServiceDecl)>, SubstError>)
    ensures
        match r {
            Ok(n) => first_failure(all_texts(v@, |x: ServiceDecl| service_texts(x), v@.len() as int), args@) is None
                && entries_subst(v@, n@, |a: ServiceDecl, b: ServiceDecl| service_subst(a, b, args@)),
            Err(e) => first_failure(all_texts(v@, |x: ServiceDecl| service_texts(x), v@.len() as int), args@) == Some(e@),
        },
{
    let ghost orig = v@;
    let ghost f = |x: ServiceDecl| service_texts(x);
    let ghost rel = |a: ServiceDecl, b: ServiceDecl| service_subst(a, b, args@);
    let mut rest = v;
    let mut out: Vec<(String, ServiceDecl)> = Vec::new();
    let total = rest.len();
    let mut i: usize = 0;
    assert(first_failure(all_texts(orig, f, 0), args@) is None);
    #[verifier::loop_isolation(false)]
    while rest.len() > 0
        invariant
            i + rest@.len() == orig.len(),
            i <= orig.len(),
            total == orig.len(),
            rest@ == orig.skip(i as int),
            f == (|x: ServiceDecl| service_texts(x)),
            rel == (|a: ServiceDecl, b: ServiceDecl| service_subst(a, b, args@)),
            first_failure(all_texts(orig, f, i as int), args@) is None,
            out@.len() == i,
            forall|k: int| 0 <= k < i ==> (#[trigger] out@[k]).0 == orig[k].0 && rel(orig[k].1, out@[k].1),
        decreases rest@.len(),
    {
        assert(rest@[0] == orig[i as int]);
        let (name, x) = rest.remove(0);
        match subst_service(x, args) {
            Ok(y) => {
                proof {
                    lemma_ok_extends(orig, f, i as int, args@);
                }
                out.push((name, y));
            },
            Err(e) => {
                proof {
                    lemma_fail_in_prefix(orig, f, i as int, e@, args@);
                }
                return Err(e);
            },
        }
        i += 1;
        assert(rest@ =~= orig.skip(i as int));
    }
    assert(orig.len() == i);
    Ok(out)
}

fn subst_actions(v: Vec<(String, ActionDecl)>, args: &Vec<(String, String)>) -> (r: Result<Vec<(String, ActionDecl)>, SubstError>)
    ensures
        match r {
            Ok(n) => first_failure(all_texts(v@, |x: ActionDecl| action_texts(x), v@.len() as int), args@) is None
                && entries_subst(v@, n@, |a: ActionDecl, b: ActionDecl| action_subst(a, b, args@)),
            Err(e) => first_failure(all_texts(v@, |x: ActionDecl| action_texts(x), v@.len() as int), args@) == Some(e@),
        },
{
    let ghost orig = v@;
    let ghost f = |x: ActionDecl| action_texts(x);
    let ghost rel = |a: ActionDecl, b: ActionDecl| action_subst(a, b, args@);
    let mut rest = v;
    let mut out: Vec<(String, ActionDecl)> = Vec::new();
    let total = rest.len();
    let mut i: usize = 0;
    assert(first_failure(all_texts(orig, f, 0), args@) is None);
    #[verifier::loop_isolation(false)]
    while rest.len() > 0
        invariant
            i + rest@.len() == orig.len(),
            i <= orig.len(),
            total == orig.len(),
            rest@ == orig.skip(i as int),
            f == (|x: ActionDecl| action_texts(x)),
            rel == (|a: ActionDecl, b: ActionDecl| action_subst(a, b, args@)),
            first_failure(all_texts(orig, f, i as int), args@) is None,
            out@.len() == i,
            forall|k: int| 0 <= k < i ==> (#[trigger] out@[k]).0 == orig[k].0 && rel(orig[k].1, out@[k].1),
        decreases rest@.len(),
    {
        assert(rest@[0] == orig[i as int]);
        let (name, x) = rest.remove(0);
        match subst_action(x, args) {
            Ok(y) => {
                proof {
                    lemma_ok_extends(orig, f, i as int, args@);
                }
                out.push((name, y));
            },
            Err(e) => {
                proof {
                    lemma_fail_in_prefix(orig, f, i as int, e@, args@);
                }
                return Err(e);
            },
        }
        i += 1;
        assert(rest@ =~= orig.skip(i as int));
    }
    assert(orig.len() == i);
    Ok(out)
}

fn subst_includes(v: Vec<(String, IncludeText)>, args: &Vec<(String, String)>) -> (r: Result<Vec<(String, IncludeText)>, SubstError>)
    ensures
        match r {
            Ok(n) => first_failure(all_texts(v@, |x: IncludeText| include_texts(x), v@.len() as int), args@) is None
                && entries_subst(v@, n@, |a: IncludeText, b: IncludeText| include_subst(a, b, args@)),
            Err(e) => first_failure(all_texts(v@, |x: IncludeText| include_texts(x), v@.len() as int), args@) == Some(e@),
        },
{
    let ghost orig = v@;
    let ghost f = |x: IncludeText| include_texts(x);
    let ghost rel = |a: IncludeText, b: IncludeText| include_subst(a, b, args@);
    let mut rest = v;
    let mut out: Vec<(String, IncludeText)> = Vec::new();
    let total = rest.len();
    let mut i: usize = 0;
    assert(first_failure(all_texts(orig, f, 0), args@) is None);
    #[verifier::loop_isolation(false)]
    while rest.len() > 0
        invariant
            i + rest@.len() == orig.len(),
            i <= orig.len(),
            total == orig.len(),
            rest@ == orig.skip(i as int),
            f == (|x: IncludeText| include_texts(x)),
            rel == (|a: IncludeText, b: IncludeText| include_subst(a, b, args@)),
            first_failure(all_texts(orig, f, i as int), args@) is None,
            out@.len() == i,
            forall|k: int| 0 <= k < i ==> (#[trigger] out@[k]).0 == orig[k].0 && rel(orig[k].1, out@[k].1),
        decreases rest@.len(),
    {
        assert(rest@[0] == orig[i as int]);
        let (name, x) = rest.remove(0);
        match subst_include(x, args) {
            Ok(y) => {
                proof {
                    lemma_ok_extends(orig, f, i as int, args@);
                }
                out.push((name, y));
            },
            Err(e) => {
                proof {
                    lemma_fail_in_prefix(orig, f, i as int, e@, args@);
                }
                return Err(e);
            },
        }
        i += 1;
        assert(rest@ =~= orig.skip(i as int));
    }
    assert(orig.len() == i);
    Ok(out)
}

fn subst_externals(v: Vec<(String, ExternalTopicDecl)>, args: &Vec<(String, String)>) -> (r: Result<Vec<(String, ExternalTopicDecl)>, SubstError>)
    ensures
        match r {
            Ok(n) => first_failure(all_texts(v@, |x: ExternalTopicDecl| external_texts(x), v@.len() as int), args@) is None
                && entries_subst(v@, n@, |a: ExternalTopicDecl, b: ExternalTopicDecl| external_subst(a, b, args@)),
            Err(e) => first_failure(all_texts(v@, |x: ExternalTopicDecl| external_texts(x), v@.len() as int), args@) == Some(e@),
        },
{
    let ghost orig = v@;
    let ghost f = |x: ExternalTopicDecl| external_texts(x);
    let ghost rel = |a: ExternalTopicDecl, b: ExternalTopicDecl| external_subst(a, b, args@);
    let mut rest = v;
    let mut out: Vec<(String, ExternalTopicDecl)> = Vec::new();
    let total = rest.len();
    let mut i: usize = 0;
    assert(first_failure(all_texts(orig, f, 0), args@) is None);
    #[verifier::loop_isolation(false)]
    while rest.len() > 0
        invariant
            i + rest@.len() == orig.len(),
            i <= orig.len(),
            total == orig.len(),
            rest@ == orig.skip(i as int),
            f == (|x: ExternalTopicDecl| external_texts(x)),
            rel == (|a: ExternalTopicDecl, b: ExternalTopicDecl| external_subst(a, b, args@)),
            first_failure(all_texts(orig, f, i as int), args@) is None,
            out@.len() == i,
            forall|k: int| 0 <= k < i ==> (#[trigger] out@[k]).0 == orig[k].0 && rel(orig[k].1, out@[k].1),
        decreases rest@.len(),
    {
        assert(rest@[0] == orig[i as int]);
        let (name, x) = rest.remove(0);
        match subst_external(x, args) {
            Ok(y) => {
                proof {
                    lemma_ok_extends(orig, f, i as int, args@);
                }
                out.push((name, y));
            },
            Err(e) => {
                proof {
                    lemma_fail_in_prefix(orig, f, i as int, e@, args@);
                }
                return Err(e);
            },
        }
        i += 1;
        assert(rest@ =~= orig.skip(i as int));
    }
    assert(orig.len() == i);
    Ok(out)
}

/// Substitute every `$(var ...)` of a manifest: the conditions of nodes,
/// their paths, topics, services, actions and scope paths; the fields those
/// carry that name types, endpoints or correlations; the targets of
/// external includes; and the declared types of external topics. The first
/// string that fails, in that order, is the error.
pub fn substitute_manifest(manifest: ManifestText, args: &Vec<(String, String)>) -> (r: Result<
    ManifestText,
    SubstError,
>)
    ensures
        match r {
            Ok(n) => first_failure(manifest_texts(manifest), args@) is None && manifest_subst(
                manifest,
                n,
                args@,
            ),
            Err(e) => first_failure(manifest_texts(manifest), args@) == Some(e@),
        },
{
    let ghost m = manifest;
    let ghost t1 = all_texts(m.nodes@, |x: NodeText| node_texts(x), m.nodes@.len() as int);
    let ghost t2 = all_texts(m.topics@, |x: TopicText| topic_texts(x), m.topics@.len() as int);
    let ghost t3 = all_texts(m.services@, |x: ServiceDecl| service_texts(x), m.services@.len() as int);
    let ghost t4 = all_texts(m.actions@, |x: ActionDecl| action_texts(x), m.actions@.len() as int);
    let ghost t5 = all_texts(m.paths@, |x: PathText| path_texts(x), m.paths@.len() as int);
    let ghost t6 = all_texts(m.includes@, |x: IncludeText| include_texts(x), m.includes@.len() as int);
    let ghost t7 = all_texts(
        m.external_topics@,
        |x: ExternalTopicDecl| external_texts(x),
        m.external_topics@.len() as int,
    );
    proof {
        lemma_first_failure_concat(t1, t2, args@);
        lemma_first_failure_concat(t1 + t2, t3, args@);
        lemma_first_failure_concat(t1 + t2 + t3, t4, args@);
        lemma_first_failure_concat(t1 + t2 + t3 + t4, t5, args@);
        lemma_first_failure_concat(t1 + t2 + t3 + t4 + t5, t6, args@);
        lemma_first_failure_concat(t1 + t2 + t3 + t4 + t5 + t6, t7, args@);
    }
    let ManifestText { nodes, topics, services, actions, paths, includes, external_topics } = manifest;
    let nodes = subst_nodes(nodes, args)?;
    let topics = subst_topics(topics, args)?;
    let services = subst_services(services, args)?;
    let actions = subst_actions(actions, args)?;
    let paths = subst_paths(paths, args)?;
    let includes = subst_includes(includes, args)?;
    let external_topics = subst_externals(external_topics, args)?;
    Ok(ManifestText { nodes, topics, services, actions, paths, includes, external_topics })
}

} // verus!
