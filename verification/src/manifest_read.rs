//! Reading a manifest document into its tables: each section a mapping of
//! entries, read in document order, kept by name ascending (a later entry of
//! the same name replaces an earlier one), and refused at the first entry
//! that does not read.

use vstd::prelude::*;
use crate::assoc::has_key;
use crate::field_table::Context;
use crate::decls::{ArgDecl, QosDecl};
use crate::duration::Duration;
use crate::manifest::{
    ParseError, ServiceDecl, ActionDecl, PathText, NodeText, TopicText, TopicExtras, ExternalTopicDecl,
    ExternalSide, IncludeKind, IncludeText, ManifestText, no_extras,
};
use crate::node_decl::{number_ok, number_bad, number_error, read_number};
use crate::path_fields::ExternalEndpointSide;
use crate::timing::{yaml_duration, yaml_duration_new, delivers, duration_read, new_duration_read};
use crate::order::seq_lt;
use crate::realize::names_ascending;
use crate::text::str_eq;
use crate::yaml_fields::{
    YamlNode, field, field_of, field_err, path_text, is_field_err, type_err_text, scalar_text,
    is_scalar, scalar_list_ok, bare_scalar_text, yaml_string, yaml_string_list, yaml_str_owned,
    reject_unknown_keys, keys_measurable, accepts_keys, key_refused, lemma_keys_checked, all_measurable,
    entry_value, format_path, yaml_u32, yaml_scalar_list, parse_string_or_list, parse_arg_decl,
    arg_decl_read, parse_external_side, type_err, drop_value,
};

verus! {

// ── One field ──

/// `o` is what the string field `key` of `doc` reads as.
pub open spec fn str_ok(doc: YamlNode, key: Seq<char>, o: Option<String>) -> bool {
    match field_of(doc, key) {
        None | Some(YamlNode::Null) => o is None,
        Some(YamlNode::String(s)) => o matches Some(x) && x@ == s@,
        _ => false,
    }
}

/// The string field `key` of `doc` holds something other than a string.
pub open spec fn str_bad(doc: YamlNode, key: Seq<char>) -> bool {
    match field_of(doc, key) {
        None | Some(YamlNode::Null) | Some(YamlNode::String(_)) => false,
        _ => true,
    }
}

/// `e` refuses the string field `key` of `doc` under `ctx`.
pub open spec fn str_error(doc: YamlNode, key: Seq<char>, ctx: Seq<char>, e: ParseError) -> bool {
    match field_of(doc, key) {
        Some(other) => is_field_err(e, path_text(ctx, key), type_err_text("a string"@, other)),
        None => false,
    }
}

/// `l` is what the list field `key` of `doc` reads as.
pub open spec fn list_ok(doc: YamlNode, key: Seq<char>, l: Vec<String>) -> bool {
    match field_of(doc, key) {
        None | Some(YamlNode::Null) => l@.len() == 0,
        Some(YamlNode::Array(arr)) => {
            &&& l@.len() == arr@.len()
            &&& forall|i: int| 0 <= i < arr@.len() ==> is_scalar(#[trigger] arr@[i]) && l@[i]@ == scalar_text(arr@[i])
        },
        _ => false,
    }
}

/// The list field `key` of `doc` does not read as a list of scalars.
pub open spec fn list_bad(doc: YamlNode, key: Seq<char>) -> bool {
    match field_of(doc, key) {
        None | Some(YamlNode::Null) => false,
        Some(YamlNode::Array(arr)) => exists|i: int| 0 <= i < arr@.len() && !is_scalar(#[trigger] arr@[i]),
        _ => true,
    }
}

/// `e` refuses the list field `key` of `doc` under `ctx`.
pub open spec fn list_error(doc: YamlNode, key: Seq<char>, ctx: Seq<char>, e: ParseError) -> bool {
    match field_of(doc, key) {
        Some(YamlNode::Array(arr)) => scalar_list_ok(arr@, key, ctx, Err(e)),
        Some(YamlNode::String(s)) => is_field_err(e, path_text(ctx, key), bare_scalar_text(key, s@)),
        Some(other) => is_field_err(e, path_text(ctx, key), type_err_text("a list"@, other)),
        None => false,
    }
}

pub(crate) fn read_str(doc: &YamlNode, key: &str, ctx: &str) -> (r: Result<Option<String>, ParseError>)
    ensures
        match r {
            Ok(o) => !str_bad(*doc, key@) && str_ok(*doc, key@, o),
            Err(e) => str_bad(*doc, key@) && str_error(*doc, key@, ctx@, e),
        },
{
    yaml_string(doc, key, ctx)
}

pub(crate) fn read_list(doc: &YamlNode, key: &str, ctx: &str) -> (r: Result<Vec<String>, ParseError>)
    ensures
        match r {
            Ok(l) => !list_bad(*doc, key@) && list_ok(*doc, key@, l),
            Err(e) => list_bad(*doc, key@) && list_error(*doc, key@, ctx@, e),
        },
{
    let r = yaml_string_list(doc, key, ctx);
    let ghost rr = r;
    proof {
        if let Some(YamlNode::Array(arr)) = field_of(*doc, key@) {
            match rr {
                Ok(l) => {
                    assert forall|i: int| 0 <= i < arr@.len() implies is_scalar(#[trigger] arr@[i]) && l@[i]@
                        == scalar_text(arr@[i]) by {
                        assert(l@[i]@ == scalar_text(arr@[i]));
                    }
                },
                Err(e) => {},
            }
        }
    }
    r
}

/// A string field that reads as empty text when absent.
pub open spec fn text_or_empty(doc: YamlNode, key: Seq<char>, t: String) -> bool {
    match field_of(doc, key) {
        None | Some(YamlNode::Null) => t@ == Seq::<char>::empty(),
        Some(YamlNode::String(s)) => t@ == s@,
        _ => false,
    }
}

fn read_text_or_empty(doc: &YamlNode, key: &str, ctx: &str) -> (r: Result<String, ParseError>)
    ensures
        match r {
            Ok(t) => !str_bad(*doc, key@) && text_or_empty(*doc, key@, t),
            Err(e) => str_bad(*doc, key@) && str_error(*doc, key@, ctx@, e),
        },
{
    match read_str(doc, key, ctx) {
        Ok(Some(t)) => Ok(t),
        Ok(None) => Ok(String::new()),
        Err(e) => Err(e),
    }
}

// ── Tables ──

/// The name an entry is kept under: its key's text.
pub open spec fn entry_name(en: (YamlNode, YamlNode)) -> Seq<char> {
    scalar_text(en.0)
}

/// Entry `k` is the last one named `n`.
pub open spec fn last_named(entries: Seq<(YamlNode, YamlNode)>, n: Seq<char>, k: int) -> bool {
    &&& 0 <= k < entries.len()
    &&& entry_name(entries[k]) == n
    &&& forall|j: int| k < j < entries.len() ==> entry_name(#[trigger] entries[j]) != n
}

/// Some entry is named `n`.
pub open spec fn names_entry(entries: Seq<(YamlNode, YamlNode)>, n: Seq<char>) -> bool {
    exists|k: int| 0 <= k < entries.len() && entry_name(#[trigger] entries[k]) == n
}

/// The last entry named `n`.
pub open spec fn last_index(entries: Seq<(YamlNode, YamlNode)>, n: Seq<char>) -> int {
    choose|k: int| last_named(entries, n, k)
}

/// `out` holds one value per entry name, by name ascending, each what the
/// last entry of that name reads as.
pub open spec fn table_reads<T>(
    entries: Seq<(YamlNode, YamlNode)>,
    out: Seq<(String, T)>,
    reads: spec_fn((YamlNode, YamlNode), T) -> bool,
) -> bool {
    &&& names_ascending(out)
    &&& forall|n: Seq<char>| #[trigger] has_key(out, n) <==> names_entry(entries, n)
    &&& forall|i: int|
        0 <= i < out.len() ==> {
            let k = last_index(entries, (#[trigger] out[i]).0@);
            last_named(entries, out[i].0@, k) && reads(entries[k], out[i].1)
        }
}

proof fn lemma_last_unique(entries: Seq<(YamlNode, YamlNode)>, n: Seq<char>, k: int)
    requires
        last_named(entries, n, k),
    ensures
        last_index(entries, n) == k,
{
    let c = last_index(entries, n);
    assert(last_named(entries, n, c));
    if c < k {
        assert(entry_name(entries[k]) != n);
    }
    if c > k {
        assert(entry_name(entries[c]) != n);
    }
}

/// Some entry does not read.
pub open spec fn table_fails(entries: Seq<(YamlNode, YamlNode)>, fails: spec_fn((YamlNode, YamlNode)) -> bool) -> bool {
    exists|k: int| 0 <= k < entries.len() && fails(#[trigger] entries[k])
}

/// `e` refuses the first entry that does not read.
pub open spec fn table_error(
    entries: Seq<(YamlNode, YamlNode)>,
    fails: spec_fn((YamlNode, YamlNode)) -> bool,
    error: spec_fn((YamlNode, YamlNode), ParseError) -> bool,
    e: ParseError,
) -> bool {
    exists|k: int|
        0 <= k < entries.len() && fails(#[trigger] entries[k]) && (forall|j: int| 0 <= j < k ==> !fails(#[trigger] entries[j]))
            && error(entries[k], e)
}

/// What reading section `key` of `doc` gives: nothing when absent, a table
/// when it is a mapping whose entries all read, the first entry's refusal
/// when one does not, and a refusal of anything but a mapping.
pub open spec fn section_reads<T>(
    doc: YamlNode,
    key: Seq<char>,
    ctx: Seq<char>,
    r: Result<Vec<(String, T)>, ParseError>,
    reads: spec_fn((YamlNode, YamlNode), T) -> bool,
    fails: spec_fn((YamlNode, YamlNode)) -> bool,
    error: spec_fn((YamlNode, YamlNode), ParseError) -> bool,
) -> bool {
    match field_of(doc, key) {
        None => r matches Ok(v) && v@.len() == 0,
        Some(YamlNode::Hash(entries)) => if table_fails(entries@, fails) {
            r matches Err(e) && table_error(entries@, fails, error, e)
        } else {
            r matches Ok(v) && table_reads(entries@, v@, reads)
        },
        Some(_) => r matches Err(e) && is_field_err(e, path_text(ctx, key), "expected mapping"@),
    }
}

/// Put `value` under `name`, replacing what was there and keeping names
/// ascending.
pub(crate) fn put_entry<T>(out: &mut Vec<(String, T)>, name: String, value: T)
    requires
        names_ascending(old(out)@),
    ensures
        names_ascending(final(out)@),
        forall|n: Seq<char>| #[trigger] has_key(final(out)@, n) <==> (has_key(old(out)@, n) || n == name@),
        forall|k: int|
            0 <= k < final(out)@.len() ==> if (#[trigger] final(out)@[k]).0@ == name@ {
                final(out)@[k].1 == value
            } else {
                exists|j: int| 0 <= j < old(out)@.len() && old(out)@[j] == final(out)@[k]
            },
{
    let ghost before = out@;
    let mut p: usize = 0;
    while p < out.len() && crate::order::str_lt(out[p].0.as_str(), name.as_str())
        invariant
            p <= out@.len(),
            out@ == before,
            forall|i: int| 0 <= i < p ==> seq_lt(#[trigger] out@[i].0@, name@),
        decreases out@.len() - p,
    {
        p += 1;
    }
    proof {
        if p < before.len() {
            crate::order::lemma_lt_total(before[p as int].0@, name@);
        }
    }
    if p < out.len() && str_eq(out[p].0.as_str(), name.as_str()) {
        let ghost kept = before[p as int].0;
        out.remove(p);
        out.insert(p, (name, value));
        proof {
            assert(out@ == before.update(p as int, (out@[p as int].0, value)));
            assert forall|i: int, j: int| 0 <= i < j < out@.len() implies seq_lt(
                #[trigger] out@[i].0@,
                #[trigger] out@[j].0@,
            ) by {
                assert(out@[i].0@ == before[i].0@ && out@[j].0@ == before[j].0@);
            }
            assert forall|n: Seq<char>| #[trigger] has_key(out@, n) <==> (has_key(before, n) || n == name@) by {
                if has_key(out@, n) {
                    let i = choose|i: int| 0 <= i < out@.len() && #[trigger] out@[i].0@ == n;
                    assert(before[i].0@ == n);
                }
                if has_key(before, n) {
                    let i = choose|i: int| 0 <= i < before.len() && #[trigger] before[i].0@ == n;
                    assert(out@[i].0@ == n);
                }
                if n == name@ {
                    assert(out@[p as int].0@ == n);
                }
            }
            assert forall|k: int| 0 <= k < out@.len() implies if (#[trigger] out@[k]).0@ == name@ {
                out@[k].1 == value
            } else {
                exists|j: int| 0 <= j < before.len() && before[j] == out@[k]
            } by {
                if out@[k].0@ == name@ {
                    if k != p {
                        if k < p {
                            crate::order::lemma_lt_irreflexive(name@);
                        } else {
                            crate::order::lemma_lt_asymmetric(before[p as int].0@, before[k].0@);
                            crate::order::lemma_lt_irreflexive(name@);
                        }
                    }
                } else {
                    assert(k != p);
                    assert(before[k] == out@[k]);
                }
            }
        }
    } else {
        out.insert(p, (name, value));
        proof {
            assert forall|i: int, j: int| 0 <= i < j < out@.len() implies seq_lt(
                #[trigger] out@[i].0@,
                #[trigger] out@[j].0@,
            ) by {
                if j < p {
                    assert(out@[i] == before[i] && out@[j] == before[j]);
                } else if j == p {
                    assert(out@[i] == before[i]);
                } else if i == p {
                    assert(out@[j] == before[j - 1]);
                    if j - 1 > p {
                        assert(seq_lt(before[p as int].0@, before[j - 1].0@));
                        crate::order::lemma_lt_transitive(name@, before[p as int].0@, before[j - 1].0@);
                    }
                } else if i < p {
                    assert(out@[i] == before[i] && out@[j] == before[j - 1]);
                } else {
                    assert(out@[i] == before[i - 1] && out@[j] == before[j - 1]);
                }
            }
            assert forall|n: Seq<char>| #[trigger] has_key(out@, n) <==> (has_key(before, n) || n == name@) by {
                if has_key(out@, n) {
                    let i = choose|i: int| 0 <= i < out@.len() && #[trigger] out@[i].0@ == n;
                    if i < p {
                        assert(before[i].0@ == n);
                    } else if i > p {
                        assert(before[i - 1].0@ == n);
                    }
                }
                if has_key(before, n) {
                    let i = choose|i: int| 0 <= i < before.len() && #[trigger] before[i].0@ == n;
                    if i < p {
                        assert(out@[i].0@ == n);
                    } else {
                        assert(out@[i + 1].0@ == n);
                    }
                }
                if n == name@ {
                    assert(out@[p as int].0@ == n);
                }
            }
            assert forall|k: int| 0 <= k < out@.len() implies if (#[trigger] out@[k]).0@ == name@ {
                out@[k].1 == value
            } else {
                exists|j: int| 0 <= j < before.len() && before[j] == out@[k]
            } by {
                if k < p {
                    assert(out@[k] == before[k]);
                    if out@[k].0@ == name@ {
                        crate::order::lemma_lt_irreflexive(name@);
                    }
                } else if k > p {
                    assert(out@[k] == before[k - 1]);
                    if out@[k].0@ == name@ {
                        if k - 1 == p {
                            crate::order::lemma_lt_irreflexive(name@);
                        } else {
                            assert(seq_lt(before[p as int].0@, before[k - 1].0@));
                            crate::order::lemma_lt_asymmetric(before[p as int].0@, name@);
                        }
                    }
                }
            }
        }
    }
}

/// Reading entry `m` keeps the table invariant for one more entry.
pub(crate) proof fn lemma_table_step<T>(
    entries: Seq<(YamlNode, YamlNode)>,
    m: int,
    before: Seq<(String, T)>,
    after: Seq<(String, T)>,
    name: Seq<char>,
    value: T,
    reads: spec_fn((YamlNode, YamlNode), T) -> bool,
)
    requires
        0 <= m < entries.len(),
        table_reads(entries.take(m), before, reads),
        name == entry_name(entries[m]),
        reads(entries[m], value),
        names_ascending(after),
        forall|n: Seq<char>| #[trigger] has_key(after, n) <==> (has_key(before, n) || n == name),
        forall|k: int|
            0 <= k < after.len() ==> if (#[trigger] after[k]).0@ == name {
                after[k].1 == value
            } else {
                exists|j: int| 0 <= j < before.len() && before[j] == after[k]
            },
    ensures
        table_reads(entries.take(m + 1), after, reads),
{
    let pre = entries.take(m);
    let cur = entries.take(m + 1);
    assert(cur == pre.push(entries[m]));
    assert forall|n: Seq<char>| #[trigger] has_key(after, n) <==> names_entry(cur, n) by {
        if names_entry(cur, n) {
            let k = choose|k: int| 0 <= k < cur.len() && entry_name(#[trigger] cur[k]) == n;
            if k < m {
                assert(pre[k] == cur[k]);
                assert(names_entry(pre, n));
            }
        }
        if names_entry(pre, n) {
            let k = choose|k: int| 0 <= k < pre.len() && entry_name(#[trigger] pre[k]) == n;
            assert(cur[k] == pre[k]);
        }
        if n == name {
            assert(cur[m] == entries[m]);
        }
    }
    assert forall|i: int| 0 <= i < after.len() implies {
        let k = last_index(cur, (#[trigger] after[i]).0@);
        last_named(cur, after[i].0@, k) && reads(cur[k], after[i].1)
    } by {
        if after[i].0@ == name {
            assert(cur[m] == entries[m]);
            assert(last_named(cur, after[i].0@, m));
            lemma_last_unique(cur, after[i].0@, m);
        } else {
            let j = choose|j: int| 0 <= j < before.len() && before[j] == after[i];
            let k = last_index(pre, before[j].0@);
            assert(last_named(pre, before[j].0@, k) && reads(pre[k], before[j].1));
            assert(cur[k] == pre[k]);
            assert forall|x: int| k < x < cur.len() implies entry_name(#[trigger] cur[x]) != after[i].0@ by {
                if x < m {
                    assert(cur[x] == pre[x]);
                } else {
                    assert(cur[x] == entries[m]);
                }
            }
            assert(last_named(cur, after[i].0@, k));
            lemma_last_unique(cur, after[i].0@, k);
        }
    }
}

pub(crate) proof fn lemma_table_start<T>(entries: Seq<(YamlNode, YamlNode)>, reads: spec_fn((YamlNode, YamlNode), T) -> bool)
    ensures
        table_reads(entries.take(0), Seq::<(String, T)>::empty(), reads),
{
    let pre = entries.take(0);
    assert forall|n: Seq<char>| #[trigger] has_key(Seq::<(String, T)>::empty(), n) <==> names_entry(pre, n) by {
    }
}

pub(crate) proof fn lemma_table_fail(
    entries: Seq<(YamlNode, YamlNode)>,
    i: int,
    fails: spec_fn((YamlNode, YamlNode)) -> bool,
    error: spec_fn((YamlNode, YamlNode), ParseError) -> bool,
    e: ParseError,
)
    requires
        0 <= i < entries.len(),
        forall|j: int| 0 <= j < i ==> !fails(#[trigger] entries[j]),
        fails(entries[i]),
        error(entries[i], e),
    ensures
        table_fails(entries, fails),
        table_error(entries, fails, error, e),
{
}

pub(crate) proof fn lemma_table_done<T>(
    entries: Seq<(YamlNode, YamlNode)>,
    out: Seq<(String, T)>,
    reads: spec_fn((YamlNode, YamlNode), T) -> bool,
    fails: spec_fn((YamlNode, YamlNode)) -> bool,
)
    requires
        table_reads(entries.take(entries.len() as int), out, reads),
        forall|j: int| 0 <= j < entries.len() ==> !fails(#[trigger] entries[j]),
    ensures
        table_reads(entries, out, reads),
        !table_fails(entries, fails),
{
    assert(entries.take(entries.len() as int) =~= entries);
}

proof fn lemma_entry_value_measurable(entries: Seq<(YamlNode, YamlNode)>, key: Seq<char>, i: int)
    requires
        forall|k: int| 0 <= k < entries.len() ==> all_measurable(#[trigger] entries[k].1),
    ensures
        entry_value(entries, key, i) matches Some(v) ==> all_measurable(v),
    decreases entries.len() - i,
{
    if 0 <= i < entries.len() {
        lemma_entry_value_measurable(entries, key, i + 1);
    }
}

/// A field of a measurable document is measurable.
pub proof fn lemma_field_measurable(doc: YamlNode, key: Seq<char>)
    requires
        all_measurable(doc),
    ensures
        field_of(doc, key) matches Some(v) ==> all_measurable(v),
{
    if let YamlNode::Hash(entries) = doc {
        lemma_entry_value_measurable(entries@, key, 0);
    }
}

// ── Services and actions ──

/// `d` is what a service entry's value reads as.
pub open spec fn service_reads(v: YamlNode, d: ServiceDecl) -> bool {
    &&& accepts_keys(v, Context::Service)
    &&& str_ok(v, "if"@, d.if_condition)
    &&& str_ok(v, "unless"@, d.unless_condition)
    &&& text_or_empty(v, "type"@, d.srv_type)
    &&& list_ok(v, "server"@, d.server)
    &&& list_ok(v, "client"@, d.client)
    &&& d.external == endpoint_side_of(v)
}

/// The side an `external:` selector of a service or action names.
pub open spec fn endpoint_side_of(v: YamlNode) -> Option<ExternalEndpointSide> {
    match field_of(v, "external"@) {
        Some(YamlNode::String(s)) => if s@ == "server"@ {
            Some(ExternalEndpointSide::Server)
        } else if s@ == "client"@ {
            Some(ExternalEndpointSide::Client)
        } else if s@ == "both"@ {
            Some(ExternalEndpointSide::Both)
        } else {
            None
        },
        _ => None,
    }
}

/// The `external:` selector of a service or action does not read.
pub open spec fn endpoint_side_bad(v: YamlNode) -> bool {
    match field_of(v, "external"@) {
        None | Some(YamlNode::Null) => false,
        Some(YamlNode::String(_)) => endpoint_side_of(v) is None,
        _ => true,
    }
}

pub open spec fn endpoint_side_error(v: YamlNode, ctx: Seq<char>, e: ParseError) -> bool {
    match field_of(v, "external"@) {
        Some(YamlNode::String(s)) => is_field_err(
            e,
            path_text(ctx, "external"@),
            "invalid external side '"@ + s@ + "', expected 'server', 'client', or 'both'"@,
        ),
        Some(other) => is_field_err(e, path_text(ctx, "external"@), type_err_text("a string"@, other)),
        None => false,
    }
}

/// A service or action entry's value does not read.
pub open spec fn endpoint_pair_fails(v: YamlNode, context: Context) -> bool {
    ||| !accepts_keys(v, context)
    ||| str_bad(v, "if"@)
    ||| str_bad(v, "unless"@)
    ||| str_bad(v, "type"@)
    ||| list_bad(v, "server"@)
    ||| list_bad(v, "client"@)
    ||| endpoint_side_bad(v)
}

/// `e` refuses a service or action entry's value, at its first fault.
pub open spec fn endpoint_pair_error(v: YamlNode, context: Context, ctx: Seq<char>, e: ParseError) -> bool {
    if !accepts_keys(v, context) {
        key_refused(v, context, ctx, e)
    } else if str_bad(v, "if"@) {
        str_error(v, "if"@, ctx, e)
    } else if str_bad(v, "unless"@) {
        str_error(v, "unless"@, ctx, e)
    } else if str_bad(v, "type"@) {
        str_error(v, "type"@, ctx, e)
    } else if list_bad(v, "server"@) {
        list_error(v, "server"@, ctx, e)
    } else if list_bad(v, "client"@) {
        list_error(v, "client"@, ctx, e)
    } else {
        endpoint_side_error(v, ctx, e)
    }
}

/// `d` is what an action entry's value reads as.
pub open spec fn action_reads(v: YamlNode, d: ActionDecl) -> bool {
    &&& accepts_keys(v, Context::Action)
    &&& str_ok(v, "if"@, d.if_condition)
    &&& str_ok(v, "unless"@, d.unless_condition)
    &&& text_or_empty(v, "type"@, d.action_type)
    &&& list_ok(v, "server"@, d.server)
    &&& list_ok(v, "client"@, d.client)
    &&& d.external == endpoint_side_of(v)
}

pub open spec fn service_entry_reads() -> spec_fn((YamlNode, YamlNode), ServiceDecl) -> bool {
    |en: (YamlNode, YamlNode), d: ServiceDecl| service_reads(en.1, d)
}

pub open spec fn action_entry_reads() -> spec_fn((YamlNode, YamlNode), ActionDecl) -> bool {
    |en: (YamlNode, YamlNode), d: ActionDecl| action_reads(en.1, d)
}

pub open spec fn pair_entry_fails(context: Context) -> spec_fn((YamlNode, YamlNode)) -> bool {
    |en: (YamlNode, YamlNode)| endpoint_pair_fails(en.1, context)
}

pub open spec fn pair_entry_error(context: Context, ctx: Seq<char>) -> spec_fn((YamlNode, YamlNode), ParseError) -> bool {
    |en: (YamlNode, YamlNode), e: ParseError| endpoint_pair_error(en.1, context, ctx, e)
}

/// The if/unless/type/server/client fields of a service or action entry.
fn read_endpoint_pair(v: &YamlNode, context: Context, ctx: &str) -> (r: Result<
    (Option<String>, Option<String>, String, Vec<String>, Vec<String>, Option<ExternalEndpointSide>),
    ParseError,
>)
    requires
        keys_measurable(*v),
    ensures
        match r {
            Ok((i, u, t, s, c, x)) => {
                &&& !endpoint_pair_fails(*v, context)
                &&& x == endpoint_side_of(*v)
                &&& accepts_keys(*v, context)
                &&& str_ok(*v, "if"@, i)
                &&& str_ok(*v, "unless"@, u)
                &&& text_or_empty(*v, "type"@, t)
                &&& list_ok(*v, "server"@, s)
                &&& list_ok(*v, "client"@, c)
            },
            Err(e) => endpoint_pair_fails(*v, context) && endpoint_pair_error(*v, context, ctx@, e),
        },
{
    let checked = reject_unknown_keys(v, ctx, context);
    proof {
        lemma_keys_checked(*v, ctx@, context, checked);
    }
    if let Err(e) = checked {
        return Err(e);
    }
    let i = match read_str(v, "if", ctx) {
        Ok(x) => x,
        Err(e) => {
            return Err(e);
        },
    };
    let u = match read_str(v, "unless", ctx) {
        Ok(x) => x,
        Err(e) => {
            return Err(e);
        },
    };
    let t = match read_text_or_empty(v, "type", ctx) {
        Ok(x) => x,
        Err(e) => {
            return Err(e);
        },
    };
    let s = match read_list(v, "server", ctx) {
        Ok(x) => x,
        Err(e) => {
            return Err(e);
        },
    };
    let c = match read_list(v, "client", ctx) {
        Ok(x) => x,
        Err(e) => {
            return Err(e);
        },
    };
    let x = match crate::path_fields::parse_external_endpoint_side(v, "external", ctx) {
        Ok(x) => x,
        Err(e) => {
            return Err(e);
        },
    };
    Ok((i, u, t, s, c, x))
}

/// The `services:` section: each entry's conditions, type (empty when
/// absent) and server and client lists.
pub fn read_services(doc: &YamlNode, ctx: &str) -> (r: Result<Vec<(String, ServiceDecl)>, ParseError>)
    requires
        all_measurable(*doc),
    ensures
        section_reads(
            *doc,
            "services"@,
            ctx@,
            r,
            service_entry_reads(),
            pair_entry_fails(Context::Service),
            pair_entry_error(Context::Service, ctx@),
        ),
{
    proof {
        lemma_field_measurable(*doc, "services"@);
    }
    match field(doc, "services") {
        None => Ok(Vec::new()),
        Some(YamlNode::Hash(entries)) => {
            let ghost reads = service_entry_reads();
            let ghost fails = pair_entry_fails(Context::Service);
            let ghost error = pair_entry_error(Context::Service, ctx@);
            let mut out: Vec<(String, ServiceDecl)> = Vec::new();
            proof {
                lemma_table_start(entries@, reads);
            }
            let mut i: usize = 0;
            while i < entries.len()
                invariant
                    i <= entries@.len(),
                    forall|k: int| 0 <= k < entries@.len() ==> all_measurable(#[trigger] entries@[k].1),
                    field_of(*doc, "services"@) == Some(YamlNode::Hash(*entries)),
                    reads == service_entry_reads(),
                    fails == pair_entry_fails(Context::Service),
                    error == pair_entry_error(Context::Service, ctx@),
                    table_reads(entries@.take(i as int), out@, reads),
                    forall|j: int| 0 <= j < i ==> !fails(#[trigger] entries@[j]),
                decreases entries@.len() - i,
            {
                let v = &entries[i].1;
                proof {
                    assert(all_measurable(entries@[i as int].1));
                }
                match read_endpoint_pair(v, Context::Service, ctx) {
                    Ok((if_condition, unless_condition, srv_type, server, client, external)) => {
                        let d = ServiceDecl { if_condition, unless_condition, srv_type, server, client, external };
                        let ghost dv = d;
                        let name = yaml_str_owned(&entries[i].0);
                        let ghost before = out@;
                        put_entry(&mut out, name, d);
                        proof {
                            assert(reads(entries@[i as int], dv));
                            lemma_table_step(entries@, i as int, before, out@, entry_name(entries@[i as int]), dv, reads);
                        }
                    },
                    Err(e) => {
                        proof {
                            lemma_table_fail(entries@, i as int, fails, error, e);
                        }
                        return Err(e);
                    },
                }
                i += 1;
            }
            proof {
                lemma_table_done(entries@, out@, reads, fails);
            }
            Ok(out)
        },
        Some(_) => Err(field_err(ctx, "services", "expected mapping")),
    }
}

/// The `actions:` section: each entry's conditions, type (empty when
/// absent) and server and client lists.
pub fn read_actions(doc: &YamlNode, ctx: &str) -> (r: Result<Vec<(String, ActionDecl)>, ParseError>)
    requires
        all_measurable(*doc),
    ensures
        section_reads(
            *doc,
            "actions"@,
            ctx@,
            r,
            action_entry_reads(),
            pair_entry_fails(Context::Action),
            pair_entry_error(Context::Action, ctx@),
        ),
{
    proof {
        lemma_field_measurable(*doc, "actions"@);
    }
    match field(doc, "actions") {
        None => Ok(Vec::new()),
        Some(YamlNode::Hash(entries)) => {
            let ghost reads = action_entry_reads();
            let ghost fails = pair_entry_fails(Context::Action);
            let ghost error = pair_entry_error(Context::Action, ctx@);
            let mut out: Vec<(String, ActionDecl)> = Vec::new();
            proof {
                lemma_table_start(entries@, reads);
            }
            let mut i: usize = 0;
            while i < entries.len()
                invariant
                    i <= entries@.len(),
                    forall|k: int| 0 <= k < entries@.len() ==> all_measurable(#[trigger] entries@[k].1),
                    field_of(*doc, "actions"@) == Some(YamlNode::Hash(*entries)),
                    reads == action_entry_reads(),
                    fails == pair_entry_fails(Context::Action),
                    error == pair_entry_error(Context::Action, ctx@),
                    table_reads(entries@.take(i as int), out@, reads),
                    forall|j: int| 0 <= j < i ==> !fails(#[trigger] entries@[j]),
                decreases entries@.len() - i,
            {
                let v = &entries[i].1;
                proof {
                    assert(all_measurable(entries@[i as int].1));
                }
                match read_endpoint_pair(v, Context::Action, ctx) {
                    Ok((if_condition, unless_condition, action_type, server, client, external)) => {
                        let d = ActionDecl { if_condition, unless_condition, action_type, server, client, external };
                        let ghost dv = d;
                        let name = yaml_str_owned(&entries[i].0);
                        let ghost before = out@;
                        put_entry(&mut out, name, d);
                        proof {
                            assert(reads(entries@[i as int], dv));
                            lemma_table_step(entries@, i as int, before, out@, entry_name(entries@[i as int]), dv, reads);
                        }
                    },
                    Err(e) => {
                        proof {
                            lemma_table_fail(entries@, i as int, fails, error, e);
                        }
                        return Err(e);
                    },
                }
                i += 1;
            }
            proof {
                lemma_table_done(entries@, out@, reads, fails);
            }
            Ok(out)
        },
        Some(_) => Err(field_err(ctx, "actions", "expected mapping")),
    }
}

// ── Sections ──

/// Section `key` of `doc` does not read: not a mapping, or an entry that
/// does not.
pub open spec fn section_fails(doc: YamlNode, key: Seq<char>, fails: spec_fn((YamlNode, YamlNode)) -> bool) -> bool {
    match field_of(doc, key) {
        None => false,
        Some(YamlNode::Hash(entries)) => table_fails(entries@, fails),
        Some(_) => true,
    }
}

/// `e` refuses section `key` of `doc`.
pub open spec fn section_error(
    doc: YamlNode,
    key: Seq<char>,
    ctx: Seq<char>,
    fails: spec_fn((YamlNode, YamlNode)) -> bool,
    error: spec_fn((YamlNode, YamlNode), ParseError) -> bool,
    e: ParseError,
) -> bool {
    match field_of(doc, key) {
        Some(YamlNode::Hash(entries)) => table_error(entries@, fails, error, e),
        Some(_) => is_field_err(e, path_text(ctx, key), "expected mapping"@),
        None => false,
    }
}

proof fn lemma_section<T>(
    doc: YamlNode,
    key: Seq<char>,
    ctx: Seq<char>,
    r: Result<Vec<(String, T)>, ParseError>,
    reads: spec_fn((YamlNode, YamlNode), T) -> bool,
    fails: spec_fn((YamlNode, YamlNode)) -> bool,
    error: spec_fn((YamlNode, YamlNode), ParseError) -> bool,
)
    requires
        section_reads(doc, key, ctx, r, reads, fails, error),
    ensures
        r is Err <==> section_fails(doc, key, fails),
        r matches Err(e) ==> section_error(doc, key, ctx, fails, error, e),
{
}

// ── Paths ──

/// Why a `correlation:` key is refused.
pub const CORRELATION_REMOVED: &'static str = "`correlation:` was removed — nothing ever read it. A fan-in path \
             states its policy with `sync:`, which IS checked:\n\
             \x20 sync: { policy: approximate, max_interval: <window> }   # was `timestamp`\n\
             \x20 (no `sync:` at all)                                       # was `latest`\n\
             `tolerance:` stays: it is the stamp spread the callback accepts, \
             and `sync-budget` checks it against `max_latency`.";

/// `l` is what the `input:` field reads as: one name or a list of them.
pub open spec fn input_ok(doc: YamlNode, l: Vec<String>) -> bool {
    match field_of(doc, "input"@) {
        None | Some(YamlNode::BadValue) | Some(YamlNode::Null) => l@.len() == 0,
        Some(YamlNode::String(s)) => l@.len() == 1 && l@[0]@ == s@,
        Some(YamlNode::Array(arr)) => {
            &&& l@.len() == arr@.len()
            &&& forall|i: int| 0 <= i < arr@.len() ==> is_scalar(#[trigger] arr@[i]) && l@[i]@ == scalar_text(arr@[i])
        },
        _ => false,
    }
}

pub open spec fn input_bad(doc: YamlNode) -> bool {
    match field_of(doc, "input"@) {
        None | Some(YamlNode::BadValue) | Some(YamlNode::Null) | Some(YamlNode::String(_)) => false,
        Some(YamlNode::Array(arr)) => exists|i: int| 0 <= i < arr@.len() && !is_scalar(#[trigger] arr@[i]),
        _ => true,
    }
}

pub open spec fn input_error(doc: YamlNode, ctx: Seq<char>, e: ParseError) -> bool {
    match field_of(doc, "input"@) {
        Some(YamlNode::Array(arr)) => scalar_list_ok(arr@, "input"@, ctx, Err(e)),
        Some(other) => is_field_err(e, path_text(ctx, "input"@), type_err_text("a list or a single name"@, other)),
        None => false,
    }
}

/// `d` is what a path's value reads as: its whole declaration reads (see
/// [`crate::path_decl::read_path_decl`]), and `d` holds its conditions,
/// inputs and outputs.
pub open spec fn path_reads(v: YamlNode, d: PathText) -> bool {
    &&& !crate::path_decl::path_decl_fails(v, Seq::empty())
    &&& input_ok(v, d.input)
    &&& str_ok(v, "if"@, d.if_condition)
    &&& str_ok(v, "unless"@, d.unless_condition)
    &&& list_ok(v, "output"@, d.output)
    &&& d.correlation is None
    &&& crate::path_decl::contract_read(v, d.contract)
}

pub open spec fn path_fails(v: YamlNode) -> bool {
    crate::path_decl::path_decl_fails(v, Seq::empty())
}

pub open spec fn path_error(v: YamlNode, here: Seq<char>, e: ParseError) -> bool {
    crate::path_decl::path_decl_error(v, here, e)
}

/// Where entry `en` of section `key` sits under `ctx`.
pub open spec fn entry_ctx(ctx: Seq<char>, key: Seq<char>, en: (YamlNode, YamlNode)) -> Seq<char> {
    path_text(ctx, key + "."@ + entry_name(en))
}

pub open spec fn path_entry_reads() -> spec_fn((YamlNode, YamlNode), PathText) -> bool {
    |en: (YamlNode, YamlNode), d: PathText| path_reads(en.1, d)
}

pub open spec fn path_entry_fails() -> spec_fn((YamlNode, YamlNode)) -> bool {
    |en: (YamlNode, YamlNode)| path_fails(en.1)
}

pub open spec fn path_entry_error(ctx: Seq<char>) -> spec_fn((YamlNode, YamlNode), ParseError) -> bool {
    |en: (YamlNode, YamlNode), e: ParseError| path_error(en.1, entry_ctx(ctx, "paths"@, en), e)
}

pub(crate) fn read_input(doc: &YamlNode, ctx: &str) -> (r: Result<Vec<String>, ParseError>)
    ensures
        match r {
            Ok(l) => !input_bad(*doc) && input_ok(*doc, l),
            Err(e) => input_bad(*doc) && input_error(*doc, ctx@, e),
        },
{
    let r = parse_string_or_list(doc, "input", ctx);
    let ghost rr = r;
    proof {
        if let Some(YamlNode::Array(arr)) = field_of(*doc, "input"@) {
            if let Ok(l) = rr {
                assert forall|i: int| 0 <= i < arr@.len() implies is_scalar(#[trigger] arr@[i]) && l@[i]@
                    == scalar_text(arr@[i]) by {
                    assert(l@[i]@ == scalar_text(arr@[i]));
                }
            }
        }
    }
    r
}

fn read_path(v: &YamlNode, here: &str) -> (r: Result<PathText, ParseError>)
    requires
        all_measurable(*v),
    ensures
        match r {
            Ok(d) => !path_fails(*v) && path_reads(*v, d),
            Err(e) => path_fails(*v) && path_error(*v, here@, e),
        },
{
    proof {
        crate::path_decl::lemma_fails_anywhere(*v, here@);
    }
    match crate::path_decl::read_path_decl(v, here) {
        Ok(d) => {
            proof {
                crate::path_decl::lemma_contract_anywhere(*v, here@, d);
            }
            let contract = crate::path_decl::PathContract {
                trigger: d.trigger,
                sync: d.sync,
                max_latency: d.max_latency,
                tolerance: d.tolerance,
                min_latency: d.min_latency,
                max_jitter: d.max_jitter,
                drop: d.drop,
                miss: d.miss,
            };
            Ok(
                PathText {
                    if_condition: d.if_condition,
                    unless_condition: d.unless_condition,
                    input: d.input,
                    output: d.output,
                    correlation: None,
                    contract,
                },
            )
        },
        Err(e) => Err(e),
    }
}

/// The name and context of entry `i` of a section.
pub(crate) fn entry_here(ctx: &str, key: &str, k: &YamlNode) -> (r: (String, String))
    ensures
        r.0@ == scalar_text(*k),
        r.1@ == path_text(ctx@, key@ + "."@ + scalar_text(*k)),
{
    let name = yaml_str_owned(k);
    let mut sub = String::new();
    crate::text::push_str(&mut sub, key);
    crate::text::push_str(&mut sub, ".");
    crate::text::push_str(&mut sub, name.as_str());
    let here = format_path(ctx, sub.as_str());
    (name, here)
}

/// A `paths:` section, at scope or node level: each path's conditions,
/// inputs and outputs, under `ctx.paths.<name>`.
pub fn read_paths(doc: &YamlNode, ctx: &str) -> (r: Result<Vec<(String, PathText)>, ParseError>)
    requires
        all_measurable(*doc),
    ensures
        section_reads(*doc, "paths"@, ctx@, r, path_entry_reads(), path_entry_fails(), path_entry_error(ctx@)),
{
    proof {
        lemma_field_measurable(*doc, "paths"@);
    }
    match field(doc, "paths") {
        None => Ok(Vec::new()),
        Some(YamlNode::Hash(entries)) => {
            let ghost reads = path_entry_reads();
            let ghost fails = path_entry_fails();
            let ghost error = path_entry_error(ctx@);
            let mut out: Vec<(String, PathText)> = Vec::new();
            proof {
                lemma_table_start(entries@, reads);
            }
            let mut i: usize = 0;
            while i < entries.len()
                invariant
                    i <= entries@.len(),
                    field_of(*doc, "paths"@) == Some(YamlNode::Hash(*entries)),
                    forall|k: int| 0 <= k < entries@.len() ==> all_measurable(#[trigger] entries@[k].1),
                    reads == path_entry_reads(),
                    fails == path_entry_fails(),
                    error == path_entry_error(ctx@),
                    table_reads(entries@.take(i as int), out@, reads),
                    forall|j: int| 0 <= j < i ==> !fails(#[trigger] entries@[j]),
                decreases entries@.len() - i,
            {
                let (name, here) = entry_here(ctx, "paths", &entries[i].0);
                proof {
                    assert(all_measurable(entries@[i as int].1));
                    assert(here@ == entry_ctx(ctx@, "paths"@, entries@[i as int]));
                }
                match read_path(&entries[i].1, here.as_str()) {
                    Ok(d) => {
                        let ghost dv = d;
                        let ghost before = out@;
                        put_entry(&mut out, name, d);
                        proof {
                            assert(reads(entries@[i as int], dv));
                            lemma_table_step(entries@, i as int, before, out@, entry_name(entries@[i as int]), dv, reads);
                        }
                    },
                    Err(e) => {
                        proof {
                            lemma_table_fail(entries@, i as int, fails, error, e);
                        }
                        return Err(e);
                    },
                }
                i += 1;
            }
            proof {
                lemma_table_done(entries@, out@, reads, fails);
            }
            Ok(out)
        },
        Some(_) => Err(field_err(ctx, "paths", "expected mapping")),
    }
}

// ── Nodes ──

/// `d` is what a node's value reads as, under `here`.
pub open spec fn node_reads(v: YamlNode, here: Seq<char>, d: NodeText) -> bool {
    if v is Null || v is BadValue {
        d.if_condition is None && d.unless_condition is None && d.paths@.len() == 0
            && crate::node_decl::no_endpoints(d.endpoints)
    } else {
        &&& accepts_keys(v, Context::Node)
        &&& str_ok(v, "if"@, d.if_condition)
        &&& str_ok(v, "unless"@, d.unless_condition)
        &&& section_reads(
            v,
            "paths"@,
            here,
            Ok::<Vec<(String, PathText)>, ParseError>(d.paths),
            path_entry_reads(),
            path_entry_fails(),
            path_entry_error(here),
        )
        &&& crate::node_decl::node_endpoints_read(v, d.endpoints)
    }
}

pub open spec fn node_fails(v: YamlNode) -> bool {
    !(v is Null || v is BadValue) && {
        ||| !accepts_keys(v, Context::Node)
        ||| str_bad(v, "if"@)
        ||| str_bad(v, "unless"@)
        ||| crate::node_decl::node_head_fails(v)
        ||| section_fails(v, "paths"@, path_entry_fails())
        ||| crate::node_decl::node_tail_fails(v)
    }
}

/// The first refusal of a node, in reading order: keys, conditions,
/// lifecycle and endpoints, paths, then criticality, concurrency and the
/// endpoint names.
pub open spec fn node_error(v: YamlNode, here: Seq<char>, e: ParseError) -> bool {
    if !accepts_keys(v, Context::Node) {
        key_refused(v, Context::Node, here, e)
    } else if str_bad(v, "if"@) {
        str_error(v, "if"@, here, e)
    } else if str_bad(v, "unless"@) {
        str_error(v, "unless"@, here, e)
    } else if crate::node_decl::node_head_fails(v) {
        crate::node_decl::node_head_error(v, here, e)
    } else if section_fails(v, "paths"@, path_entry_fails()) {
        section_error(v, "paths"@, here, path_entry_fails(), path_entry_error(here), e)
    } else {
        crate::node_decl::node_tail_error(v, here, e)
    }
}

pub open spec fn node_entry_reads(ctx: Seq<char>) -> spec_fn((YamlNode, YamlNode), NodeText) -> bool {
    |en: (YamlNode, YamlNode), d: NodeText| node_reads(en.1, entry_ctx(ctx, "nodes"@, en), d)
}

pub open spec fn node_entry_fails() -> spec_fn((YamlNode, YamlNode)) -> bool {
    |en: (YamlNode, YamlNode)| node_fails(en.1)
}

pub open spec fn node_entry_error(ctx: Seq<char>) -> spec_fn((YamlNode, YamlNode), ParseError) -> bool {
    |en: (YamlNode, YamlNode), e: ParseError| node_error(en.1, entry_ctx(ctx, "nodes"@, en), e)
}

fn read_node(v: &YamlNode, here: &str) -> (r: Result<NodeText, ParseError>)
    requires
        all_measurable(*v),
    ensures
        match r {
            Ok(d) => !node_fails(*v) && node_reads(*v, here@, d),
            Err(e) => node_fails(*v) && node_error(*v, here@, e),
        },
{
    match v {
        YamlNode::Null | YamlNode::BadValue => {
            return Ok(
                NodeText {
                    if_condition: None,
                    unless_condition: None,
                    paths: Vec::new(),
                    endpoints: crate::node_decl::NodeEndpoints::none(),
                },
            );
        },
        _ => {},
    }
    let checked = reject_unknown_keys(v, here, Context::Node);
    proof {
        lemma_keys_checked(*v, here@, Context::Node, checked);
    }
    if let Err(e) = checked {
        return Err(e);
    }
    let if_condition = match read_str(v, "if", here) {
        Ok(x) => x,
        Err(e) => {
            return Err(e);
        },
    };
    let unless_condition = match read_str(v, "unless", here) {
        Ok(x) => x,
        Err(e) => {
            return Err(e);
        },
    };
    let (lifecycle, publishers, subscribers, srv, cli) = match crate::node_decl::read_node_head(v, here) {
        Ok(x) => x,
        Err(e) => {
            return Err(e);
        },
    };
    let r = read_paths(v, here);
    proof {
        lemma_section(*v, "paths"@, here@, r, path_entry_reads(), path_entry_fails(), path_entry_error(here@));
    }
    let paths = match r {
        Ok(x) => x,
        Err(e) => {
            return Err(e);
        },
    };
    let (criticality, concurrency) = match crate::node_decl::read_node_tail(
        v,
        here,
        &publishers,
        &subscribers,
        &srv,
        &cli,
    ) {
        Ok(x) => x,
        Err(e) => {
            return Err(e);
        },
    };
    let endpoints = crate::node_decl::NodeEndpoints {
        lifecycle,
        publishers,
        subscribers,
        srv,
        cli,
        criticality,
        concurrency,
    };
    Ok(NodeText { if_condition, unless_condition, paths, endpoints })
}

/// The `nodes:` section: each node's conditions and paths, under
/// `ctx.nodes.<name>`; a null node declares nothing.
pub fn read_nodes(doc: &YamlNode, ctx: &str) -> (r: Result<Vec<(String, NodeText)>, ParseError>)
    requires
        all_measurable(*doc),
    ensures
        section_reads(*doc, "nodes"@, ctx@, r, node_entry_reads(ctx@), node_entry_fails(), node_entry_error(ctx@)),
{
    proof {
        lemma_field_measurable(*doc, "nodes"@);
    }
    match field(doc, "nodes") {
        None => Ok(Vec::new()),
        Some(YamlNode::Hash(entries)) => {
            let ghost reads = node_entry_reads(ctx@);
            let ghost fails = node_entry_fails();
            let ghost error = node_entry_error(ctx@);
            let mut out: Vec<(String, NodeText)> = Vec::new();
            proof {
                lemma_table_start(entries@, reads);
            }
            let mut i: usize = 0;
            while i < entries.len()
                invariant
                    i <= entries@.len(),
                    field_of(*doc, "nodes"@) == Some(YamlNode::Hash(*entries)),
                    forall|k: int| 0 <= k < entries@.len() ==> all_measurable(#[trigger] entries@[k].1),
                    reads == node_entry_reads(ctx@),
                    fails == node_entry_fails(),
                    error == node_entry_error(ctx@),
                    table_reads(entries@.take(i as int), out@, reads),
                    forall|j: int| 0 <= j < i ==> !fails(#[trigger] entries@[j]),
                decreases entries@.len() - i,
            {
                let (name, here) = entry_here(ctx, "nodes", &entries[i].0);
                proof {
                    assert(all_measurable(entries@[i as int].1));
                    assert(here@ == entry_ctx(ctx@, "nodes"@, entries@[i as int]));
                }
                match read_node(&entries[i].1, here.as_str()) {
                    Ok(d) => {
                        let ghost dv = d;
                        let ghost before = out@;
                        put_entry(&mut out, name, d);
                        proof {
                            assert(reads(entries@[i as int], dv));
                            lemma_table_step(entries@, i as int, before, out@, entry_name(entries@[i as int]), dv, reads);
                        }
                    },
                    Err(e) => {
                        proof {
                            lemma_table_fail(entries@, i as int, fails, error, e);
                        }
                        return Err(e);
                    },
                }
                i += 1;
            }
            proof {
                lemma_table_done(entries@, out@, reads, fails);
            }
            Ok(out)
        },
        Some(_) => Err(field_err(ctx, "nodes", "expected mapping")),
    }
}

// ── Topics ──

/// `d` is what a topic's value reads as: a bare string is the message type.
pub open spec fn topic_reads(v: YamlNode, d: TopicText) -> bool {
    &&& accepts_keys(v, Context::Topic)
    &&& match v {
        YamlNode::String(s) => {
            &&& d.if_condition is None
            &&& d.unless_condition is None
            &&& d.msg_type@ == s@
            &&& d.publishers@.len() == 0
            &&& d.subscribers@.len() == 0
            &&& no_extras(d.extras)
        },
        _ => {
            &&& str_ok(v, "if"@, d.if_condition)
            &&& str_ok(v, "unless"@, d.unless_condition)
            &&& (field_of(v, "type"@) matches Some(YamlNode::String(t)) && d.msg_type@ == t@)
            &&& list_ok(v, "pub"@, d.publishers)
            &&& list_ok(v, "sub"@, d.subscribers)
            &&& topic_extras_read(v, d.extras)
        },
    }
}

/// `x` is what a topic declares besides its type and endpoints: its QoS,
/// rate, transport latency, drop tolerance and external side.
pub open spec fn topic_extras_read(v: YamlNode, x: TopicExtras) -> bool {
    &&& qos_reads(v, x.qos)
    &&& number_ok(v, "rate_hz"@, x.rate_hz)
    &&& delivers(Ok(x.max_transport), duration_read(v, "max_transport"@, "max_transport_ms"@))
    &&& drop_value(v, "drop"@, x.drop)
    &&& x.external == side_value(v, "external"@)
}

/// The topic's `type` is missing.
pub open spec fn type_missing(v: YamlNode) -> bool {
    field_of(v, "type"@) is None || field_of(v, "type"@) == Some(YamlNode::Null)
}

/// A field a topic declares beyond its type and endpoints does not read:
/// QoS, rate, transport latency, drop tolerance, external side.
pub open spec fn topic_extra_fails(v: YamlNode) -> bool {
    ||| qos_fails(v)
    ||| number_bad(v, "rate_hz"@)
    ||| duration_read(v, "max_transport"@, "max_transport_ms"@) is Err
    ||| crate::path_decl::drop_fails(v)
    ||| side_bad(v, "external"@)
}

pub open spec fn topic_fails(v: YamlNode) -> bool {
    ||| !accepts_keys(v, Context::Topic)
    ||| (!(v is String) && {
        ||| str_bad(v, "if"@)
        ||| str_bad(v, "unless"@)
        ||| str_bad(v, "type"@)
        ||| type_missing(v)
        ||| list_bad(v, "pub"@)
        ||| list_bad(v, "sub"@)
        ||| topic_extra_fails(v)
    })
}

pub open spec fn topic_error(v: YamlNode, here: Seq<char>, e: ParseError) -> bool {
    if !accepts_keys(v, Context::Topic) {
        key_refused(v, Context::Topic, here, e)
    } else if str_bad(v, "if"@) {
        str_error(v, "if"@, here, e)
    } else if str_bad(v, "unless"@) {
        str_error(v, "unless"@, here, e)
    } else if str_bad(v, "type"@) {
        str_error(v, "type"@, here, e)
    } else if type_missing(v) {
        is_field_err(e, path_text(here, "type"@), "topic must have a type"@)
    } else if list_bad(v, "pub"@) {
        list_error(v, "pub"@, here, e)
    } else if list_bad(v, "sub"@) {
        list_error(v, "sub"@, here, e)
    } else if qos_fails(v) {
        qos_error(v, here, e)
    } else if number_bad(v, "rate_hz"@) {
        number_error(v, "rate_hz"@, here, e)
    } else if duration_read(v, "max_transport"@, "max_transport_ms"@) is Err {
        delivers(Err(e), duration_read(v, "max_transport"@, "max_transport_ms"@))
    } else if crate::path_decl::drop_fails(v) {
        crate::path_decl::drop_error(v, here, e)
    } else {
        side_error(v, "external"@, here, e)
    }
}

pub open spec fn topic_entry_reads() -> spec_fn((YamlNode, YamlNode), TopicText) -> bool {
    |en: (YamlNode, YamlNode), d: TopicText| topic_reads(en.1, d)
}

pub open spec fn topic_entry_fails() -> spec_fn((YamlNode, YamlNode)) -> bool {
    |en: (YamlNode, YamlNode)| topic_fails(en.1)
}

pub open spec fn topic_entry_error(ctx: Seq<char>) -> spec_fn((YamlNode, YamlNode), ParseError) -> bool {
    |en: (YamlNode, YamlNode), e: ParseError| topic_error(en.1, entry_ctx(ctx, "topics"@, en), e)
}

/// Read the QoS, rate, transport latency, drop tolerance and external
/// side a topic declares, in that order.
fn read_topic_extras(v: &YamlNode, here: &str) -> (r: Result<TopicExtras, ParseError>)
    requires
        all_measurable(*v),
    ensures
        match r {
            Ok(x) => !topic_extra_fails(*v) && topic_extras_read(*v, x),
            Err(e) => topic_extra_fails(*v) && if qos_fails(*v) {
                qos_error(*v, here@, e)
            } else if number_bad(*v, "rate_hz"@) {
                number_error(*v, "rate_hz"@, here@, e)
            } else if duration_read(*v, "max_transport"@, "max_transport_ms"@) is Err {
                delivers(Err(e), duration_read(*v, "max_transport"@, "max_transport_ms"@))
            } else if crate::path_decl::drop_fails(*v) {
                crate::path_decl::drop_error(*v, here@, e)
            } else {
                side_error(*v, "external"@, here@, e)
            },
        },
{
    let qos = match read_qos(v, here) {
        Ok(q) => q,
        Err(e) => {
            return Err(e);
        },
    };
    let rate_hz = match read_number(v, "rate_hz", here) {
        Ok(x) => x,
        Err(e) => {
            return Err(e);
        },
    };
    let max_transport = match yaml_duration(v, "max_transport", "max_transport_ms") {
        Ok(x) => x,
        Err(e) => {
            return Err(e);
        },
    };
    proof {
        lemma_field_measurable(*v, "drop"@);
        if let Some(sec) = field_of(*v, "drop"@) {
            assert(keys_measurable(sec));
        }
    }
    let drop = match crate::yaml_fields::parse_drop_spec(v, "drop", here) {
        Ok(x) => x,
        Err(e) => {
            return Err(e);
        },
    };
    match parse_external_side(v, "external", here) {
        Err(e) => Err(e),
        Ok(external) => Ok(TopicExtras { qos, rate_hz, max_transport, drop, external }),
    }
}

fn read_topic(v: &YamlNode, here: &str) -> (r: Result<TopicText, ParseError>)
    requires
        all_measurable(*v),
    ensures
        match r {
            Ok(d) => !topic_fails(*v) && topic_reads(*v, d),
            Err(e) => topic_fails(*v) && topic_error(*v, here@, e),
        },
{
    assert(keys_measurable(*v));
    let checked = reject_unknown_keys(v, here, Context::Topic);
    proof {
        lemma_keys_checked(*v, here@, Context::Topic, checked);
    }
    if let Err(e) = checked {
        return Err(e);
    }
    if let YamlNode::String(s) = v {
        return Ok(
            TopicText {
                if_condition: None,
                unless_condition: None,
                msg_type: s.clone(),
                publishers: Vec::new(),
                subscribers: Vec::new(),
                extras: TopicExtras::none(),
            },
        );
    }
    let if_condition = match read_str(v, "if", here) {
        Ok(x) => x,
        Err(e) => {
            return Err(e);
        },
    };
    let unless_condition = match read_str(v, "unless", here) {
        Ok(x) => x,
        Err(e) => {
            return Err(e);
        },
    };
    let msg_type = match read_str(v, "type", here) {
        Ok(Some(t)) => t,
        Ok(None) => {
            return Err(field_err(here, "type", "topic must have a type"));
        },
        Err(e) => {
            return Err(e);
        },
    };
    let publishers = match read_list(v, "pub", here) {
        Ok(x) => x,
        Err(e) => {
            return Err(e);
        },
    };
    let subscribers = match read_list(v, "sub", here) {
        Ok(x) => x,
        Err(e) => {
            return Err(e);
        },
    };
    let extras = match read_topic_extras(v, here) {
        Ok(x) => x,
        Err(e) => {
            return Err(e);
        },
    };
    Ok(TopicText { if_condition, unless_condition, msg_type, publishers, subscribers, extras })
}

/// The `topics:` section: each topic's conditions, type and endpoint lists,
/// under `ctx.topics.<name>`; a bare string is just the type.
pub fn read_topics(doc: &YamlNode, ctx: &str) -> (r: Result<Vec<(String, TopicText)>, ParseError>)
    requires
        all_measurable(*doc),
    ensures
        section_reads(*doc, "topics"@, ctx@, r, topic_entry_reads(), topic_entry_fails(), topic_entry_error(ctx@)),
{
    proof {
        lemma_field_measurable(*doc, "topics"@);
    }
    match field(doc, "topics") {
        None => Ok(Vec::new()),
        Some(YamlNode::Hash(entries)) => {
            let ghost reads = topic_entry_reads();
            let ghost fails = topic_entry_fails();
            let ghost error = topic_entry_error(ctx@);
            let mut out: Vec<(String, TopicText)> = Vec::new();
            proof {
                lemma_table_start(entries@, reads);
            }
            let mut i: usize = 0;
            while i < entries.len()
                invariant
                    i <= entries@.len(),
                    field_of(*doc, "topics"@) == Some(YamlNode::Hash(*entries)),
                    forall|k: int| 0 <= k < entries@.len() ==> all_measurable(#[trigger] entries@[k].1),
                    reads == topic_entry_reads(),
                    fails == topic_entry_fails(),
                    error == topic_entry_error(ctx@),
                    table_reads(entries@.take(i as int), out@, reads),
                    forall|j: int| 0 <= j < i ==> !fails(#[trigger] entries@[j]),
                decreases entries@.len() - i,
            {
                let (name, here) = entry_here(ctx, "topics", &entries[i].0);
                proof {
                    assert(all_measurable(entries@[i as int].1));
                    assert(here@ == entry_ctx(ctx@, "topics"@, entries@[i as int]));
                }
                match read_topic(&entries[i].1, here.as_str()) {
                    Ok(d) => {
                        let ghost dv = d;
                        let ghost before = out@;
                        put_entry(&mut out, name, d);
                        proof {
                            assert(reads(entries@[i as int], dv));
                            lemma_table_step(entries@, i as int, before, out@, entry_name(entries@[i as int]), dv, reads);
                        }
                    },
                    Err(e) => {
                        proof {
                            lemma_table_fail(entries@, i as int, fails, error, e);
                        }
                        return Err(e);
                    },
                }
                i += 1;
            }
            proof {
                lemma_table_done(entries@, out@, reads, fails);
            }
            Ok(out)
        },
        Some(_) => Err(field_err(ctx, "topics", "expected mapping")),
    }
}

// ── Arguments ──

/// An argument declaration does not read.
pub open spec fn arg_bad(v: YamlNode) -> bool {
    !(v is Null || v is BadValue) && match field_of(v, "type"@) {
        Some(YamlNode::String(_)) => false,
        Some(YamlNode::Null) | None => match field_of(v, "choices"@) {
            None | Some(YamlNode::Null) => false,
            Some(YamlNode::Array(arr)) => exists|i: int| 0 <= i < arr@.len() && !is_scalar(#[trigger] arr@[i]),
            _ => true,
        },
        _ => true,
    }
}

pub open spec fn arg_entry_reads(ctx: Seq<char>) -> spec_fn((YamlNode, YamlNode), ArgDecl) -> bool {
    |en: (YamlNode, YamlNode), d: ArgDecl| arg_decl_read(en.1, entry_ctx(ctx, "args"@, en), Ok(d))
}

pub open spec fn arg_entry_fails() -> spec_fn((YamlNode, YamlNode)) -> bool {
    |en: (YamlNode, YamlNode)| arg_bad(en.1)
}

pub open spec fn arg_entry_error(ctx: Seq<char>) -> spec_fn((YamlNode, YamlNode), ParseError) -> bool {
    |en: (YamlNode, YamlNode), e: ParseError| arg_decl_read(en.1, entry_ctx(ctx, "args"@, en), Err(e))
}

/// A list of names read as free-string arguments, by name ascending.
pub open spec fn name_table(arr: Seq<YamlNode>, out: Seq<(String, ArgDecl)>) -> bool {
    &&& names_ascending(out)
    &&& forall|n: Seq<char>| #[trigger] has_key(out, n) <==> exists|i: int| 0 <= i < arr.len() && scalar_text(#[trigger] arr[i]) == n
    &&& forall|i: int| 0 <= i < out.len() ==> (#[trigger] out[i]).1 is String
}

/// What reading the `args:` section gives: a list of names (each a free
/// string) or a mapping of declarations.
pub open spec fn args_read(doc: YamlNode, ctx: Seq<char>, r: Result<Vec<(String, ArgDecl)>, ParseError>) -> bool {
    match field_of(doc, "args"@) {
        None | Some(YamlNode::Null) => r matches Ok(v) && v@.len() == 0,
        Some(YamlNode::Array(arr)) => if exists|i: int| 0 <= i < arr@.len() && !is_scalar(#[trigger] arr@[i]) {
            r matches Err(e) && scalar_list_ok(arr@, "args"@, ctx, Err(e))
        } else {
            r matches Ok(v) && name_table(arr@, v@)
        },
        Some(YamlNode::Hash(entries)) => if table_fails(entries@, arg_entry_fails()) {
            r matches Err(e) && table_error(entries@, arg_entry_fails(), arg_entry_error(ctx), e)
        } else {
            r matches Ok(v) && table_reads(entries@, v@, arg_entry_reads(ctx))
        },
        Some(other) => r matches Err(e) && is_field_err(
            e,
            path_text(ctx, "args"@),
            type_err_text("a list of names or a mapping"@, other),
        ),
    }
}

/// The `args:` section does not read.
pub open spec fn args_fail(doc: YamlNode) -> bool {
    match field_of(doc, "args"@) {
        None | Some(YamlNode::Null) => false,
        Some(YamlNode::Array(arr)) => exists|i: int| 0 <= i < arr@.len() && !is_scalar(#[trigger] arr@[i]),
        Some(YamlNode::Hash(entries)) => table_fails(entries@, arg_entry_fails()),
        Some(_) => true,
    }
}

fn read_arg(v: &YamlNode, here: &str) -> (r: Result<ArgDecl, ParseError>)
    ensures
        match r {
            Ok(d) => !arg_bad(*v) && arg_decl_read(*v, here@, Ok(d)),
            Err(e) => arg_bad(*v) && arg_decl_read(*v, here@, Err(e)),
        },
{
    let r = parse_arg_decl(v, here);
    let ghost rr = r;
    proof {
        if !(*v is Null || *v is BadValue) {
            if let Some(YamlNode::Null) | None = field_of(*v, "type"@) {
                if let Some(YamlNode::Array(arr)) = field_of(*v, "choices"@) {
                    match rr {
                        Ok(ArgDecl::Choices(l)) => {
                            assert(scalar_list_ok(arr@, "choices"@, here@, Ok::<Vec<String>, ParseError>(l)));
                        },
                        Ok(ArgDecl::String) => {
                            assert(arr@.len() == 0);
                        },
                        _ => {},
                    }
                }
            }
        }
    }
    r
}

/// The `args:` section: a list of names (each a free string) or a mapping
/// of declarations under `ctx.args.<name>`; absent or null is no arguments.
pub fn read_args(doc: &YamlNode, ctx: &str) -> (r: Result<Vec<(String, ArgDecl)>, ParseError>)
    ensures
        args_read(*doc, ctx@, r),
        r is Err <==> args_fail(*doc),
{
    match field(doc, "args") {
        None => Ok(Vec::new()),
        Some(YamlNode::Null) => Ok(Vec::new()),
        Some(YamlNode::Array(arr)) => {
            let names = match yaml_scalar_list(arr.as_slice(), "args", ctx) {
                Ok(n) => n,
                Err(e) => {
                    return Err(e);
                },
            };
            let mut out: Vec<(String, ArgDecl)> = Vec::new();
            let mut i: usize = 0;
            while i < names.len()
                invariant
                    i <= names@.len(),
                    names@.len() == arr@.len(),
                    forall|j: int| 0 <= j < arr@.len() ==> (#[trigger] names@[j])@ == scalar_text(arr@[j]),
                    names_ascending(out@),
                    forall|n: Seq<char>| #[trigger] has_key(out@, n) <==> exists|j: int|
                        0 <= j < i && scalar_text(#[trigger] arr@[j]) == n,
                    forall|k: int| 0 <= k < out@.len() ==> (#[trigger] out@[k]).1 is String,
                decreases names@.len() - i,
            {
                let ghost before = out@;
                let name = names[i].clone();
                proof {
                    assert(name@ == scalar_text(arr@[i as int]));
                }
                put_entry(&mut out, name, ArgDecl::String);
                proof {
                    assert forall|n: Seq<char>| #[trigger] has_key(out@, n) <==> exists|j: int|
                        0 <= j < i + 1 && scalar_text(#[trigger] arr@[j]) == n by {
                        if has_key(before, n) {
                            let j = choose|j: int| 0 <= j < i && scalar_text(#[trigger] arr@[j]) == n;
                            assert(0 <= j < i + 1 && scalar_text(arr@[j]) == n);
                        }
                        if n == scalar_text(arr@[i as int]) {
                            assert(scalar_text(arr@[i as int]) == n);
                        }
                        if exists|j: int| 0 <= j < i + 1 && scalar_text(#[trigger] arr@[j]) == n {
                            let j = choose|j: int| 0 <= j < i + 1 && scalar_text(#[trigger] arr@[j]) == n;
                            if j < i {
                                assert(has_key(before, n));
                            }
                        }
                    }
                    assert forall|k: int| 0 <= k < out@.len() implies (#[trigger] out@[k]).1 is String by {
                        if out@[k].0@ != scalar_text(arr@[i as int]) {
                            let j = choose|j: int| 0 <= j < before.len() && before[j] == out@[k];
                            assert(before[j].1 is String);
                        }
                    }
                }
                i += 1;
            }
            Ok(out)
        },
        Some(YamlNode::Hash(entries)) => {
            let ghost reads = arg_entry_reads(ctx@);
            let ghost fails = arg_entry_fails();
            let ghost error = arg_entry_error(ctx@);
            let mut out: Vec<(String, ArgDecl)> = Vec::new();
            proof {
                lemma_table_start(entries@, reads);
            }
            let mut i: usize = 0;
            while i < entries.len()
                invariant
                    i <= entries@.len(),
                    field_of(*doc, "args"@) == Some(YamlNode::Hash(*entries)),
                    reads == arg_entry_reads(ctx@),
                    fails == arg_entry_fails(),
                    error == arg_entry_error(ctx@),
                    table_reads(entries@.take(i as int), out@, reads),
                    forall|j: int| 0 <= j < i ==> !fails(#[trigger] entries@[j]),
                decreases entries@.len() - i,
            {
                let (name, here) = entry_here(ctx, "args", &entries[i].0);
                proof {
                    assert(here@ == entry_ctx(ctx@, "args"@, entries@[i as int]));
                }
                match read_arg(&entries[i].1, here.as_str()) {
                    Ok(d) => {
                        let ghost dv = d;
                        let ghost before = out@;
                        put_entry(&mut out, name, d);
                        proof {
                            assert(reads(entries@[i as int], dv));
                            lemma_table_step(entries@, i as int, before, out@, entry_name(entries@[i as int]), dv, reads);
                        }
                    },
                    Err(e) => {
                        proof {
                            lemma_table_fail(entries@, i as int, fails, error, e);
                        }
                        return Err(e);
                    },
                }
                i += 1;
            }
            proof {
                lemma_table_done(entries@, out@, reads, fails);
            }
            Ok(out)
        },
        Some(other) => Err(type_err(ctx, "args", "a list of names or a mapping", other)),
    }
}

} // verus!
verus! {

proof fn lemma_entry_value_in(entries: Seq<(YamlNode, YamlNode)>, key: Seq<char>, i: int)
    requires
        entry_value(entries, key, i) is Some,
    ensures
        exists|j: int| 0 <= j < entries.len() && entries[j].1 == entry_value(entries, key, i)->0,
    decreases entries.len() - i,
{
    if i >= 0 && i < entries.len() {
        if !(entries[i].0 matches YamlNode::String(k) && k@ == key) {
            lemma_entry_value_in(entries, key, i + 1);
        }
    }
}


// ── External topics ──

/// `o` is what the integer field `key` of `doc` reads as.
pub open spec fn u32_ok(doc: YamlNode, key: Seq<char>, o: Option<u32>) -> bool {
    match field_of(doc, key) {
        None | Some(YamlNode::Null) => o is None,
        Some(YamlNode::Integer(i)) => 0 <= i <= u32::MAX && o == Some(i as u32),
        _ => false,
    }
}

pub open spec fn u32_bad(doc: YamlNode, key: Seq<char>) -> bool {
    match field_of(doc, key) {
        None | Some(YamlNode::Null) => false,
        Some(YamlNode::Integer(i)) => !(0 <= i <= u32::MAX),
        _ => true,
    }
}

pub open spec fn u32_error(doc: YamlNode, key: Seq<char>, ctx: Seq<char>, e: ParseError) -> bool {
    match field_of(doc, key) {
        Some(YamlNode::Integer(i)) => is_field_err(e, path_text(ctx, key), "expected a non-negative integer"@),
        Some(other) => is_field_err(e, path_text(ctx, key), type_err_text("a non-negative integer"@, other)),
        None => false,
    }
}

/// A lifespan of `n` nanoseconds in whole milliseconds; none below zero.
pub open spec fn whole_ms(n: int) -> int {
    if n < 0 {
        0
    } else {
        n / 1_000_000
    }
}

/// `o` is what the `lifespan:` (or deprecated `lifespan_ms:`) field reads as.
pub open spec fn lifespan_ok(s: YamlNode, o: Option<u64>) -> bool {
    match duration_read(s, "lifespan"@, "lifespan_ms"@) {
        Ok(None) => o is None,
        Ok(Some(n)) => o == Some(whole_ms(n) as u64),
        Err(_) => false,
    }
}

/// `q` is what the `qos:` block of `v` reads as.
pub open spec fn qos_reads(v: YamlNode, q: Option<QosDecl>) -> bool {
    match field_of(v, "qos"@) {
        None => q is None,
        Some(s) => q matches Some(d) && {
            &&& accepts_keys(s, Context::Qos)
            &&& str_ok(s, "reliability"@, d.reliability)
            &&& str_ok(s, "durability"@, d.durability)
            &&& u32_ok(s, "depth"@, d.depth)
            &&& str_ok(s, "history"@, d.history)
            &&& lifespan_ok(s, d.lifespan_ms)
            &&& str_ok(s, "liveliness"@, d.liveliness)
            &&& delivers(Ok(d.deadline), new_duration_read(s, "deadline"@))
            &&& delivers(Ok(d.lease_duration), new_duration_read(s, "lease_duration"@))
        },
    }
}

pub open spec fn qos_fails(v: YamlNode) -> bool {
    match field_of(v, "qos"@) {
        None => false,
        Some(s) => {
            ||| !accepts_keys(s, Context::Qos)
            ||| str_bad(s, "reliability"@)
            ||| str_bad(s, "durability"@)
            ||| u32_bad(s, "depth"@)
            ||| str_bad(s, "history"@)
            ||| duration_read(s, "lifespan"@, "lifespan_ms"@) is Err
            ||| str_bad(s, "liveliness"@)
            ||| new_duration_read(s, "deadline"@) is Err
            ||| new_duration_read(s, "lease_duration"@) is Err
        },
    }
}

/// `e` refuses the first field of the `qos:` block that does not read; the
/// block's fields are named under `here.qos`, a lifespan by its key alone.
pub open spec fn qos_error(v: YamlNode, here: Seq<char>, e: ParseError) -> bool {
    match field_of(v, "qos"@) {
        None => false,
        Some(s) => {
            let q = path_text(here, "qos"@);
            if !accepts_keys(s, Context::Qos) {
                key_refused(s, Context::Qos, q, e)
            } else if str_bad(s, "reliability"@) {
                str_error(s, "reliability"@, q, e)
            } else if str_bad(s, "durability"@) {
                str_error(s, "durability"@, q, e)
            } else if u32_bad(s, "depth"@) {
                u32_error(s, "depth"@, q, e)
            } else if str_bad(s, "history"@) {
                str_error(s, "history"@, q, e)
            } else if duration_read(s, "lifespan"@, "lifespan_ms"@) is Err {
                delivers(Err(e), duration_read(s, "lifespan"@, "lifespan_ms"@))
            } else if str_bad(s, "liveliness"@) {
                str_error(s, "liveliness"@, q, e)
            } else if new_duration_read(s, "deadline"@) is Err {
                delivers(Err(e), new_duration_read(s, "deadline"@))
            } else {
                delivers(Err(e), new_duration_read(s, "lease_duration"@))
            }
        },
    }
}

fn read_u32(doc: &YamlNode, key: &str, ctx: &str) -> (r: Result<Option<u32>, ParseError>)
    ensures
        match r {
            Ok(o) => !u32_bad(*doc, key@) && u32_ok(*doc, key@, o),
            Err(e) => u32_bad(*doc, key@) && u32_error(*doc, key@, ctx@, e),
        },
{
    yaml_u32(doc, key, ctx)
}

pub(crate) fn read_qos(v: &YamlNode, here: &str) -> (r: Result<Option<QosDecl>, ParseError>)
    requires
        all_measurable(*v),
    ensures
        match r {
            Ok(q) => !qos_fails(*v) && qos_reads(*v, q),
            Err(e) => qos_fails(*v) && qos_error(*v, here@, e),
        },
{
    proof {
        lemma_field_measurable(*v, "qos"@);
    }
    let s = match field(v, "qos") {
        None => {
            return Ok(None);
        },
        Some(s) => s,
    };
    let q = format_path(here, "qos");
    proof {
        assert(keys_measurable(*s));
    }
    let checked = reject_unknown_keys(s, q.as_str(), Context::Qos);
    proof {
        lemma_keys_checked(*s, q@, Context::Qos, checked);
    }
    if let Err(e) = checked {
        return Err(e);
    }
    let reliability = match read_str(s, "reliability", q.as_str()) {
        Ok(x) => x,
        Err(e) => {
            return Err(e);
        },
    };
    let durability = match read_str(s, "durability", q.as_str()) {
        Ok(x) => x,
        Err(e) => {
            return Err(e);
        },
    };
    let depth = match read_u32(s, "depth", q.as_str()) {
        Ok(x) => x,
        Err(e) => {
            return Err(e);
        },
    };
    let history = match read_str(s, "history", q.as_str()) {
        Ok(x) => x,
        Err(e) => {
            return Err(e);
        },
    };
    let lifespan_ms = match yaml_duration(s, "lifespan", "lifespan_ms") {
        Ok(Some(d)) => {
            let n = d.as_nanos();
            if n < 0 {
                Some(0u64)
            } else {
                Some((n / 1_000_000) as u64)
            }
        },
        Ok(None) => None,
        Err(e) => {
            return Err(e);
        },
    };
    let liveliness = match read_str(s, "liveliness", q.as_str()) {
        Ok(x) => x,
        Err(e) => {
            return Err(e);
        },
    };
    let deadline = match yaml_duration_new(s, "deadline") {
        Ok(x) => x,
        Err(e) => {
            return Err(e);
        },
    };
    let lease_duration = match yaml_duration_new(s, "lease_duration") {
        Ok(x) => x,
        Err(e) => {
            return Err(e);
        },
    };
    Ok(Some(QosDecl { reliability, durability, depth, history, lifespan_ms, liveliness, deadline, lease_duration }))
}

} // verus!

verus! {

/// Why an external topic with no side is refused.
pub const SIDE_MISSING: &'static str = "external_topics entry must have a 'side: pub|sub|both' (or 'external:') field";

/// The key an external topic's side is read from: `side:` wins over
/// `external:` when both are written.
pub open spec fn side_key(v: YamlNode) -> Seq<char> {
    if field_of(v, "side"@) is Some {
        "side"@
    } else {
        "external"@
    }
}

pub open spec fn side_value(v: YamlNode, key: Seq<char>) -> Option<ExternalSide> {
    match field_of(v, key) {
        Some(YamlNode::String(s)) => if s@ == "pub"@ {
            Some(ExternalSide::Pub)
        } else if s@ == "sub"@ {
            Some(ExternalSide::Sub)
        } else if s@ == "both"@ {
            Some(ExternalSide::Both)
        } else {
            None
        },
        _ => None,
    }
}

pub open spec fn side_bad(v: YamlNode, key: Seq<char>) -> bool {
    match field_of(v, key) {
        None | Some(YamlNode::Null) => false,
        Some(YamlNode::String(s)) => side_value(v, key) is None,
        _ => true,
    }
}

pub open spec fn side_error(v: YamlNode, key: Seq<char>, here: Seq<char>, e: ParseError) -> bool {
    match field_of(v, key) {
        Some(YamlNode::String(s)) => is_field_err(
            e,
            path_text(here, key),
            "invalid external side '"@ + s@ + "', expected 'pub', 'sub', or 'both'"@,
        ),
        Some(other) => is_field_err(e, path_text(here, key), type_err_text("a string"@, other)),
        None => false,
    }
}

/// `d` is what an external topic's value reads as.
pub open spec fn external_reads(v: YamlNode, d: ExternalTopicDecl) -> bool {
    &&& accepts_keys(v, Context::ExternalTopic)
    &&& side_value(v, side_key(v)) == Some(d.side)
    &&& str_ok(v, "type"@, d.msg_type)
    &&& qos_reads(v, d.qos)
}

pub open spec fn external_fails(v: YamlNode) -> bool {
    ||| !accepts_keys(v, Context::ExternalTopic)
    ||| side_bad(v, side_key(v))
    ||| side_value(v, side_key(v)) is None
    ||| str_bad(v, "type"@)
    ||| qos_fails(v)
}

/// The first refusal of an external topic's value, under `here`; its type
/// is named under the section's own context `ctx`.
pub open spec fn external_error(v: YamlNode, here: Seq<char>, ctx: Seq<char>, e: ParseError) -> bool {
    if !accepts_keys(v, Context::ExternalTopic) {
        key_refused(v, Context::ExternalTopic, here, e)
    } else if side_bad(v, side_key(v)) {
        side_error(v, side_key(v), here, e)
    } else if side_value(v, side_key(v)) is None {
        is_field_err(e, path_text(here, "side"@), SIDE_MISSING@)
    } else if str_bad(v, "type"@) {
        str_error(v, "type"@, ctx, e)
    } else {
        qos_error(v, here, e)
    }
}

pub open spec fn external_entry_reads() -> spec_fn((YamlNode, YamlNode), ExternalTopicDecl) -> bool {
    |en: (YamlNode, YamlNode), d: ExternalTopicDecl| external_reads(en.1, d)
}

pub open spec fn external_entry_fails() -> spec_fn((YamlNode, YamlNode)) -> bool {
    |en: (YamlNode, YamlNode)| external_fails(en.1)
}

pub open spec fn external_entry_error(ctx: Seq<char>) -> spec_fn((YamlNode, YamlNode), ParseError) -> bool {
    |en: (YamlNode, YamlNode), e: ParseError| external_error(en.1, entry_ctx(ctx, "external_topics"@, en), ctx, e)
}

fn read_external(v: &YamlNode, here: &str, ctx: &str) -> (r: Result<ExternalTopicDecl, ParseError>)
    requires
        all_measurable(*v),
    ensures
        match r {
            Ok(d) => !external_fails(*v) && external_reads(*v, d),
            Err(e) => external_fails(*v) && external_error(*v, here@, ctx@, e),
        },
{
    assert(keys_measurable(*v));
    let checked = reject_unknown_keys(v, here, Context::ExternalTopic);
    proof {
        lemma_keys_checked(*v, here@, Context::ExternalTopic, checked);
    }
    if let Err(e) = checked {
        return Err(e);
    }
    let key = if field(v, "side").is_some() {
        "side"
    } else {
        "external"
    };
    assert(key@ == side_key(*v));
    let side = match parse_external_side(v, key, here) {
        Ok(Some(x)) => x,
        Ok(None) => {
            return Err(field_err(here, "side", SIDE_MISSING));
        },
        Err(e) => {
            return Err(e);
        },
    };
    let msg_type = match read_str(v, "type", ctx) {
        Ok(x) => x,
        Err(e) => {
            return Err(e);
        },
    };
    let qos = match read_qos(v, here) {
        Ok(x) => x,
        Err(e) => {
            return Err(e);
        },
    };
    Ok(ExternalTopicDecl { side, msg_type, qos })
}

/// The `external_topics:` section: each entry's side (`side:`, else
/// `external:`), type and QoS, under `ctx.external_topics.<name>`.
pub fn read_external_topics(doc: &YamlNode, ctx: &str) -> (r: Result<Vec<(String, ExternalTopicDecl)>, ParseError>)
    requires
        all_measurable(*doc),
    ensures
        section_reads(
            *doc,
            "external_topics"@,
            ctx@,
            r,
            external_entry_reads(),
            external_entry_fails(),
            external_entry_error(ctx@),
        ),
{
    proof {
        lemma_field_measurable(*doc, "external_topics"@);
    }
    match field(doc, "external_topics") {
        None => Ok(Vec::new()),
        Some(YamlNode::Hash(entries)) => {
            let ghost reads = external_entry_reads();
            let ghost fails = external_entry_fails();
            let ghost error = external_entry_error(ctx@);
            let mut out: Vec<(String, ExternalTopicDecl)> = Vec::new();
            proof {
                lemma_table_start(entries@, reads);
            }
            let mut i: usize = 0;
            while i < entries.len()
                invariant
                    i <= entries@.len(),
                    field_of(*doc, "external_topics"@) == Some(YamlNode::Hash(*entries)),
                    forall|k: int| 0 <= k < entries@.len() ==> all_measurable(#[trigger] entries@[k].1),
                    reads == external_entry_reads(),
                    fails == external_entry_fails(),
                    error == external_entry_error(ctx@),
                    table_reads(entries@.take(i as int), out@, reads),
                    forall|j: int| 0 <= j < i ==> !fails(#[trigger] entries@[j]),
                decreases entries@.len() - i,
            {
                let (name, here) = entry_here(ctx, "external_topics", &entries[i].0);
                proof {
                    assert(all_measurable(entries@[i as int].1));
                    assert(here@ == entry_ctx(ctx@, "external_topics"@, entries@[i as int]));
                }
                match read_external(&entries[i].1, here.as_str(), ctx) {
                    Ok(d) => {
                        let ghost dv = d;
                        let ghost before = out@;
                        put_entry(&mut out, name, d);
                        proof {
                            assert(reads(entries@[i as int], dv));
                            lemma_table_step(entries@, i as int, before, out@, entry_name(entries@[i as int]), dv, reads);
                        }
                    },
                    Err(e) => {
                        proof {
                            lemma_table_fail(entries@, i as int, fails, error, e);
                        }
                        return Err(e);
                    },
                }
                i += 1;
            }
            proof {
                lemma_table_done(entries@, out@, reads, fails);
            }
            Ok(out)
        },
        Some(_) => Err(field_err(ctx, "external_topics", "expected mapping")),
    }
}

} // verus!

verus! {

// ── A whole scope ──

/// Why a `chains:` section is refused.
pub const CHAINS_REMOVED: &'static str = "`chains:`/`segments:` were removed — a written route is a second copy \
             of the graph. State the same requirement as a scope path, which names \
             only its two ends and lets the route be derived from the `trigger:` \
             and `output:` facts the nodes already declare:\n\
             \x20 paths:\n\
             \x20   <chain name>:\n\
             \x20     trigger: { input: [<first topic>] }\n\
             \x20     output: [<last topic>]\n\
             \x20     max_latency: <the chain's max_latency>\n\
             A `semantics:` line can be dropped: nothing ever branched on it, and \
             a subscriber's `max_age:` is what states staleness today.";

/// One manifest scope as read: its version, its argument declarations by
/// name ascending, and its tables.
#[derive(Debug)]
pub struct ManifestDoc {
    pub version: u32,
    pub args: Vec<(String, ArgDecl)>,
    pub text: ManifestText,
}

/// The include entry names `incs` holds: one per entry of the section.
pub open spec fn include_names(v: YamlNode, incs: Seq<(String, IncludeText)>) -> bool {
    match field_of(v, "includes"@) {
        None => incs.len() == 0,
        Some(YamlNode::Hash(es)) => names_ascending(incs) && forall|n: Seq<char>|
            #[trigger] has_key(incs, n) <==> names_entry(es@, n),
        _ => false,
    }
}

/// The tables of `t` are what the sections of scope `v` read as (its
/// includes by name).
pub open spec fn scope_tables(v: YamlNode, ctx: Seq<char>, t: ManifestText) -> bool {
    &&& section_reads(
        v,
        "nodes"@,
        ctx,
        Ok(t.nodes),
        node_entry_reads(ctx),
        node_entry_fails(),
        node_entry_error(ctx),
    )
    &&& section_reads(v, "topics"@, ctx, Ok(t.topics), topic_entry_reads(), topic_entry_fails(), topic_entry_error(ctx))
    &&& section_reads(
        v,
        "services"@,
        ctx,
        Ok(t.services),
        service_entry_reads(),
        pair_entry_fails(Context::Service),
        pair_entry_error(Context::Service, ctx),
    )
    &&& section_reads(
        v,
        "actions"@,
        ctx,
        Ok(t.actions),
        action_entry_reads(),
        pair_entry_fails(Context::Action),
        pair_entry_error(Context::Action, ctx),
    )
    &&& section_reads(v, "paths"@, ctx, Ok(t.paths), path_entry_reads(), path_entry_fails(), path_entry_error(ctx))
    &&& section_reads(
        v,
        "external_topics"@,
        ctx,
        Ok(t.external_topics),
        external_entry_reads(),
        external_entry_fails(),
        external_entry_error(ctx),
    )
}

/// The head of a scope reads: no `chains:`, known keys, a version, args.
pub open spec fn scope_head_reads(v: YamlNode) -> bool {
    &&& field_of(v, "chains"@) is None
    &&& accepts_keys(v, Context::Manifest)
    &&& !u32_bad(v, "version"@)
    &&& !args_fail(v)
}

/// `d` is what an include entry's value reads as, under `here`: an external
/// manifest when `manifest:` names one, else an inline scope.
pub open spec fn include_reads(v: YamlNode, here: Seq<char>, d: IncludeText) -> bool {
    &&& str_ok(v, "if"@, d.if_condition)
    &&& str_ok(v, "unless"@, d.unless_condition)
    &&& match field_of(v, "manifest"@) {
        Some(YamlNode::String(m)) => accepts_keys(v, Context::IncludeExternal) && (d.kind matches IncludeKind::External {
            manifest,
        } && manifest@ == m@),
        _ => d.kind matches IncludeKind::Inline(t) && scope_head_reads(v) && scope_tables(v, here, *t)
            && include_names(v, t.includes@),
    }
}

/// An include entry is refused before any inline scope is read: its
/// `manifest:`, the keys of the file form, then its conditions.
pub open spec fn include_fails(v: YamlNode) -> bool {
    ||| str_bad(v, "manifest"@)
    ||| (field_of(v, "manifest"@) matches Some(YamlNode::String(_)) && !accepts_keys(v, Context::IncludeExternal))
    ||| str_bad(v, "if"@)
    ||| str_bad(v, "unless"@)
}

pub open spec fn include_error(v: YamlNode, here: Seq<char>, ctx: Seq<char>, e: ParseError) -> bool {
    if str_bad(v, "manifest"@) {
        str_error(v, "manifest"@, ctx, e)
    } else if field_of(v, "manifest"@) matches Some(YamlNode::String(_)) && !accepts_keys(
        v,
        Context::IncludeExternal,
    ) {
        key_refused(v, Context::IncludeExternal, here, e)
    } else if str_bad(v, "if"@) {
        str_error(v, "if"@, here, e)
    } else {
        str_error(v, "unless"@, here, e)
    }
}

/// An include entry whose value is an inline scope.
pub open spec fn is_inline(v: YamlNode) -> bool {
    match field_of(v, "manifest"@) {
        None | Some(YamlNode::Null) => true,
        _ => false,
    }
}

pub open spec fn include_entry_reads(ctx: Seq<char>) -> spec_fn((YamlNode, YamlNode), IncludeText) -> bool {
    |en: (YamlNode, YamlNode), d: IncludeText| include_reads(en.1, entry_ctx(ctx, "includes"@, en), d)
}

pub open spec fn include_entry_fails() -> spec_fn((YamlNode, YamlNode)) -> bool {
    |en: (YamlNode, YamlNode)| include_fails(en.1)
}

pub open spec fn include_entry_error(ctx: Seq<char>) -> spec_fn((YamlNode, YamlNode), ParseError) -> bool {
    |en: (YamlNode, YamlNode), e: ParseError| include_error(en.1, entry_ctx(ctx, "includes"@, en), ctx, e)
}

/// The `includes:` section holds an inline scope.
pub open spec fn has_inline(doc: YamlNode) -> bool {
    field_of(doc, "includes"@) matches Some(YamlNode::Hash(es)) && exists|k: int|
        0 <= k < es@.len() && is_inline(#[trigger] es@[k].1)
}

/// `m` is what scope `doc` reads as under `ctx`.
pub open spec fn doc_reads(doc: YamlNode, ctx: Seq<char>, m: ManifestDoc) -> bool {
    &&& scope_head_reads(doc)
    &&& m.version == match field_of(doc, "version"@) {
        Some(YamlNode::Integer(i)) => i as u32,
        _ => 1u32,
    }
    &&& args_read(doc, ctx, Ok(m.args))
    &&& scope_tables(doc, ctx, m.text)
    &&& section_reads(
        doc,
        "includes"@,
        ctx,
        Ok(m.text.includes),
        include_entry_reads(ctx),
        include_entry_fails(),
        include_entry_error(ctx),
    )
}

/// Where reading scope `doc` stops, stage by stage, and with what error.
/// Past an inline include the stages are stated only where no section
/// holds one.
pub open spec fn doc_error(doc: YamlNode, ctx: Seq<char>, e: ParseError) -> bool {
    if field_of(doc, "chains"@) is Some {
        is_field_err(e, path_text(ctx, "chains"@), CHAINS_REMOVED@)
    } else if !accepts_keys(doc, Context::Manifest) {
        key_refused(doc, Context::Manifest, ctx, e)
    } else if u32_bad(doc, "version"@) {
        u32_error(doc, "version"@, ctx, e)
    } else if args_fail(doc) {
        args_read(doc, ctx, Err(e))
    } else if section_fails(doc, "nodes"@, node_entry_fails()) {
        section_error(doc, "nodes"@, ctx, node_entry_fails(), node_entry_error(ctx), e)
    } else if section_fails(doc, "topics"@, topic_entry_fails()) {
        section_error(doc, "topics"@, ctx, topic_entry_fails(), topic_entry_error(ctx), e)
    } else if section_fails(doc, "services"@, pair_entry_fails(Context::Service)) {
        section_error(doc, "services"@, ctx, pair_entry_fails(Context::Service), pair_entry_error(Context::Service, ctx), e)
    } else if section_fails(doc, "actions"@, pair_entry_fails(Context::Action)) {
        section_error(doc, "actions"@, ctx, pair_entry_fails(Context::Action), pair_entry_error(Context::Action, ctx), e)
    } else if has_inline(doc) {
        true
    } else if section_fails(doc, "includes"@, include_entry_fails()) {
        section_error(doc, "includes"@, ctx, include_entry_fails(), include_entry_error(ctx), e)
    } else if section_fails(doc, "paths"@, path_entry_fails()) {
        section_error(doc, "paths"@, ctx, path_entry_fails(), path_entry_error(ctx), e)
    } else {
        section_fails(doc, "external_topics"@, external_entry_fails())
            && section_error(doc, "external_topics"@, ctx, external_entry_fails(), external_entry_error(ctx), e)
    }
}

/// An include entry's `if:` and `unless:`.
fn read_conditions(v: &YamlNode, here: &str) -> (r: Result<(Option<String>, Option<String>), ParseError>)
    ensures
        match r {
            Ok((i, u)) => !str_bad(*v, "if"@) && !str_bad(*v, "unless"@) && str_ok(*v, "if"@, i) && str_ok(
                *v,
                "unless"@,
                u,
            ),
            Err(e) => if str_bad(*v, "if"@) {
                str_error(*v, "if"@, here@, e)
            } else {
                str_bad(*v, "unless"@) && str_error(*v, "unless"@, here@, e)
            },
        },
{
    let i = match read_str(v, "if", here) {
        Ok(x) => x,
        Err(e) => {
            return Err(e);
        },
    };
    let u = match read_str(v, "unless", here) {
        Ok(x) => x,
        Err(e) => {
            return Err(e);
        },
    };
    Ok((i, u))
}

fn read_include(v: &YamlNode, here: &str, ctx: &str) -> (r: Result<IncludeText, ParseError>)
    requires
        all_measurable(*v),
    ensures
        match r {
            Ok(d) => !include_fails(*v) && include_reads(*v, here@, d),
            Err(e) => include_fails(*v) && include_error(*v, here@, ctx@, e) || is_inline(*v)
                && !include_fails(*v),
        },
    decreases *v, 3int,
{
    let manifest = match read_str(v, "manifest", ctx) {
        Ok(x) => x,
        Err(e) => {
            return Err(e);
        },
    };
    match manifest {
        Some(m) => {
            assert(keys_measurable(*v));
            let checked = reject_unknown_keys(v, here, Context::IncludeExternal);
            proof {
                lemma_keys_checked(*v, here@, Context::IncludeExternal, checked);
            }
            if let Err(e) = checked {
                return Err(e);
            }
            let (if_condition, unless_condition) = match read_conditions(v, here) {
                Ok(x) => x,
                Err(e) => {
                    return Err(e);
                },
            };
            Ok(IncludeText { if_condition, unless_condition, kind: IncludeKind::External { manifest: m } })
        },
        None => {
            let (if_condition, unless_condition) = match read_conditions(v, here) {
                Ok(x) => x,
                Err(e) => {
                    return Err(e);
                },
            };
            let inner = match read_manifest_doc(v, here) {
                Ok(d) => d,
                Err(e) => {
                    return Err(e);
                },
            };
            Ok(IncludeText { if_condition, unless_condition, kind: IncludeKind::Inline(Box::new(inner.text)) })
        },
    }
}

/// The `includes:` section: each entry an external manifest or an inline
/// scope, under `ctx.includes.<name>`.
pub fn read_includes(doc: &YamlNode, ctx: &str) -> (r: Result<Vec<(String, IncludeText)>, ParseError>)
    requires
        all_measurable(*doc),
    ensures
        r matches Ok(x) ==> section_reads(
            *doc,
            "includes"@,
            ctx@,
            r,
            include_entry_reads(ctx@),
            include_entry_fails(),
            include_entry_error(ctx@),
        ),
        !has_inline(*doc) ==> section_reads(
            *doc,
            "includes"@,
            ctx@,
            r,
            include_entry_reads(ctx@),
            include_entry_fails(),
            include_entry_error(ctx@),
        ),
        r is Ok ==> !section_fails(*doc, "includes"@, include_entry_fails()),
    decreases *doc, 1int,
{
    proof {
        lemma_field_measurable(*doc, "includes"@);
    }
    match field(doc, "includes") {
        None => Ok(Vec::new()),
        Some(YamlNode::Hash(entries)) => {
            let ghost reads = include_entry_reads(ctx@);
            let ghost fails = include_entry_fails();
            let ghost error = include_entry_error(ctx@);
            let mut out: Vec<(String, IncludeText)> = Vec::new();
            proof {
                lemma_table_start(entries@, reads);
            }
            let mut i: usize = 0;
            while i < entries.len()
                invariant
                    i <= entries@.len(),
                    field_of(*doc, "includes"@) == Some(YamlNode::Hash(*entries)),
                    forall|k: int| 0 <= k < entries@.len() ==> all_measurable(#[trigger] entries@[k].1),
                    reads == include_entry_reads(ctx@),
                    fails == include_entry_fails(),
                    error == include_entry_error(ctx@),
                    table_reads(entries@.take(i as int), out@, reads),
                    forall|j: int| 0 <= j < i ==> !fails(#[trigger] entries@[j]),
                decreases entries@.len() - i,
            {
                let (name, here) = entry_here(ctx, "includes", &entries[i].0);
                let v = &entries[i].1;
                proof {
                    assert(all_measurable(entries@[i as int].1));
                    assert(here@ == entry_ctx(ctx@, "includes"@, entries@[i as int]));
                    let inc = field_of(*doc, "includes"@)->0;
                    let es = (*doc)->Hash_0;
                    lemma_entry_value_in(es@, "includes"@, 0);
                    let j = choose|j: int| 0 <= j < es@.len() && es@[j].1 == inc;
                    assert(decreases_to!(*doc => es));
                    assert(decreases_to!(es => es@));
                    assert(decreases_to!(es@ => es@[j]));
                    assert(decreases_to!(es@[j] => es@[j].1));
                    assert(decreases_to!(inc => inc->Hash_0));
                    assert(decreases_to!(*entries => entries@));
                    assert(decreases_to!(entries@ => entries@[i as int]));
                    assert(decreases_to!(entries@[i as int] => entries@[i as int].1));
                    assert(decreases_to!(*doc => *v));
                }
                match read_include(v, here.as_str(), ctx) {
                    Ok(d) => {
                        let ghost dv = d;
                        let ghost before = out@;
                        put_entry(&mut out, name, d);
                        proof {
                            assert(reads(entries@[i as int], dv));
                            lemma_table_step(entries@, i as int, before, out@, entry_name(entries@[i as int]), dv, reads);
                        }
                    },
                    Err(e) => {
                        proof {
                            if !is_inline(entries@[i as int].1) {
                                lemma_table_fail(entries@, i as int, fails, error, e);
                            } else {
                                assert(has_inline(*doc));
                            }
                        }
                        return Err(e);
                    },
                }
                i += 1;
            }
            proof {
                lemma_table_done(entries@, out@, reads, fails);
            }
            Ok(out)
        },
        Some(_) => Err(field_err(ctx, "includes", "expected mapping")),
    }
}

/// Read one manifest scope: refuse `chains:` and unknown keys, then read
/// the version (1 when absent), args, nodes, topics, services, actions,
/// includes, paths and external topics, stopping at the first refusal.
pub fn read_manifest_doc(doc: &YamlNode, ctx: &str) -> (r: Result<ManifestDoc, ParseError>)
    requires
        all_measurable(*doc),
    ensures
        match r {
            Ok(m) => doc_reads(*doc, ctx@, m),
            Err(e) => doc_error(*doc, ctx@, e),
        },
        !has_inline(*doc) ==> (r is Ok <==> !doc_error_stage(*doc)),
    decreases *doc, 2int,
{
    if field(doc, "chains").is_some() {
        return Err(field_err(ctx, "chains", CHAINS_REMOVED));
    }
    assert(keys_measurable(*doc));
    let checked = reject_unknown_keys(doc, ctx, Context::Manifest);
    proof {
        lemma_keys_checked(*doc, ctx@, Context::Manifest, checked);
    }
    if let Err(e) = checked {
        return Err(e);
    }
    let version = match read_u32(doc, "version", ctx) {
        Ok(Some(v)) => v,
        Ok(None) => 1,
        Err(e) => {
            return Err(e);
        },
    };
    let args = match read_args(doc, ctx) {
        Ok(x) => x,
        Err(e) => {
            return Err(e);
        },
    };
    let nodes = match read_nodes(doc, ctx) {
        Ok(x) => x,
        Err(e) => {
            return Err(e);
        },
    };
    let topics = match read_topics(doc, ctx) {
        Ok(x) => x,
        Err(e) => {
            return Err(e);
        },
    };
    let services = match read_services(doc, ctx) {
        Ok(x) => x,
        Err(e) => {
            return Err(e);
        },
    };
    let actions = match read_actions(doc, ctx) {
        Ok(x) => x,
        Err(e) => {
            return Err(e);
        },
    };
    let includes = match read_includes(doc, ctx) {
        Ok(x) => x,
        Err(e) => {
            return Err(e);
        },
    };
    let paths = match read_paths(doc, ctx) {
        Ok(x) => x,
        Err(e) => {
            return Err(e);
        },
    };
    let external_topics = match read_external_topics(doc, ctx) {
        Ok(x) => x,
        Err(e) => {
            return Err(e);
        },
    };
    Ok(ManifestDoc {
        version,
        args,
        text: ManifestText { nodes, topics, services, actions, paths, includes, external_topics },
    })
}

/// Some stage of reading `doc` refuses it.
pub open spec fn doc_error_stage(doc: YamlNode) -> bool {
    ||| field_of(doc, "chains"@) is Some
    ||| !accepts_keys(doc, Context::Manifest)
    ||| u32_bad(doc, "version"@)
    ||| args_fail(doc)
    ||| section_fails(doc, "nodes"@, node_entry_fails())
    ||| section_fails(doc, "topics"@, topic_entry_fails())
    ||| section_fails(doc, "services"@, pair_entry_fails(Context::Service))
    ||| section_fails(doc, "actions"@, pair_entry_fails(Context::Action))
    ||| section_fails(doc, "includes"@, include_entry_fails())
    ||| section_fails(doc, "paths"@, path_entry_fails())
    ||| section_fails(doc, "external_topics"@, external_entry_fails())
}

} // verus!

verus! {

/// Why a document is refused whose keys are too long to measure against
/// the schema.
pub const KEY_TOO_LONG: &'static str = "a mapping key is too long to measure against the schema";

/// Why a condition at the top of a manifest is refused: only an
/// `includes:` entry takes one.
pub const TOP_CONDITION: &'static str = "a condition belongs on an `includes:` entry, not at the top of a manifest";

/// What reading the YAML text `source` gives: a loader error is a syntax
/// error; no document is an empty version-1 manifest; else the first
/// document is read as the top scope.
pub open spec fn manifest_from_text(source: Seq<char>, r: Result<ManifestDoc, ParseError>) -> bool {
    match crate::yaml_load::yaml_documents(source) {
        Err(m) => r matches Err(ParseError::YamlSyntax(t)) && t@ == m,
        Ok(docs) => if docs.len() == 0 {
            r matches Ok(d) && d.version == 1 && d.args@.len() == 0 && d.text.nodes@.len() == 0
                && d.text.topics@.len() == 0 && d.text.services@.len() == 0 && d.text.actions@.len() == 0
                && d.text.paths@.len() == 0 && d.text.includes@.len() == 0
                && d.text.external_topics@.len() == 0
        } else if !all_measurable(docs[0]) {
            r matches Err(e) && is_field_err(e, Seq::empty(), KEY_TOO_LONG@)
        } else if field_of(docs[0], "if"@) is Some {
            r matches Err(e) && is_field_err(e, "if"@, TOP_CONDITION@)
        } else if field_of(docs[0], "unless"@) is Some {
            r matches Err(e) && is_field_err(e, "unless"@, TOP_CONDITION@)
        } else {
            match r {
                Ok(d) => doc_reads(docs[0], Seq::empty(), d),
                Err(e) => doc_error(docs[0], Seq::empty(), e),
            }
        },
    }
}

/// Read a manifest from YAML text: a loader error is a syntax error; no
/// document is an empty version-1 manifest; else the first document is
/// read as the top scope.
pub fn parse_manifest_str(source: &str) -> (r: Result<ManifestDoc, ParseError>)
    ensures
        manifest_from_text(source@, r),
{
    proof {
        reveal_strlit("");
    }
    let docs = match crate::yaml_load::load_yaml(source) {
        Ok(d) => d,
        Err(m) => {
            return Err(ParseError::YamlSyntax(m));
        },
    };
    if docs.len() == 0 {
        return Ok(ManifestDoc { version: 1, args: Vec::new(), text: ManifestText::empty() });
    }
    if !crate::yaml_fields::measurable(&docs[0]) {
        return Err(ParseError::Field { path: String::new(), message: crate::text::owned(KEY_TOO_LONG) });
    }
    if field(&docs[0], "if").is_some() {
        return Err(field_err("", "if", TOP_CONDITION));
    }
    if field(&docs[0], "unless").is_some() {
        return Err(field_err("", "unless", TOP_CONDITION));
    }
    read_manifest_doc(&docs[0], "")
}


/// A manifest with its source text and span index, for diagnostics.
#[derive(Debug)]
pub struct ParseResult {
    pub manifest: ManifestDoc,
    pub source: String,
    pub spans: crate::span::SpanIndex,
}

/// Read a manifest from YAML text, with its source and spans: it fails
/// exactly as [`parse_manifest_str`] does, and otherwise carries the same
/// manifest and the text's [`crate::span::SpanIndex::build`].
pub fn parse_manifest_str_with_spans(source: &str) -> (r: Result<ParseResult, ParseError>)
    ensures
        match r {
            Err(e) => manifest_from_text(source@, Err(e)),
            Ok(p) => {
                &&& manifest_from_text(source@, Ok(p.manifest))
                &&& p.source@ == source@
                &&& p.spans.source@ == source@
                &&& crate::span::paths_unique(p.spans.spans@)
                &&& forall|k: Seq<char>|
                    #[trigger] crate::span::span_of(p.spans.spans@, k) == crate::span::span_after(
                        crate::span::yaml_span_events(source@),
                        k,
                    )
            },
        },
{
    let manifest = match parse_manifest_str(source) {
        Ok(m) => m,
        Err(e) => {
            return Err(e);
        },
    };
    let spans = crate::span::SpanIndex::build(source);
    Ok(ParseResult { manifest, source: crate::text::owned(source), spans })
}

} // verus!
