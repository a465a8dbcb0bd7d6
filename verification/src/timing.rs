//! Timing fields of a manifest: durations written with their unit (and the
//! deprecated `_ms` spellings, whose unit is implied), and the `sync:` block
//! of a fan-in path.

use vstd::prelude::*;
use crate::duration::{Duration, duration_outcome, duration_error_text};
use crate::field_table::Context;
use crate::manifest::{ParseError, SyncPolicy};
use crate::text::{int_text, push_str, str_eq};
use crate::yaml_fields::{
    YamlNode, field, field_of, field_err, format_path, path_text, is_field_err, type_err, type_err_text,
    yaml_str_owned, yaml_string, reject_unknown_keys, keys_measurable, accepts_keys, key_refused,
    lemma_keys_checked,
};

verus! {

// ── Durations ──

/// The refusal of a bare number under a name that needs a unit.
pub open spec fn no_unit_text(key: Seq<char>, shown: Seq<char>) -> Seq<char> {
    "`"@ + key + ": "@ + shown + "` has no unit — write `"@ + key + ": "@ + shown
        + "ms` (or ns/us/s). The unit is required so a value cannot be 1000x wrong and still parse"@
}

/// The refusal of a quoted number where a number belongs.
pub open spec fn quoted_number_text() -> Seq<char> {
    "expected a number, got a quoted string — remove the quotes. A quoted number used to be read as absent, which deleted the declaration in silence"@
}

/// A duration as read, in nanoseconds, or the path and message of the
/// error.
pub type DurationRead = Result<Option<int>, (Seq<char>, Seq<char>)>;

/// The duration a text gives, or the error naming `key`.
pub open spec fn text_read(text: Seq<char>, key: Seq<char>) -> DurationRead {
    match duration_outcome(text) {
        Ok(n) => Ok(Some(n)),
        Err(e) => Err((key, duration_error_text(e))),
    }
}

/// How a number under the deprecated spelling `legacy` reads: as that many
/// milliseconds, exactly as written.
pub open spec fn legacy_read(doc: YamlNode, legacy: Seq<char>) -> DurationRead {
    match field_of(doc, legacy) {
        None | Some(YamlNode::Null) => Ok(None),
        Some(YamlNode::Integer(i)) => text_read(int_text(i as int) + "ms"@, legacy),
        Some(YamlNode::Real(r)) => text_read(r@ + "ms"@, legacy),
        Some(YamlNode::String(_)) => Err((legacy, quoted_number_text())),
        Some(other) => Err((legacy, type_err_text("a number"@, other))),
    }
}

/// How the duration field `canonical` reads: its text with a unit, a bare
/// number refused, and otherwise the deprecated spelling `legacy`.
pub open spec fn duration_read(doc: YamlNode, canonical: Seq<char>, legacy: Seq<char>) -> DurationRead {
    match field_of(doc, canonical) {
        Some(YamlNode::String(t)) => text_read(t@, canonical),
        Some(YamlNode::Integer(i)) => Err((canonical, no_unit_text(canonical, int_text(i as int)))),
        Some(YamlNode::Real(r)) => Err((canonical, no_unit_text(canonical, r@))),
        _ => legacy_read(doc, legacy),
    }
}

/// How a duration field with no deprecated spelling reads.
pub open spec fn new_duration_read(doc: YamlNode, key: Seq<char>) -> DurationRead {
    match field_of(doc, key) {
        Some(YamlNode::String(t)) => text_read(t@, key),
        Some(YamlNode::Integer(i)) => Err((key, no_unit_text(key, int_text(i as int)))),
        Some(YamlNode::Real(r)) => Err((key, no_unit_text(key, r@))),
        _ => Ok(None),
    }
}

/// `r` is what a duration read gives.
pub open spec fn delivers(r: Result<Option<Duration>, ParseError>, read: DurationRead) -> bool {
    match read {
        Ok(None) => r matches Ok(None),
        Ok(Some(n)) => r matches Ok(Some(d)) && d@ == n,
        Err((p, m)) => r matches Err(e) && is_field_err(e, p, m),
    }
}

fn read_text(text: &str, key: &str) -> (r: Result<Option<Duration>, ParseError>)
    ensures
        delivers(r, text_read(text@, key@)),
{
    proof {
        reveal_strlit("");
    }
    match Duration::parse_text(text) {
        Ok(d) => Ok(Some(d)),
        Err(e) => Err(field_err("", key, e.message().as_str())),
    }
}

fn no_unit(key: &str, shown: &str) -> (e: ParseError)
    ensures
        is_field_err(e, key@, no_unit_text(key@, shown@)),
{
    let mut m = String::new();
    push_str(&mut m, "`");
    push_str(&mut m, key);
    push_str(&mut m, ": ");
    push_str(&mut m, shown);
    push_str(&mut m, "` has no unit — write `");
    push_str(&mut m, key);
    push_str(&mut m, ": ");
    push_str(&mut m, shown);
    push_str(
        &mut m,
        "ms` (or ns/us/s). The unit is required so a value cannot be 1000x wrong and still parse",
    );
    proof {
        reveal_strlit("");
        assert(m@ =~= no_unit_text(key@, shown@));
    }
    field_err("", key, m.as_str())
}

/// A number under a deprecated `_ms` name, as that many milliseconds.
fn read_legacy(doc: &YamlNode, legacy: &str) -> (r: Result<Option<Duration>, ParseError>)
    ensures
        delivers(r, legacy_read(*doc, legacy@)),
{
    proof {
        reveal_strlit("");
    }
    match field(doc, legacy) {
        None => Ok(None),
        Some(YamlNode::Null) => Ok(None),
        Some(v) => match v {
            YamlNode::Integer(_) | YamlNode::Real(_) => {
                let mut t = yaml_str_owned(v);
                push_str(&mut t, "ms");
                read_text(t.as_str(), legacy)
            },
            YamlNode::String(_) => Err(
                field_err(
                    "",
                    legacy,
                    "expected a number, got a quoted string — remove the quotes. A quoted number used to be read as absent, which deleted the declaration in silence",
                ),
            ),
            other => Err(type_err("", legacy, "a number", other)),
        },
    }
}

/// The duration under `canonical`, which must carry its unit; where it is
/// not written, the deprecated `legacy` spelling in milliseconds. A bare
/// number under the canonical name is refused, so a value cannot be 1000x
/// wrong and still parse.
pub fn yaml_duration(doc: &YamlNode, canonical: &str, legacy: &str) -> (r: Result<Option<Duration>, ParseError>)
    ensures
        delivers(r, duration_read(*doc, canonical@, legacy@)),
{
    match field(doc, canonical) {
        Some(YamlNode::String(text)) => read_text(text.as_str(), canonical),
        Some(v) => match v {
            YamlNode::Integer(_) | YamlNode::Real(_) => {
                let shown = yaml_str_owned(v);
                Err(no_unit(canonical, shown.as_str()))
            },
            _ => read_legacy(doc, legacy),
        },
        None => read_legacy(doc, legacy),
    }
}

/// A duration field introduced after units became required: text with a
/// unit, a bare number refused, anything else absent.
pub fn yaml_duration_new(doc: &YamlNode, key: &str) -> (r: Result<Option<Duration>, ParseError>)
    ensures
        delivers(r, new_duration_read(*doc, key@)),
{
    match field(doc, key) {
        Some(YamlNode::String(text)) => read_text(text.as_str(), key),
        Some(v) => match v {
            YamlNode::Integer(_) | YamlNode::Real(_) => {
                let shown = yaml_str_owned(v);
                Err(no_unit(key, shown.as_str()))
            },
            _ => Ok(None),
        },
        None => Ok(None),
    }
}

// ── Sync ──

/// How a fan-in path combines its inputs.
#[derive(Debug, Clone, PartialEq)]
pub struct Sync {
    pub policy: SyncPolicy,
    /// Widest stamp spread a set may have (`exact`, `approximate`).
    pub max_interval: Option<Duration>,
    /// How long to collect before publishing a partial set (`timeout_any`).
    pub timeout: Option<Duration>,
}

/// The policy a name selects.
pub open spec fn policy_named(t: Seq<char>) -> Option<SyncPolicy> {
    if t == "exact"@ {
        Some(SyncPolicy::Exact)
    } else if t == "approximate"@ {
        Some(SyncPolicy::Approximate)
    } else if t == "timeout_any"@ {
        Some(SyncPolicy::TimeoutAny)
    } else {
        None
    }
}

/// A duration's nanoseconds, if present.
pub open spec fn nanos_of(d: Option<Duration>) -> Option<int> {
    match d {
        Some(x) => Some(x@),
        None => None,
    }
}

/// What a `sync:` block whose keys are all defined reads as: its policy and
/// durations, or the path and message of the first error, in the order the
/// block is read (policy, `max_interval`, `timeout`, then what the policy
/// requires).
pub open spec fn sync_read(section: YamlNode, here: Seq<char>) -> Result<(SyncPolicy, Option<int>, Option<int>), (Seq<char>, Seq<char>)> {
    match field_of(section, "policy"@) {
        None | Some(YamlNode::Null) => Err(
            (path_text(here, "policy"@), "required: 'exact', 'approximate', or 'timeout_any'"@),
        ),
        Some(YamlNode::String(p)) => match policy_named(p@) {
            None => Err(
                (
                    path_text(here, "policy"@),
                    "invalid policy '"@ + p@ + "', expected 'exact', 'approximate', or 'timeout_any'"@,
                ),
            ),
            Some(policy) => match duration_read(section, "max_interval"@, "max_interval_ms"@) {
                Err(pm) => Err(pm),
                Ok(mi) => match duration_read(section, "timeout"@, "timeout_ms"@) {
                    Err(pm) => Err(pm),
                    Ok(to) => if policy == SyncPolicy::TimeoutAny && to is None {
                        Err((path_text(here, "timeout"@), "required when policy is 'timeout_any' (as `timeout`, or the deprecated `timeout_ms`)"@))
                    } else if policy != SyncPolicy::TimeoutAny && mi is None {
                        Err(
                            (
                                path_text(here, "max_interval"@),
                                "required when policy is 'exact' or 'approximate' (as `max_interval`, or the deprecated `max_interval_ms`)"@,
                            ),
                        )
                    } else {
                        Ok((policy, mi, to))
                    },
                },
            },
        },
        Some(other) => Err((path_text(here, "policy"@), type_err_text("a string"@, other))),
    }
}

fn invalid_policy(here: &str, p: &str) -> (e: ParseError)
    ensures
        is_field_err(
            e,
            path_text(here@, "policy"@),
            "invalid policy '"@ + p@ + "', expected 'exact', 'approximate', or 'timeout_any'"@,
        ),
{
    let mut m = String::new();
    push_str(&mut m, "invalid policy '");
    push_str(&mut m, p);
    push_str(&mut m, "', expected 'exact', 'approximate', or 'timeout_any'");
    field_err(here, "policy", m.as_str())
}

/// `sync:` on a path: absent is `None`; otherwise a policy and the window
/// it needs (`max_interval` for `exact` and `approximate`, `timeout` for
/// `timeout_any`). Errors name the block, not the path holding it.
pub fn parse_sync(doc: &YamlNode, ctx: &str) -> (r: Result<Option<Sync>, ParseError>)
    requires
        match field_of(*doc, "sync"@) {
            Some(section) => keys_measurable(section),
            None => true,
        },
    ensures
        match field_of(*doc, "sync"@) {
            None => r matches Ok(None),
            Some(section) => {
                let here = path_text(ctx@, "sync"@);
                &&& !accepts_keys(section, Context::Sync) ==> (r matches Err(e) && key_refused(
                    section,
                    Context::Sync,
                    here,
                    e,
                ))
                &&& accepts_keys(section, Context::Sync) ==> match sync_read(section, here) {
                    Ok((policy, mi, to)) => r matches Ok(Some(s)) && s.policy == policy && nanos_of(
                        s.max_interval,
                    ) == mi && nanos_of(s.timeout) == to,
                    Err((p, m)) => r matches Err(e) && is_field_err(e, p, m),
                }
            },
        },
{
    let section = match field(doc, "sync") {
        None => {
            return Ok(None);
        },
        Some(s) => s,
    };
    let here = format_path(ctx, "sync");
    let checked = reject_unknown_keys(section, here.as_str(), Context::Sync);
    proof {
        lemma_keys_checked(*section, here@, Context::Sync, checked);
    }
    match checked {
        Ok(()) => {},
        Err(e) => {
            return Err(e);
        },
    }
    let policy_text = match yaml_string(section, "policy", here.as_str()) {
        Ok(Some(p)) => p,
        Ok(None) => {
            return Err(field_err(here.as_str(), "policy", "required: 'exact', 'approximate', or 'timeout_any'"));
        },
        Err(e) => {
            return Err(e);
        },
    };
    let policy = if str_eq(policy_text.as_str(), "exact") {
        SyncPolicy::Exact
    } else if str_eq(policy_text.as_str(), "approximate") {
        SyncPolicy::Approximate
    } else if str_eq(policy_text.as_str(), "timeout_any") {
        SyncPolicy::TimeoutAny
    } else {
        return Err(invalid_policy(here.as_str(), policy_text.as_str()));
    };
    let max_interval = match yaml_duration(section, "max_interval", "max_interval_ms") {
        Ok(d) => d,
        Err(e) => {
            return Err(e);
        },
    };
    let timeout = match yaml_duration(section, "timeout", "timeout_ms") {
        Ok(d) => d,
        Err(e) => {
            return Err(e);
        },
    };
    match policy {
        SyncPolicy::TimeoutAny => {
            if timeout.is_none() {
                return Err(field_err(here.as_str(), "timeout", "required when policy is 'timeout_any' (as `timeout`, or the deprecated `timeout_ms`)"));
            }
        },
        SyncPolicy::Exact | SyncPolicy::Approximate => {
            if max_interval.is_none() {
                return Err(
                    field_err(here.as_str(), "max_interval", "required when policy is 'exact' or 'approximate' (as `max_interval`, or the deprecated `max_interval_ms`)"),
                );
            }
        },
    }
    Ok(Some(Sync { policy, max_interval, timeout }))
}

} // verus!
