//! A path's full declaration: what triggers it, how it synchronises its
//! inputs, its timing, drop and miss tolerances, and the rules that tie
//! the trigger to the legacy `input:` list and `sync:` to the trigger.

use vstd::prelude::*;
use crate::duration::Duration;
use crate::field_table::Context;
use crate::manifest::{DropSpec, ParseError};
use crate::path_fields::{parse_miss_spec, MissSpec};
use crate::text::{push_str, str_eq};
use crate::timing::{
    delivers, duration_read, new_duration_read, parse_sync, quoted_number_text, sync_read, yaml_duration,
    yaml_duration_new, Sync,
};
use crate::decls::drop_count_outcome;
use crate::manifest_read::{
    input_bad, input_error, input_ok, list_bad, list_error, list_ok, read_input, read_list, read_str, str_bad,
    str_error, str_ok, CORRELATION_REMOVED,
};
use crate::timing::nanos_of;
use crate::yaml_fields::{drop_block_ok, parse_drop_spec,
    accepts_keys, all_measurable, field, field_err, field_of, is_field_err, is_scalar, key_refused,
    keys_measurable, lemma_keys_checked, path_text, reject_unknown_keys, scalar_list_ok, scalar_text,
    type_err, type_err_text, yaml_scalar_list, yaml_str_owned, YamlNode,
};

verus! {

// ── Trigger ──

/// A timer's rate as written: an integer, or a float's text.
#[derive(Debug, Clone, PartialEq)]
pub enum TimerRate {
    Integer(i64),
    Real(String),
}

/// What causes a path's output.
#[derive(Debug, Clone, PartialEq)]
pub enum TriggerDecl {
    /// A periodic callback at this rate in hertz.
    Timer { rate: TimerRate },
    /// Output caused by these input names.
    Input(Vec<String>),
    /// Published once.
    Once,
    /// Caused outside the graph.
    Spontaneous,
}

/// A float's text denotes a rate above zero: no minus sign, and a nonzero
/// digit before any exponent.
pub open spec fn real_positive(t: Seq<char>) -> bool {
    &&& t.len() > 0
    &&& t[0] != '-'
    &&& exists|i: int|
        0 <= i < t.len() && '1' <= #[trigger] t[i] <= '9' && forall|j: int|
            0 <= j < i ==> t[j] != 'e' && t[j] != 'E'
}

fn real_positive_exec(t: &str) -> (r: bool)
    ensures
        r == real_positive(t@),
{
    let v = crate::text::to_chars(t);
    if v.len() == 0 || v[0] == '-' {
        return false;
    }
    let mut i: usize = 0;
    while i < v.len()
        invariant
            i <= v@.len(),
            v@ == t@,
            v@.len() > 0 && v@[0] != '-',
            forall|j: int| 0 <= j < i ==> !('1' <= v@[j] <= '9') && v@[j] != 'e' && v@[j] != 'E',
        decreases v@.len() - i,
    {
        let c = v[i];
        if '1' <= c && c <= '9' {
            proof {
                assert(0 <= i < t@.len() && '1' <= t@[i as int] <= '9' && forall|j: int|
                    0 <= j < i ==> t@[j] != 'e' && t@[j] != 'E');
            }
            return true;
        }
        if c == 'e' || c == 'E' {
            proof {
                assert forall|k: int|
                    0 <= k < v@.len() && '1' <= #[trigger] v@[k] <= '9' implies exists|j: int|
                    0 <= j < k && (v@[j] == 'e' || v@[j] == 'E') by {
                    assert(k > i);
                    assert(0 <= i < k && (v@[i as int] == 'e' || v@[i as int] == 'E'));
                }
            }
            return false;
        }
        i += 1;
    }
    false
}

/// `l` is what a trigger's `input:` value reads as: one name or a list.
pub open spec fn names_ok(y: YamlNode, l: Vec<String>) -> bool {
    match y {
        YamlNode::BadValue | YamlNode::Null => l@.len() == 0,
        YamlNode::String(s) => l@.len() == 1 && l@[0]@ == s@,
        YamlNode::Array(arr) => {
            &&& l@.len() == arr@.len()
            &&& forall|i: int|
                0 <= i < arr@.len() ==> is_scalar(#[trigger] arr@[i]) && l@[i]@ == scalar_text(arr@[i])
        },
        _ => false,
    }
}

pub open spec fn names_bad(y: YamlNode) -> bool {
    match y {
        YamlNode::BadValue | YamlNode::Null | YamlNode::String(_) => false,
        YamlNode::Array(arr) => exists|i: int| 0 <= i < arr@.len() && !is_scalar(#[trigger] arr@[i]),
        _ => true,
    }
}

pub open spec fn names_error(y: YamlNode, here: Seq<char>, e: ParseError) -> bool {
    match y {
        YamlNode::Array(arr) => scalar_list_ok(arr@, "input"@, here, Err(e)),
        other => is_field_err(e, path_text(here, "input"@), type_err_text("a list or a single name"@, other)),
    }
}

fn read_names(y: &YamlNode, here: &str) -> (r: Result<Vec<String>, ParseError>)
    ensures
        match r {
            Ok(l) => !names_bad(*y) && names_ok(*y, l),
            Err(e) => names_bad(*y) && names_error(*y, here@, e),
        },
{
    match y {
        YamlNode::BadValue | YamlNode::Null => Ok(Vec::new()),
        YamlNode::String(s) => {
            let mut l: Vec<String> = Vec::new();
            l.push(crate::text::owned(s.as_str()));
            Ok(l)
        },
        YamlNode::Array(arr) => {
            let r = yaml_scalar_list(arr.as_slice(), "input", here);
            let ghost rr = r;
            proof {
                if let Ok(l) = rr {
                    assert forall|i: int| 0 <= i < arr@.len() implies is_scalar(#[trigger] arr@[i]) && l@[i]@
                        == scalar_text(arr@[i]) by {
                        assert(l@[i]@ == scalar_text(arr@[i]));
                    }
                }
            }
            r
        },
        other => Err(type_err(here, "input", "a list or a single name", other)),
    }
}

/// The only entry of a one-entry mapping.
pub open spec fn sole_entry(y: YamlNode) -> Option<(YamlNode, YamlNode)> {
    match y {
        YamlNode::Hash(es) => if es@.len() == 1 {
            Some(es@[0])
        } else {
            None
        },
        _ => None,
    }
}

/// `t` is what a `trigger: { timer: tv }` reads as.
pub open spec fn timer_ok(tv: YamlNode, t: TriggerDecl) -> bool {
    &&& accepts_keys(tv, Context::TriggerTimer)
    &&& match field_of(tv, "rate_hz"@) {
        Some(YamlNode::Integer(i)) => i > 0 && t == TriggerDecl::Timer { rate: TimerRate::Integer(i) },
        Some(YamlNode::Real(x)) => !crate::yaml_fields::yaml_special_float(x@) && real_positive(x@) && (t matches TriggerDecl::Timer {
            rate: TimerRate::Real(y),
        } && y@ == x@),
        _ => false,
    }
}

pub open spec fn timer_bad(tv: YamlNode) -> bool {
    ||| !accepts_keys(tv, Context::TriggerTimer)
    ||| match field_of(tv, "rate_hz"@) {
        Some(YamlNode::Integer(i)) => i <= 0,
        Some(YamlNode::Real(x)) => crate::yaml_fields::yaml_special_float(x@) || !real_positive(x@),
        _ => true,
    }
}

pub open spec fn timer_error(tv: YamlNode, here: Seq<char>, e: ParseError) -> bool {
    if !accepts_keys(tv, Context::TriggerTimer) {
        key_refused(tv, Context::TriggerTimer, here, e)
    } else {
        match field_of(tv, "rate_hz"@) {
            None | Some(YamlNode::Null) => is_field_err(e, path_text(here, "trigger.timer"@), "requires 'rate_hz'"@),
            Some(YamlNode::Real(x)) if crate::yaml_fields::yaml_special_float(x@) => is_field_err(
                e,
                path_text(here, "rate_hz"@),
                type_err_text("a number"@, YamlNode::Real(x)),
            ),
            Some(YamlNode::Integer(_)) | Some(YamlNode::Real(_)) => is_field_err(
                e,
                path_text(here, "trigger.timer.rate_hz"@),
                "must be > 0"@,
            ),
            Some(YamlNode::String(_)) => is_field_err(e, path_text(here, "rate_hz"@), quoted_number_text()),
            Some(other) => is_field_err(e, path_text(here, "rate_hz"@), type_err_text("a number"@, other)),
        }
    }
}

/// The refusal of a `trigger:` that is neither a name nor a mapping.
pub open spec fn trigger_shape_text() -> Seq<char> {
    "expected 'once', 'spontaneous', or a mapping with 'timer' or 'input'"@
}

/// `t` is what the `trigger:` field of `v` reads as.
pub open spec fn trigger_ok(v: YamlNode, t: Option<TriggerDecl>) -> bool {
    match field_of(v, "trigger"@) {
        None => t is None,
        Some(YamlNode::String(s)) => (s@ == "once"@ && t == Some(TriggerDecl::Once)) || (s@
            == "spontaneous"@ && t == Some(TriggerDecl::Spontaneous)),
        Some(y) => match sole_entry(y) {
            Some(en) => if scalar_text(en.0) == "timer"@ {
                t matches Some(d) && timer_ok(en.1, d)
            } else if scalar_text(en.0) == "input"@ {
                t matches Some(TriggerDecl::Input(l)) && !names_bad(en.1) && names_ok(en.1, l)
            } else {
                false
            },
            None => false,
        },
    }
}

pub open spec fn trigger_bad(v: YamlNode) -> bool {
    match field_of(v, "trigger"@) {
        None => false,
        Some(YamlNode::String(s)) => s@ != "once"@ && s@ != "spontaneous"@,
        Some(y) => match sole_entry(y) {
            Some(en) => if scalar_text(en.0) == "timer"@ {
                timer_bad(en.1)
            } else if scalar_text(en.0) == "input"@ {
                names_bad(en.1)
            } else {
                true
            },
            None => true,
        },
    }
}

pub open spec fn trigger_error(v: YamlNode, here: Seq<char>, e: ParseError) -> bool {
    match field_of(v, "trigger"@) {
        None => false,
        Some(YamlNode::String(s)) => is_field_err(
            e,
            path_text(here, "trigger"@),
            "invalid trigger '"@ + s@ + "', expected 'once', 'spontaneous', or a mapping with 'timer' or 'input'"@,
        ),
        Some(YamlNode::Hash(es)) => match sole_entry(YamlNode::Hash(es)) {
            Some(en) => if scalar_text(en.0) == "timer"@ {
                timer_error(en.1, here, e)
            } else if scalar_text(en.0) == "input"@ {
                names_error(en.1, here, e)
            } else {
                is_field_err(
                    e,
                    path_text(here, "trigger"@),
                    "invalid trigger key '"@ + scalar_text(en.0) + "', expected 'timer' or 'input'"@,
                )
            },
            None => is_field_err(e, path_text(here, "trigger"@), "expected exactly one of 'timer' or 'input'"@),
        },
        Some(_) => is_field_err(e, path_text(here, "trigger"@), trigger_shape_text()),
    }
}

fn read_timer(tv: &YamlNode, here: &str) -> (r: Result<TriggerDecl, ParseError>)
    requires
        keys_measurable(*tv),
    ensures
        match r {
            Ok(t) => !timer_bad(*tv) && timer_ok(*tv, t),
            Err(e) => timer_bad(*tv) && timer_error(*tv, here@, e),
        },
{
    let checked = reject_unknown_keys(tv, here, Context::TriggerTimer);
    proof {
        lemma_keys_checked(*tv, here@, Context::TriggerTimer, checked);
    }
    if let Err(e) = checked {
        return Err(e);
    }
    match field(tv, "rate_hz") {
        None | Some(YamlNode::Null) => Err(field_err(here, "trigger.timer", "requires 'rate_hz'")),
        Some(YamlNode::Integer(i)) => {
            if *i > 0 {
                Ok(TriggerDecl::Timer { rate: TimerRate::Integer(*i) })
            } else {
                Err(field_err(here, "trigger.timer.rate_hz", "must be > 0"))
            }
        },
        Some(YamlNode::Real(x)) => {
            if crate::yaml_fields::is_yaml_special_float(x.as_str()) {
                Err(type_err(here, "rate_hz", "a number", field(tv, "rate_hz").unwrap()))
            } else if real_positive_exec(x.as_str()) {
                Ok(TriggerDecl::Timer { rate: TimerRate::Real(crate::text::owned(x.as_str())) })
            } else {
                Err(field_err(here, "trigger.timer.rate_hz", "must be > 0"))
            }
        },
        Some(YamlNode::String(_)) => Err(
            field_err(
                here,
                "rate_hz",
                "expected a number, got a quoted string — remove the quotes. A quoted number used to be read as absent, which deleted the declaration in silence",
            ),
        ),
        Some(other) => Err(type_err(here, "rate_hz", "a number", other)),
    }
}

/// `trigger:`: the names `once` and `spontaneous`, or a one-entry mapping
/// `timer: { rate_hz }` (above zero) or `input: <names>`; absent is `None`.
pub fn read_trigger(v: &YamlNode, here: &str) -> (r: Result<Option<TriggerDecl>, ParseError>)
    requires
        all_measurable(*v),
    ensures
        match r {
            Ok(t) => !trigger_bad(*v) && trigger_ok(*v, t),
            Err(e) => trigger_bad(*v) && trigger_error(*v, here@, e),
        },
{
    proof {
        crate::manifest_read::lemma_field_measurable(*v, "trigger"@);
    }
    match field(v, "trigger") {
        None => Ok(None),
        Some(YamlNode::String(s)) => {
            if str_eq(s.as_str(), "once") {
                Ok(Some(TriggerDecl::Once))
            } else if str_eq(s.as_str(), "spontaneous") {
                Ok(Some(TriggerDecl::Spontaneous))
            } else {
                let mut m = String::new();
                push_str(&mut m, "invalid trigger '");
                push_str(&mut m, s.as_str());
                push_str(&mut m, "', expected 'once', 'spontaneous', or a mapping with 'timer' or 'input'");
                Err(field_err(here, "trigger", m.as_str()))
            }
        },
        Some(YamlNode::Hash(es)) => {
            if es.len() != 1 {
                return Err(field_err(here, "trigger", "expected exactly one of 'timer' or 'input'"));
            }
            let k = yaml_str_owned(&es[0].0);
            let tv = &es[0].1;
            proof {
                assert(all_measurable(es@[0].1));
            }
            if str_eq(k.as_str(), "timer") {
                match read_timer(tv, here) {
                    Ok(t) => Ok(Some(t)),
                    Err(e) => Err(e),
                }
            } else if str_eq(k.as_str(), "input") {
                match read_names(tv, here) {
                    Ok(l) => Ok(Some(TriggerDecl::Input(l))),
                    Err(e) => Err(e),
                }
            } else {
                let mut m = String::new();
                push_str(&mut m, "invalid trigger key '");
                push_str(&mut m, k.as_str());
                push_str(&mut m, "', expected 'timer' or 'input'");
                Err(field_err(here, "trigger", m.as_str()))
            }
        },
        Some(_) => Err(
            field_err(here, "trigger", "expected 'once', 'spontaneous', or a mapping with 'timer' or 'input'"),
        ),
    }
}


// ── The whole path ──

/// A path's declaration.
#[derive(Debug, Clone)]
pub struct PathDecl {
    pub if_condition: Option<String>,
    pub unless_condition: Option<String>,
    pub input: Vec<String>,
    pub output: Vec<String>,
    pub max_latency: Option<Duration>,
    pub tolerance: Option<Duration>,
    pub drop: Option<DropSpec>,
    pub trigger: Option<TriggerDecl>,
    pub sync: Option<Sync>,
    pub max_jitter: Option<Duration>,
    pub min_latency: Option<Duration>,
    pub miss: Option<MissSpec>,
}

/// How often `x` occurs in `s`.
pub open spec fn name_count(s: Seq<Seq<char>>, x: Seq<char>) -> nat
    decreases s.len(),
{
    if s.len() == 0 {
        0
    } else {
        name_count(s.drop_last(), x) + if s.last() == x {
            1nat
        } else {
            0nat
        }
    }
}

/// `a` and `b` hold the same names, each as often.
pub open spec fn same_names(a: Seq<Seq<char>>, b: Seq<Seq<char>>) -> bool {
    a.len() == b.len() && forall|i: int| 0 <= i < a.len() ==> name_count(a, #[trigger] a[i]) == name_count(b, a[i])
}

/// The names a list-or-name value holds.
pub open spec fn value_names(y: YamlNode) -> Seq<Seq<char>> {
    match y {
        YamlNode::String(s) => seq![s@],
        YamlNode::Array(arr) => arr@.map_values(|x: YamlNode| scalar_text(x)),
        _ => Seq::empty(),
    }
}

/// The names of the legacy `input:` field.
pub open spec fn input_names(v: YamlNode) -> Seq<Seq<char>> {
    match field_of(v, "input"@) {
        Some(y) => value_names(y),
        None => Seq::empty(),
    }
}

/// The names of `trigger: { input: .. }`, when the trigger has that form.
pub open spec fn trigger_input_names(v: YamlNode) -> Option<Seq<Seq<char>>> {
    match field_of(v, "trigger"@) {
        Some(y) => match sole_entry(y) {
            Some(en) => if scalar_text(en.0) == "input"@ {
                Some(value_names(en.1))
            } else {
                None
            },
            None => None,
        },
        None => None,
    }
}

/// An input trigger and a non-empty legacy `input:` that name different
/// endpoints.
pub open spec fn trigger_disagrees(v: YamlNode) -> bool {
    trigger_input_names(v) matches Some(t) && input_names(v).len() > 0 && !same_names(t, input_names(v))
}

/// The trigger in effect feeds the path from at least two inputs: an
/// explicit trigger wins, else the legacy `input:` list.
pub open spec fn fans_in(v: YamlNode) -> bool {
    if field_of(v, "trigger"@) is Some {
        trigger_input_names(v) matches Some(t) && t.len() >= 2
    } else {
        input_names(v).len() >= 2
    }
}

pub open spec fn sync_fails(v: YamlNode, here: Seq<char>) -> bool {
    field_of(v, "sync"@) matches Some(sec) && (!accepts_keys(sec, Context::Sync) || sync_read(
        sec,
        path_text(here, "sync"@),
    ) is Err)
}

pub open spec fn sync_error(v: YamlNode, here: Seq<char>, e: ParseError) -> bool {
    match field_of(v, "sync"@) {
        Some(sec) => if !accepts_keys(sec, Context::Sync) {
            key_refused(sec, Context::Sync, path_text(here, "sync"@), e)
        } else {
            sync_read(sec, path_text(here, "sync"@)) matches Err((p, m)) && is_field_err(e, p, m)
        },
        None => false,
    }
}

pub open spec fn drop_fails(v: YamlNode) -> bool {
    match field_of(v, "drop"@) {
        None => false,
        Some(YamlNode::String(s)) => drop_count_outcome(s@) is Err,
        Some(sec) => !drop_block_ok(sec),
    }
}

/// `e` refuses the `drop:` field of `v` under `here`: the shorthand's count,
/// else the full block's first unknown key, its `max_count`, then its
/// `max_consecutive`.
pub open spec fn drop_error(v: YamlNode, here: Seq<char>, e: ParseError) -> bool {
    let d = path_text(here, "drop"@);
    match field_of(v, "drop"@) {
        None => false,
        Some(YamlNode::String(s)) => drop_count_outcome(s@) matches Err(m) && is_field_err(
            e,
            path_text(d, "drop"@),
            m,
        ),
        Some(sec) => if !accepts_keys(sec, Context::Drop) {
            key_refused(sec, Context::Drop, d, e)
        } else {
            match crate::yaml_fields::max_count_failure(sec) {
                Some(m) => is_field_err(e, path_text(d, "max_count"@), m),
                None => match crate::yaml_fields::max_consecutive_failure(sec) {
                    Some(m) => is_field_err(e, path_text(d, "max_consecutive"@), m),
                    None => false,
                },
            }
        },
    }
}

/// `e` refuses the `miss:` field of `v` under `here`: the shorthand's
/// tolerance, else the full block's first unknown key, else the first of its
/// fields that does not read.
pub open spec fn miss_error(v: YamlNode, here: Seq<char>, e: ParseError) -> bool {
    let m0 = path_text(here, "miss"@);
    match field_of(v, "miss"@) {
        None => false,
        Some(YamlNode::String(t)) => drop_count_outcome(t@) matches Err(m) && is_field_err(
            e,
            path_text(m0, "miss"@),
            m,
        ),
        Some(sec) => if !accepts_keys(sec, Context::Miss) {
            key_refused(sec, Context::Miss, m0, e)
        } else {
            crate::path_fields::miss_read(sec, m0) matches Err((p, m)) && is_field_err(e, p, m)
        },
    }
}

pub open spec fn miss_fails(v: YamlNode, here: Seq<char>) -> bool {
    match field_of(v, "miss"@) {
        None => false,
        Some(YamlNode::String(s)) => drop_count_outcome(s@) is Err,
        Some(sec) => !accepts_keys(sec, Context::Miss) || crate::path_fields::miss_read(
            sec,
            path_text(here, "miss"@),
        ) is Err,
    }
}

/// The head of a path's declaration does not read: `correlation:`, an
/// unknown key, `input:`, the trigger, or their agreement.
pub open spec fn head_fails(v: YamlNode) -> bool {
    ||| field_of(v, "correlation"@) is Some
    ||| !accepts_keys(v, Context::Path)
    ||| input_bad(v)
    ||| trigger_bad(v)
    ||| trigger_disagrees(v)
}

pub open spec fn head_error(v: YamlNode, here: Seq<char>, e: ParseError) -> bool {
    if field_of(v, "correlation"@) is Some {
        is_field_err(e, path_text(here, "correlation"@), CORRELATION_REMOVED@)
    } else if !accepts_keys(v, Context::Path) {
        key_refused(v, Context::Path, here, e)
    } else if input_bad(v) {
        input_error(v, here, e)
    } else if trigger_bad(v) {
        trigger_error(v, here, e)
    } else {
        is_field_err(e, path_text(here, "trigger.input"@), "disagrees with the legacy 'input:' list on this path"@)
    }
}

/// A later field of a path's declaration does not read.
pub open spec fn fields_fail(v: YamlNode, here: Seq<char>) -> bool {
    ||| sync_fails(v, here)
    ||| str_bad(v, "if"@)
    ||| str_bad(v, "unless"@)
    ||| list_bad(v, "output"@)
    ||| duration_read(v, "max_latency"@, "max_latency_ms"@) is Err
    ||| duration_read(v, "tolerance"@, "tolerance_ms"@) is Err
    ||| drop_fails(v)
    ||| new_duration_read(v, "max_jitter"@) is Err
    ||| new_duration_read(v, "min_latency"@) is Err
    ||| miss_fails(v, here)
}

/// The first later field that does not read, in reading order; the drop
/// and miss tolerances are refused with their own parsers' errors.
pub open spec fn fields_error(v: YamlNode, here: Seq<char>, e: ParseError) -> bool {
    if sync_fails(v, here) {
        sync_error(v, here, e)
    } else if str_bad(v, "if"@) {
        str_error(v, "if"@, here, e)
    } else if str_bad(v, "unless"@) {
        str_error(v, "unless"@, here, e)
    } else if list_bad(v, "output"@) {
        list_error(v, "output"@, here, e)
    } else if duration_read(v, "max_latency"@, "max_latency_ms"@) is Err {
        delivers(Err(e), duration_read(v, "max_latency"@, "max_latency_ms"@))
    } else if duration_read(v, "tolerance"@, "tolerance_ms"@) is Err {
        delivers(Err(e), duration_read(v, "tolerance"@, "tolerance_ms"@))
    } else if drop_fails(v) {
        drop_error(v, here, e)
    } else if new_duration_read(v, "max_jitter"@) is Err {
        delivers(Err(e), new_duration_read(v, "max_jitter"@))
    } else if new_duration_read(v, "min_latency"@) is Err {
        delivers(Err(e), new_duration_read(v, "min_latency"@))
    } else {
        miss_error(v, here, e)
    }
}

/// `sync:` stands on a path whose trigger in effect has fewer than two
/// inputs.
pub open spec fn sync_without_fan_in(v: YamlNode) -> bool {
    field_of(v, "sync"@) is Some && !fans_in(v)
}

/// Some part of a path's declaration does not read.
pub open spec fn path_decl_fails(v: YamlNode, here: Seq<char>) -> bool {
    head_fails(v) || fields_fail(v, here) || sync_without_fan_in(v)
}

/// `e` refuses the first part of a path's declaration that does not read,
/// in the order they are read.
pub open spec fn path_decl_error(v: YamlNode, here: Seq<char>, e: ParseError) -> bool {
    if head_fails(v) {
        head_error(v, here, e)
    } else if fields_fail(v, here) {
        fields_error(v, here, e)
    } else {
        is_field_err(e, path_text(here, "sync"@), "'sync:' requires an input trigger with at least 2 endpoints"@)
    }
}

/// `m` is the miss tolerance the `miss:` field of `v` declares: the
/// shorthand gives a tolerance alone, the full block what it reads as
/// under `here.miss`.
pub open spec fn miss_value(v: YamlNode, here: Seq<char>, m: Option<MissSpec>) -> bool {
    match field_of(v, "miss"@) {
        None => m is None,
        Some(YamlNode::String(t)) => m == Some(
            MissSpec { tolerate: crate::yaml_fields::count_of(t@), consecutive: None, action: None },
        ),
        Some(sec) => crate::path_fields::miss_read(sec, path_text(here, "miss"@)) matches Ok(x) && m == Some(x),
    }
}

/// `d` is what a path's declaration reads as.
pub open spec fn path_decl_reads(v: YamlNode, here: Seq<char>, d: PathDecl) -> bool {
    &&& input_ok(v, d.input)
    &&& trigger_ok(v, d.trigger)
    &&& str_ok(v, "if"@, d.if_condition)
    &&& str_ok(v, "unless"@, d.unless_condition)
    &&& list_ok(v, "output"@, d.output)
    &&& delivers(Ok(d.max_latency), duration_read(v, "max_latency"@, "max_latency_ms"@))
    &&& delivers(Ok(d.tolerance), duration_read(v, "tolerance"@, "tolerance_ms"@))
    &&& delivers(Ok(d.max_jitter), new_duration_read(v, "max_jitter"@))
    &&& delivers(Ok(d.min_latency), new_duration_read(v, "min_latency"@))
    &&& crate::yaml_fields::drop_value(v, "drop"@, d.drop)
    &&& miss_value(v, here, d.miss)
    &&& match field_of(v, "sync"@) {
        None => d.sync is None,
        Some(sec) => sync_read(sec, path_text(here, "sync"@)) matches Ok((p, mi, to)) && (d.sync matches Some(
            sy,
        ) && sy.policy == p && nanos_of(sy.max_interval) == mi && nanos_of(sy.timeout) == to),
    }
}

fn count_name(s: &Vec<String>, x: &String) -> (r: usize)
    ensures
        r == name_count(s@.map_values(|t: String| t@), x@),
{
    let ghost views = s@.map_values(|t: String| t@);
    let mut r: usize = 0;
    let mut i: usize = 0;
    while i < s.len()
        invariant
            i <= s@.len(),
            views == s@.map_values(|t: String| t@),
            r == name_count(views.take(i as int), x@),
            r <= i,
        decreases s@.len() - i,
    {
        assert(views.take(i + 1).drop_last() =~= views.take(i as int));
        if str_eq(s[i].as_str(), x.as_str()) {
            r += 1;
        }
        i += 1;
    }
    assert(views.take(s@.len() as int) =~= views);
    r
}

fn same_names_exec(a: &Vec<String>, b: &Vec<String>) -> (r: bool)
    ensures
        r == same_names(a@.map_values(|t: String| t@), b@.map_values(|t: String| t@)),
{
    let ghost av = a@.map_values(|t: String| t@);
    let ghost bv = b@.map_values(|t: String| t@);
    if a.len() != b.len() {
        return false;
    }
    let mut i: usize = 0;
    while i < a.len()
        invariant
            i <= a@.len(),
            av == a@.map_values(|t: String| t@),
            bv == b@.map_values(|t: String| t@),
            av.len() == bv.len(),
            forall|j: int| 0 <= j < i ==> name_count(av, #[trigger] av[j]) == name_count(bv, av[j]),
        decreases a@.len() - i,
    {
        let ca = count_name(a, &a[i]);
        let cb = count_name(b, &a[i]);
        if ca != cb {
            assert(name_count(av, av[i as int]) != name_count(bv, av[i as int]));
            return false;
        }
        i += 1;
    }
    true
}

proof fn lemma_names_views(y: YamlNode, l: Vec<String>)
    requires
        names_ok(y, l),
    ensures
        l@.map_values(|t: String| t@) == value_names(y),
{
    assert(l@.map_values(|t: String| t@) =~= value_names(y));
}

proof fn lemma_input_views(v: YamlNode, l: Vec<String>)
    requires
        input_ok(v, l),
    ensures
        l@.map_values(|t: String| t@) == input_names(v),
{
    assert(l@.map_values(|t: String| t@) =~= input_names(v));
}

/// The head of a path: `correlation:` refused, keys checked, `input:`, the
/// trigger, and their agreement.
#[verifier::spinoff_prover]
fn read_head(v: &YamlNode, here: &str) -> (r: Result<(Vec<String>, Option<TriggerDecl>), ParseError>)
    requires
        all_measurable(*v),
    ensures
        match r {
            Ok((input, trigger)) => !head_fails(*v) && input_ok(*v, input) && trigger_ok(*v, trigger)
                && input@.map_values(|t: String| t@) == input_names(*v) && match trigger {
                Some(TriggerDecl::Input(eps)) => trigger_input_names(*v) == Some(
                    eps@.map_values(|t: String| t@),
                ),
                _ => trigger_input_names(*v) is None,
            },
            Err(e) => head_fails(*v) && head_error(*v, here@, e),
        },
{
    if field(v, "correlation").is_some() {
        return Err(field_err(here, "correlation", CORRELATION_REMOVED));
    }
    assert(keys_measurable(*v));
    let checked = reject_unknown_keys(v, here, Context::Path);
    proof {
        lemma_keys_checked(*v, here@, Context::Path, checked);
    }
    if let Err(e) = checked {
        return Err(e);
    }
    let input = match read_input(v, here) {
        Ok(x) => x,
        Err(e) => {
            return Err(e);
        },
    };
    proof {
        lemma_input_views(*v, input);
    }
    let trigger = match read_trigger(v, here) {
        Ok(x) => x,
        Err(e) => {
            return Err(e);
        },
    };
    proof {
        reveal_strlit("timer");
        reveal_strlit("input");
    }
    if let Some(TriggerDecl::Input(eps)) = &trigger {
        proof {
            let y = field_of(*v, "trigger"@)->0;
            let en = sole_entry(y)->0;
            lemma_names_views(en.1, *eps);
        }
        if input.len() > 0 && !same_names_exec(eps, &input) {
            return Err(field_err(here, "trigger.input", "disagrees with the legacy 'input:' list on this path"));
        }
    }
    proof {
        if let Some(TriggerDecl::Input(eps)) = &trigger {
            let y = field_of(*v, "trigger"@)->0;
            let en = sole_entry(y)->0;
            assert(scalar_text(en.0) == "input"@);
            assert(trigger_input_names(*v) == Some(eps@.map_values(|t: String| t@)));
            assert(!trigger_disagrees(*v));
        } else {
            if let Some(y) = field_of(*v, "trigger"@) {
                if let Some(en) = sole_entry(y) {
                    if !(y is String) && scalar_text(en.0) == "input"@ {
                        reveal_strlit("timer");
                        reveal_strlit("input");
                        assert("input"@ != "timer"@) by {
                            assert("input"@[0] != "timer"@[0]);
                        }
                        assert(trigger_ok(*v, trigger));
                        assert(trigger matches Some(TriggerDecl::Input(_)));
                    }
                }
            }
            assert(trigger_input_names(*v) is None);
        }
    }
    Ok((input, trigger))
}

/// The later fields of a path, in reading order.
#[verifier::rlimit(40)]
fn read_fields(v: &YamlNode, here: &str) -> (r: Result<
    (
        Option<Sync>,
        Option<String>,
        Option<String>,
        Vec<String>,
        Option<Duration>,
        Option<Duration>,
        Option<DropSpec>,
        Option<Duration>,
        Option<Duration>,
        Option<MissSpec>,
    ),
    ParseError,
>)
    requires
        all_measurable(*v),
    ensures
        match r {
            Ok((sync, i, u, output, ml, tol, drop, mj, minl, miss)) => {
                &&& !fields_fail(*v, here@)
                &&& str_ok(*v, "if"@, i)
                &&& str_ok(*v, "unless"@, u)
                &&& list_ok(*v, "output"@, output)
                &&& delivers(Ok(ml), duration_read(*v, "max_latency"@, "max_latency_ms"@))
                &&& delivers(Ok(tol), duration_read(*v, "tolerance"@, "tolerance_ms"@))
                &&& delivers(Ok(mj), new_duration_read(*v, "max_jitter"@))
                &&& delivers(Ok(minl), new_duration_read(*v, "min_latency"@))
                &&& crate::yaml_fields::drop_value(*v, "drop"@, drop)
                &&& miss_value(*v, here@, miss)
                &&& match field_of(*v, "sync"@) {
                    None => sync is None,
                    Some(sec) => sync_read(sec, path_text(here@, "sync"@)) matches Ok((p, mi, to)) && (
                    sync matches Some(sy) && sy.policy == p && nanos_of(sy.max_interval) == mi && nanos_of(
                        sy.timeout,
                    ) == to),
                }
            },
            Err(e) => fields_fail(*v, here@) && fields_error(*v, here@, e),
        },
{
    proof {
        crate::manifest_read::lemma_field_measurable(*v, "sync"@);
        crate::manifest_read::lemma_field_measurable(*v, "drop"@);
        crate::manifest_read::lemma_field_measurable(*v, "miss"@);
        if let Some(sec) = field_of(*v, "sync"@) {
            assert(keys_measurable(sec));
        }
        if let Some(sec) = field_of(*v, "drop"@) {
            assert(keys_measurable(sec));
        }
        if let Some(sec) = field_of(*v, "miss"@) {
            assert(keys_measurable(sec));
        }
    }
    let sync = match parse_sync(v, here) {
        Ok(x) => x,
        Err(e) => {
            return Err(e);
        },
    };
    let i = match read_str(v, "if", here) {
        Ok(x) => x,
        Err(e) => {
            return Err(e);
        },
    };
    let u = match read_str(v, "unless", here) {
        Ok(x) => x,
        Err(e) => {
            return Err(e);
        },
    };
    let output = match read_list(v, "output", here) {
        Ok(x) => x,
        Err(e) => {
            return Err(e);
        },
    };
    let ml = match yaml_duration(v, "max_latency", "max_latency_ms") {
        Ok(x) => x,
        Err(e) => {
            return Err(e);
        },
    };
    let tol = match yaml_duration(v, "tolerance", "tolerance_ms") {
        Ok(x) => x,
        Err(e) => {
            return Err(e);
        },
    };
    let drop = match parse_drop_spec(v, "drop", here) {
        Ok(x) => x,
        Err(e) => {
            return Err(e);
        },
    };
    let mj = match yaml_duration_new(v, "max_jitter") {
        Ok(x) => x,
        Err(e) => {
            return Err(e);
        },
    };
    let minl = match yaml_duration_new(v, "min_latency") {
        Ok(x) => x,
        Err(e) => {
            return Err(e);
        },
    };
    let miss = match parse_miss_spec(v, here) {
        Ok(x) => x,
        Err(e) => {
            return Err(e);
        },
    };
    Ok((sync, i, u, output, ml, tol, drop, mj, minl, miss))
}

/// Read a path's declaration under `here`: refuse `correlation:` and
/// unknown keys; read `input:`, the trigger (which must name the same
/// endpoints as a non-empty `input:`), `sync:`, the conditions, `output:`,
/// the timing fields, the drop and miss tolerances; and refuse `sync:`
/// unless the trigger in effect has at least two inputs.
pub fn read_path_decl(v: &YamlNode, here: &str) -> (r: Result<PathDecl, ParseError>)
    requires
        all_measurable(*v),
    ensures
        match r {
            Ok(d) => !path_decl_fails(*v, here@) && path_decl_reads(*v, here@, d),
            Err(e) => path_decl_fails(*v, here@) && path_decl_error(*v, here@, e),
        },
{
    let (input, trigger) = match read_head(v, here) {
        Ok(x) => x,
        Err(e) => {
            return Err(e);
        },
    };
    let (sync, if_condition, unless_condition, output, max_latency, tolerance, drop, max_jitter, min_latency, miss) =
        match read_fields(v, here) {
        Ok(x) => x,
        Err(e) => {
            return Err(e);
        },
    };
    if sync.is_some() {
        let fans = match &trigger {
            Some(TriggerDecl::Input(eps)) => eps.len() >= 2,
            Some(_) => false,
            None => input.len() >= 2,
        };
        if !fans {
            return Err(field_err(here, "sync", "'sync:' requires an input trigger with at least 2 endpoints"));
        }
    }
    Ok(PathDecl {
        if_condition,
        unless_condition,
        input,
        output,
        max_latency,
        tolerance,
        drop,
        trigger,
        sync,
        max_jitter,
        min_latency,
        miss,
    })
}


/// Whether a part of a path's declaration reads does not depend on where
/// the path sits.
pub proof fn lemma_fails_anywhere(v: YamlNode, here: Seq<char>)
    ensures
        path_decl_fails(v, here) == path_decl_fails(v, Seq::empty()),
{
    if let Some(sec) = field_of(v, "sync"@) {
        assert((sync_read(sec, path_text(here, "sync"@)) is Err) == (sync_read(
            sec,
            path_text(Seq::empty(), "sync"@),
        ) is Err));
    }
    if let Some(sec) = field_of(v, "miss"@) {
        assert((crate::path_fields::miss_read(sec, path_text(here, "miss"@)) is Err) == (
        crate::path_fields::miss_read(sec, path_text(Seq::empty(), "miss"@)) is Err));
    }
}


/// What causes a path's output, once the legacy `input:` list is taken
/// into account.
#[derive(Debug, Clone, PartialEq)]
pub enum EffectiveTrigger {
    Timer { rate: TimerRate },
    Input(Vec<String>),
    Once,
    Spontaneous,
    /// Neither a trigger nor a non-empty `input:` is declared.
    Unclassified,
}

/// `r` is the trigger in effect for an explicit `trigger` and an `input:`
/// list: an explicit trigger wins, else a non-empty `input:` list is an
/// input trigger, else nothing is derived.
pub open spec fn trigger_in_effect(trigger: Option<TriggerDecl>, input: Seq<String>, r: EffectiveTrigger) -> bool {
    match trigger {
        Some(TriggerDecl::Timer { rate }) => r == EffectiveTrigger::Timer { rate },
        Some(TriggerDecl::Input(eps)) => r matches EffectiveTrigger::Input(x) && x@ == eps@,
        Some(TriggerDecl::Once) => r is Once,
        Some(TriggerDecl::Spontaneous) => r is Spontaneous,
        None => if input.len() > 0 {
            r matches EffectiveTrigger::Input(x) && x@ == input
        } else {
            r is Unclassified
        },
    }
}

fn copy_names(v: &Vec<String>) -> (r: Vec<String>)
    ensures
        r@ == v@,
{
    let r = v.clone();
    assert forall|i: int| 0 <= i < v@.len() implies r@[i] == v@[i] by {
        assert(cloned::<String>(v[i], r[i]));
    }
    assert(r@ =~= v@);
    r
}

fn copy_rate(x: &TimerRate) -> (r: TimerRate)
    ensures
        r == *x,
{
    match x {
        TimerRate::Integer(i) => TimerRate::Integer(*i),
        TimerRate::Real(t) => TimerRate::Real(t.clone()),
    }
}

/// The trigger in effect for an explicit `trigger:` and an `input:` list.
pub fn effective_of(trigger: &Option<TriggerDecl>, input: &Vec<String>) -> (r: EffectiveTrigger)
    ensures
        trigger_in_effect(*trigger, input@, r),
{
    match trigger {
        Some(TriggerDecl::Timer { rate }) => EffectiveTrigger::Timer { rate: copy_rate(rate) },
        Some(TriggerDecl::Input(eps)) => EffectiveTrigger::Input(copy_names(eps)),
        Some(TriggerDecl::Once) => EffectiveTrigger::Once,
        Some(TriggerDecl::Spontaneous) => EffectiveTrigger::Spontaneous,
        None => if input.len() > 0 {
            EffectiveTrigger::Input(copy_names(input))
        } else {
            EffectiveTrigger::Unclassified
        },
    }
}

impl PathDecl {
    /// The trigger in effect: an explicit `trigger:` always wins; otherwise
    /// a non-empty `input:` list derives an input trigger; otherwise the
    /// path is unclassified, never assumed to be a timer.
    pub fn effective_trigger(&self) -> (r: EffectiveTrigger)
        ensures
            trigger_in_effect(self.trigger, self.input@, r),
    {
        effective_of(&self.trigger, &self.input)
    }
}

/// What a path promises besides its conditions and endpoint lists.
#[derive(Debug, Clone)]
pub struct PathContract {
    pub trigger: Option<TriggerDecl>,
    pub sync: Option<Sync>,
    pub max_latency: Option<Duration>,
    pub tolerance: Option<Duration>,
    pub min_latency: Option<Duration>,
    pub max_jitter: Option<Duration>,
    pub drop: Option<DropSpec>,
    pub miss: Option<MissSpec>,
}

/// The part of a path's declaration that is its contract.
pub open spec fn contract_of(d: PathDecl) -> PathContract {
    PathContract {
        trigger: d.trigger,
        sync: d.sync,
        max_latency: d.max_latency,
        tolerance: d.tolerance,
        min_latency: d.min_latency,
        max_jitter: d.max_jitter,
        drop: d.drop,
        miss: d.miss,
    }
}

/// `c` is the contract `v` declares, wherever the path sits.
pub open spec fn contract_read(v: YamlNode, c: PathContract) -> bool {
    &&& trigger_ok(v, c.trigger)
    &&& delivers(Ok(c.max_latency), duration_read(v, "max_latency"@, "max_latency_ms"@))
    &&& delivers(Ok(c.tolerance), duration_read(v, "tolerance"@, "tolerance_ms"@))
    &&& delivers(Ok(c.max_jitter), new_duration_read(v, "max_jitter"@))
    &&& delivers(Ok(c.min_latency), new_duration_read(v, "min_latency"@))
    &&& crate::yaml_fields::drop_value(v, "drop"@, c.drop)
    &&& miss_value(v, Seq::empty(), c.miss)
    &&& match field_of(v, "sync"@) {
        None => c.sync is None,
        Some(sec) => sync_read(sec, path_text(Seq::empty(), "sync"@)) matches Ok((p, mi, to)) && (c.sync matches Some(
            sy,
        ) && sy.policy == p && nanos_of(sy.max_interval) == mi && nanos_of(sy.timeout) == to),
    }
}

/// A declaration read anywhere gives the contract that reads anywhere.
pub proof fn lemma_contract_anywhere(v: YamlNode, here: Seq<char>, d: PathDecl)
    requires
        path_decl_reads(v, here, d),
    ensures
        contract_read(v, contract_of(d)),
{
    if let Some(sec) = field_of(v, "sync"@) {
        assert(sync_read(sec, path_text(here, "sync"@)) is Ok ==> sync_read(sec, path_text(here, "sync"@))
            == sync_read(sec, path_text(Seq::empty(), "sync"@)));
    }
    if let Some(sec) = field_of(v, "miss"@) {
        assert(crate::path_fields::miss_read(sec, path_text(here, "miss"@)) is Ok ==> crate::path_fields::miss_read(
            sec,
            path_text(here, "miss"@),
        ) == crate::path_fields::miss_read(sec, path_text(Seq::empty(), "miss"@)));
    }
}

impl PathContract {
    /// A path that promises nothing.
    pub fn none() -> (r: Self)
        ensures
            r.trigger is None && r.sync is None && r.max_latency is None && r.tolerance is None
                && r.min_latency is None && r.max_jitter is None && r.drop is None && r.miss is None,
    {
        PathContract {
            trigger: None,
            sync: None,
            max_latency: None,
            tolerance: None,
            min_latency: None,
            max_jitter: None,
            drop: None,
            miss: None,
        }
    }
}

} // verus!
