//! What a node declares besides its conditions and paths: whether it is a
//! lifecycle node, its endpoints and their properties, its criticality and
//! concurrency, and the rule that no endpoint name is used twice.

use vstd::prelude::*;
use crate::decls::QosDecl;
use crate::duration::Duration;
use crate::field_table::Context;
use crate::manifest::{Buffer, ParseError};
use crate::assoc::has_key;
use crate::yaml_fields::yaml_special_float;
use crate::manifest_read::{
    entry_ctx, lemma_field_measurable, lemma_table_done, lemma_table_fail, lemma_table_start, lemma_table_step,
    put_entry, qos_error, qos_fails, qos_reads, read_qos, str_bad, str_error, str_ok, table_error, table_fails,
    table_reads, entry_name,
};
use crate::realize::{names_ascending, string_views};
use crate::path_fields::{first_repeat, first_non_list, group_field, groups_read, parse_concurrency, ConcurrencyDecl};
use crate::timing::{delivers, duration_read, quoted_number_text, yaml_duration};
use crate::yaml_fields::{
    accepts_keys, all_measurable, field, field_err, field_of, is_field_err, key_refused, keys_measurable,
    lemma_keys_checked, parse_buffer, path_text, reject_unknown_keys, scalar_text, type_err, type_err_text,
    yaml_bool, yaml_str_owned, YamlNode,
};

verus! {

// ── One endpoint ──

/// A number as written: an integer, or a float's text.
#[derive(Debug, Clone, PartialEq)]
pub enum NumberText {
    Integer(i64),
    Real(String),
}

/// A publisher's, subscriber's or client's properties.
#[derive(Debug, Clone)]
pub struct EndpointDecl {
    pub min_rate_hz: Option<NumberText>,
    pub max_rate_hz: Option<NumberText>,
    pub max_age: Option<Duration>,
    pub state: Option<bool>,
    pub required: Option<bool>,
    pub qos: Option<QosDecl>,
    pub max_transport: Option<Duration>,
    pub buffer: Option<Buffer>,
}

/// A service server's properties.
#[derive(Debug, Clone)]
pub struct SrvEndpointDecl {
    pub max_response: Option<Duration>,
}

/// Why an endpoint `jitter:` is refused.
pub const JITTER_REMOVED: &'static str = "`jitter:` on an endpoint was removed — nothing ever read it, and \
             jitter is a property of a ROUTE rather than of one endpoint. \
             Declare it on the path or scope path whose end-to-end variation \
             you mean:\n\
             \x20 paths:\n\
             \x20   <path name>:\n\
             \x20     max_jitter: <the tolerable spread>\n\
             `jitter-feasibility` then checks it against the sampling jitter \
             the route already carries — one whole period per clock boundary \
             crossed, which no priority assignment can reduce.";

/// Why a `buffer:` without `state: true` is refused.
pub const BUFFER_NEEDS_STATE: &'static str = "'buffer' is only meaningful on a subscriber with 'state: true'";

/// `o` is what the number field `key` of `y` reads as.
pub open spec fn number_ok(y: YamlNode, key: Seq<char>, o: Option<NumberText>) -> bool {
    match field_of(y, key) {
        None | Some(YamlNode::Null) => o is None,
        Some(YamlNode::Integer(i)) => o == Some(NumberText::Integer(i)),
        Some(YamlNode::Real(x)) => !yaml_special_float(x@) && (o matches Some(NumberText::Real(t)) && t@ == x@),
        _ => false,
    }
}

/// The field `key` of `y` is not a number: a float text Rust's parse refuses
/// counts as not a number.
pub open spec fn number_bad(y: YamlNode, key: Seq<char>) -> bool {
    match field_of(y, key) {
        None | Some(YamlNode::Null) | Some(YamlNode::Integer(_)) => false,
        Some(YamlNode::Real(x)) => yaml_special_float(x@),
        _ => true,
    }
}

pub open spec fn number_error(y: YamlNode, key: Seq<char>, here: Seq<char>, e: ParseError) -> bool {
    match field_of(y, key) {
        Some(YamlNode::String(_)) => is_field_err(e, path_text(here, key), quoted_number_text()),
        Some(other) => is_field_err(e, path_text(here, key), type_err_text("a number"@, other)),
        None => false,
    }
}

pub(crate) fn read_number(y: &YamlNode, key: &str, here: &str) -> (r: Result<Option<NumberText>, ParseError>)
    ensures
        match r {
            Ok(o) => !number_bad(*y, key@) && number_ok(*y, key@, o),
            Err(e) => number_bad(*y, key@) && number_error(*y, key@, here@, e),
        },
{
    match field(y, key) {
        None | Some(YamlNode::Null) => Ok(None),
        Some(YamlNode::Integer(i)) => Ok(Some(NumberText::Integer(*i))),
        Some(YamlNode::Real(x)) => if crate::yaml_fields::is_yaml_special_float(x.as_str()) {
            Err(type_err(here, key, "a number", field(y, key).unwrap()))
        } else {
            Ok(Some(NumberText::Real(crate::text::owned(x.as_str()))))
        },
        Some(YamlNode::String(_)) => Err(
            field_err(
                here,
                key,
                "expected a number, got a quoted string — remove the quotes. A quoted number used to be read as absent, which deleted the declaration in silence",
            ),
        ),
        Some(other) => Err(type_err(here, key, "a number", other)),
    }
}

/// `o` is what the boolean field `key` of `y` reads as.
pub open spec fn bool_ok(y: YamlNode, key: Seq<char>, o: Option<bool>) -> bool {
    match field_of(y, key) {
        None | Some(YamlNode::Null) => o is None,
        Some(YamlNode::Boolean(b)) => o == Some(b),
        _ => false,
    }
}

pub open spec fn bool_bad(y: YamlNode, key: Seq<char>) -> bool {
    match field_of(y, key) {
        None | Some(YamlNode::Null) | Some(YamlNode::Boolean(_)) => false,
        _ => true,
    }
}

pub open spec fn bool_error(y: YamlNode, key: Seq<char>, here: Seq<char>, e: ParseError) -> bool {
    match field_of(y, key) {
        Some(YamlNode::String(_)) => is_field_err(
            e,
            path_text(here, key),
            "expected a boolean, got a quoted string — write `true` or `false` without quotes"@,
        ),
        Some(other) => is_field_err(e, path_text(here, key), type_err_text("a boolean"@, other)),
        None => false,
    }
}

fn read_bool(y: &YamlNode, key: &str, here: &str) -> (r: Result<Option<bool>, ParseError>)
    ensures
        match r {
            Ok(o) => !bool_bad(*y, key@) && bool_ok(*y, key@, o),
            Err(e) => bool_bad(*y, key@) && bool_error(*y, key@, here@, e),
        },
{
    yaml_bool(y, key, here)
}

/// The buffer a `buffer:` field names.
pub open spec fn buffer_of(y: YamlNode) -> Option<Buffer> {
    match field_of(y, "buffer"@) {
        Some(YamlNode::String(s)) => if s@ == "latest"@ {
            Some(Buffer::Latest)
        } else if s@ == "queue"@ {
            Some(Buffer::Queue)
        } else {
            None
        },
        _ => None,
    }
}

pub open spec fn buffer_bad(y: YamlNode) -> bool {
    match field_of(y, "buffer"@) {
        None | Some(YamlNode::Null) => false,
        Some(YamlNode::String(_)) => buffer_of(y) is None,
        _ => true,
    }
}

pub open spec fn buffer_error(y: YamlNode, here: Seq<char>, e: ParseError) -> bool {
    match field_of(y, "buffer"@) {
        Some(YamlNode::String(s)) => is_field_err(
            e,
            path_text(here, "buffer"@),
            "invalid buffer '"@ + s@ + "', expected 'latest' or 'queue'"@,
        ),
        Some(other) => is_field_err(e, path_text(here, "buffer"@), type_err_text("a string"@, other)),
        None => false,
    }
}

/// An endpoint `jitter:` (or `jitter_ms:`) is written.
pub open spec fn has_jitter(y: YamlNode) -> bool {
    field_of(y, "jitter"@) is Some || field_of(y, "jitter_ms"@) is Some
}

/// A buffer is named on an endpoint that is not `state: true`.
pub open spec fn buffer_without_state(y: YamlNode) -> bool {
    buffer_of(y) is Some && field_of(y, "state"@) != Some(YamlNode::Boolean(true))
}

/// An endpoint's properties do not read.
pub open spec fn endpoint_fails(y: YamlNode) -> bool {
    !(y is Null || y is BadValue) && {
        ||| has_jitter(y)
        ||| !accepts_keys(y, Context::Endpoint)
        ||| number_bad(y, "min_rate_hz"@)
        ||| number_bad(y, "max_rate_hz"@)
        ||| duration_read(y, "max_age"@, "max_age_ms"@) is Err
        ||| bool_bad(y, "state"@)
        ||| bool_bad(y, "required"@)
        ||| qos_fails(y)
        ||| duration_read(y, "max_transport"@, "max_transport_ms"@) is Err
        ||| buffer_bad(y)
        ||| buffer_without_state(y)
    }
}

/// The first refusal of an endpoint's properties, in reading order.
pub open spec fn endpoint_error(y: YamlNode, here: Seq<char>, e: ParseError) -> bool {
    if has_jitter(y) {
        is_field_err(e, path_text(here, "jitter"@), JITTER_REMOVED@)
    } else if !accepts_keys(y, Context::Endpoint) {
        key_refused(y, Context::Endpoint, here, e)
    } else if number_bad(y, "min_rate_hz"@) {
        number_error(y, "min_rate_hz"@, here, e)
    } else if number_bad(y, "max_rate_hz"@) {
        number_error(y, "max_rate_hz"@, here, e)
    } else if duration_read(y, "max_age"@, "max_age_ms"@) is Err {
        delivers(Err(e), duration_read(y, "max_age"@, "max_age_ms"@))
    } else if bool_bad(y, "state"@) {
        bool_error(y, "state"@, here, e)
    } else if bool_bad(y, "required"@) {
        bool_error(y, "required"@, here, e)
    } else if qos_fails(y) {
        qos_error(y, here, e)
    } else if duration_read(y, "max_transport"@, "max_transport_ms"@) is Err {
        delivers(Err(e), duration_read(y, "max_transport"@, "max_transport_ms"@))
    } else if buffer_bad(y) {
        buffer_error(y, here, e)
    } else {
        is_field_err(e, path_text(here, "buffer"@), BUFFER_NEEDS_STATE@)
    }
}

/// `d` is what an endpoint's properties read as.
pub open spec fn endpoint_reads(y: YamlNode, d: EndpointDecl) -> bool {
    if y is Null || y is BadValue {
        d.min_rate_hz is None && d.max_rate_hz is None && d.max_age is None && d.state is None
            && d.required is None && d.qos is None && d.max_transport is None && d.buffer is None
    } else {
        &&& number_ok(y, "min_rate_hz"@, d.min_rate_hz)
        &&& number_ok(y, "max_rate_hz"@, d.max_rate_hz)
        &&& delivers(Ok(d.max_age), duration_read(y, "max_age"@, "max_age_ms"@))
        &&& bool_ok(y, "state"@, d.state)
        &&& bool_ok(y, "required"@, d.required)
        &&& qos_reads(y, d.qos)
        &&& delivers(Ok(d.max_transport), duration_read(y, "max_transport"@, "max_transport_ms"@))
        &&& d.buffer == buffer_of(y)
    }
}

/// An endpoint with no properties.
pub fn no_properties() -> (d: EndpointDecl)
    ensures
        d.min_rate_hz is None && d.max_rate_hz is None && d.max_age is None && d.state is None
            && d.required is None && d.qos is None && d.max_transport is None && d.buffer is None,
{
    EndpointDecl {
        min_rate_hz: None,
        max_rate_hz: None,
        max_age: None,
        state: None,
        required: None,
        qos: None,
        max_transport: None,
        buffer: None,
    }
}

/// Read an endpoint's properties under `here`: refuse `jitter:` and
/// unknown keys; read the rates, `max_age`, `state`, `required`, QoS,
/// `max_transport` and `buffer`; refuse a buffer without `state: true`.
pub fn read_endpoint(y: &YamlNode, here: &str) -> (r: Result<EndpointDecl, ParseError>)
    requires
        all_measurable(*y),
    ensures
        match r {
            Ok(d) => !endpoint_fails(*y) && endpoint_reads(*y, d),
            Err(e) => endpoint_fails(*y) && endpoint_error(*y, here@, e),
        },
{
    match y {
        YamlNode::Null | YamlNode::BadValue => {
            return Ok(no_properties());
        },
        _ => {},
    }
    if field(y, "jitter").is_some() || field(y, "jitter_ms").is_some() {
        return Err(field_err(here, "jitter", JITTER_REMOVED));
    }
    assert(keys_measurable(*y));
    let checked = reject_unknown_keys(y, here, Context::Endpoint);
    proof {
        lemma_keys_checked(*y, here@, Context::Endpoint, checked);
    }
    if let Err(e) = checked {
        return Err(e);
    }
    let min_rate_hz = match read_number(y, "min_rate_hz", here) {
        Ok(x) => x,
        Err(e) => {
            return Err(e);
        },
    };
    let max_rate_hz = match read_number(y, "max_rate_hz", here) {
        Ok(x) => x,
        Err(e) => {
            return Err(e);
        },
    };
    let max_age = match yaml_duration(y, "max_age", "max_age_ms") {
        Ok(x) => x,
        Err(e) => {
            return Err(e);
        },
    };
    let state = match read_bool(y, "state", here) {
        Ok(x) => x,
        Err(e) => {
            return Err(e);
        },
    };
    let required = match read_bool(y, "required", here) {
        Ok(x) => x,
        Err(e) => {
            return Err(e);
        },
    };
    let qos = match read_qos(y, here) {
        Ok(x) => x,
        Err(e) => {
            return Err(e);
        },
    };
    let max_transport = match yaml_duration(y, "max_transport", "max_transport_ms") {
        Ok(x) => x,
        Err(e) => {
            return Err(e);
        },
    };
    let buffer = match parse_buffer(y, here) {
        Ok(x) => x,
        Err(e) => {
            return Err(e);
        },
    };
    if buffer.is_some() {
        let stateful = match state {
            Some(true) => true,
            _ => false,
        };
        if !stateful {
            return Err(field_err(here, "buffer", BUFFER_NEEDS_STATE));
        }
    }
    Ok(EndpointDecl { min_rate_hz, max_rate_hz, max_age, state, required, qos, max_transport, buffer })
}


// ── A section of endpoints ──

/// An endpoint with no properties declared.
pub open spec fn bare(d: EndpointDecl) -> bool {
    d.min_rate_hz is None && d.max_rate_hz is None && d.max_age is None && d.state is None
        && d.required is None && d.qos is None && d.max_transport is None && d.buffer is None
}

pub open spec fn endpoint_entry_reads() -> spec_fn((YamlNode, YamlNode), EndpointDecl) -> bool {
    |en: (YamlNode, YamlNode), d: EndpointDecl| endpoint_reads(en.1, d)
}

pub open spec fn endpoint_entry_fails() -> spec_fn((YamlNode, YamlNode)) -> bool {
    |en: (YamlNode, YamlNode)| endpoint_fails(en.1)
}

pub open spec fn endpoint_entry_error(ctx: Seq<char>, key: Seq<char>) -> spec_fn((YamlNode, YamlNode), ParseError) -> bool {
    |en: (YamlNode, YamlNode), e: ParseError| endpoint_error(en.1, entry_ctx(ctx, key, en), e)
}

/// `out` holds one entry per name of the list, by name ascending.
pub open spec fn list_names<T>(arr: Seq<YamlNode>, out: Seq<(String, T)>) -> bool {
    &&& names_ascending(out)
    &&& forall|n: Seq<char>|
        #[trigger] has_key(out, n) <==> exists|i: int| 0 <= i < arr.len() && scalar_text(#[trigger] arr[i]) == n
}

/// What the endpoint section `key` of a node reads as: a list of names,
/// each with no properties, or a mapping of names to properties, by name
/// ascending.
pub open spec fn endpoints_read(v: YamlNode, key: Seq<char>, out: Seq<(String, EndpointDecl)>) -> bool {
    match field_of(v, key) {
        None => out.len() == 0,
        Some(YamlNode::Array(arr)) => list_names(arr@, out) && forall|k: int| 0 <= k < out.len() ==> bare(
            (#[trigger] out[k]).1,
        ),
        Some(YamlNode::Hash(es)) => table_reads(es@, out, endpoint_entry_reads()),
        _ => false,
    }
}

pub open spec fn endpoints_fail(v: YamlNode, key: Seq<char>) -> bool {
    match field_of(v, key) {
        None | Some(YamlNode::Array(_)) => false,
        Some(YamlNode::Hash(es)) => table_fails(es@, endpoint_entry_fails()),
        _ => true,
    }
}

pub open spec fn endpoints_error(v: YamlNode, key: Seq<char>, ctx: Seq<char>, e: ParseError) -> bool {
    match field_of(v, key) {
        Some(YamlNode::Hash(es)) => table_error(es@, endpoint_entry_fails(), endpoint_entry_error(ctx, key), e),
        Some(_) => is_field_err(e, path_text(ctx, key), "expected list or mapping"@),
        None => false,
    }
}

/// The endpoint section `key` of node `v`, under `ctx`.
pub fn read_endpoints(v: &YamlNode, key: &str, ctx: &str) -> (r: Result<Vec<(String, EndpointDecl)>, ParseError>)
    requires
        all_measurable(*v),
    ensures
        match r {
            Ok(out) => !endpoints_fail(*v, key@) && endpoints_read(*v, key@, out@),
            Err(e) => endpoints_fail(*v, key@) && endpoints_error(*v, key@, ctx@, e),
        },
{
    proof {
        lemma_field_measurable(*v, key@);
    }
    match field(v, key) {
        None => Ok(Vec::new()),
        Some(YamlNode::Array(arr)) => {
            let mut out: Vec<(String, EndpointDecl)> = Vec::new();
            let mut i: usize = 0;
            while i < arr.len()
                invariant
                    i <= arr@.len(),
                    names_ascending(out@),
                    forall|n: Seq<char>| #[trigger] has_key(out@, n) <==> exists|j: int|
                        0 <= j < i && scalar_text(#[trigger] arr@[j]) == n,
                    forall|k: int| 0 <= k < out@.len() ==> bare((#[trigger] out@[k]).1),
                decreases arr@.len() - i,
            {
                let ghost before = out@;
                let name = yaml_str_owned(&arr[i]);
                put_entry(&mut out, name, no_properties());
                proof {
                    assert forall|n: Seq<char>| #[trigger] has_key(out@, n) <==> exists|j: int|
                        0 <= j < i + 1 && scalar_text(#[trigger] arr@[j]) == n by {
                        if has_key(before, n) {
                            let j = choose|j: int| 0 <= j < i && scalar_text(#[trigger] arr@[j]) == n;
                            assert(0 <= j < i + 1 && scalar_text(arr@[j]) == n);
                        }
                        if n == scalar_text(arr@[i as int]) {
                            assert(scalar_text(arr@[i as int]) == n);
                        }
                        if exists|j: int| 0 <= j < i + 1 && scalar_text(#[trigger] arr@[j]) == n {
                            let j = choose|j: int| 0 <= j < i + 1 && scalar_text(#[trigger] arr@[j]) == n;
                            if j < i {
                                assert(has_key(before, n));
                            }
                        }
                    }
                    assert forall|k: int| 0 <= k < out@.len() implies bare((#[trigger] out@[k]).1) by {
                        if out@[k].0@ != scalar_text(arr@[i as int]) {
                            let j = choose|j: int| 0 <= j < before.len() && before[j] == out@[k];
                            assert(bare(before[j].1));
                        }
                    }
                }
                i += 1;
            }
            Ok(out)
        },
        Some(YamlNode::Hash(entries)) => {
            let ghost reads = endpoint_entry_reads();
            let ghost fails = endpoint_entry_fails();
            let ghost error = endpoint_entry_error(ctx@, key@);
            let mut out: Vec<(String, EndpointDecl)> = Vec::new();
            proof {
                lemma_table_start(entries@, reads);
            }
            let mut i: usize = 0;
            while i < entries.len()
                invariant
                    i <= entries@.len(),
                    field_of(*v, key@) == Some(YamlNode::Hash(*entries)),
                    forall|k: int| 0 <= k < entries@.len() ==> all_measurable(#[trigger] entries@[k].1),
                    reads == endpoint_entry_reads(),
                    fails == endpoint_entry_fails(),
                    error == endpoint_entry_error(ctx@, key@),
                    table_reads(entries@.take(i as int), out@, reads),
                    forall|j: int| 0 <= j < i ==> !fails(#[trigger] entries@[j]),
                decreases entries@.len() - i,
            {
                let (name, here) = crate::manifest_read::entry_here(ctx, key, &entries[i].0);
                proof {
                    assert(all_measurable(entries@[i as int].1));
                    assert(here@ == entry_ctx(ctx@, key@, entries@[i as int]));
                }
                match read_endpoint(&entries[i].1, here.as_str()) {
                    Ok(d) => {
                        let ghost dv = d;
                        let ghost before = out@;
                        put_entry(&mut out, name, d);
                        proof {
                            assert(reads(entries@[i as int], dv));
                            lemma_table_step(entries@, i as int, before, out@, entry_name(entries@[i as int]), dv, reads);
                        }
                    },
                    Err(e) => {
                        proof {
                            lemma_table_fail(entries@, i as int, fails, error, e);
                        }
                        return Err(e);
                    },
                }
                i += 1;
            }
            proof {
                lemma_table_done(entries@, out@, reads, fails);
            }
            Ok(out)
        },
        Some(_) => Err(field_err(ctx, key, "expected list or mapping")),
    }
}


// ── Service servers ──

/// `d` is what a service server's properties read as.
pub open spec fn srv_reads(y: YamlNode, d: SrvEndpointDecl) -> bool {
    if y is Null || y is BadValue {
        d.max_response is None
    } else {
        delivers(Ok(d.max_response), duration_read(y, "max_response"@, "max_response_ms"@))
    }
}

pub open spec fn srv_fails(y: YamlNode) -> bool {
    ||| !accepts_keys(y, Context::SrvEndpoint)
    ||| (!(y is Null || y is BadValue) && duration_read(y, "max_response"@, "max_response_ms"@) is Err)
}

/// A server entry's keys are checked against the node's own context.
pub open spec fn srv_error(y: YamlNode, ctx: Seq<char>, e: ParseError) -> bool {
    if !accepts_keys(y, Context::SrvEndpoint) {
        key_refused(y, Context::SrvEndpoint, ctx, e)
    } else {
        delivers(Err(e), duration_read(y, "max_response"@, "max_response_ms"@))
    }
}

pub open spec fn srv_entry_reads() -> spec_fn((YamlNode, YamlNode), SrvEndpointDecl) -> bool {
    |en: (YamlNode, YamlNode), d: SrvEndpointDecl| srv_reads(en.1, d)
}

pub open spec fn srv_entry_fails() -> spec_fn((YamlNode, YamlNode)) -> bool {
    |en: (YamlNode, YamlNode)| srv_fails(en.1)
}

pub open spec fn srv_entry_error(ctx: Seq<char>) -> spec_fn((YamlNode, YamlNode), ParseError) -> bool {
    |en: (YamlNode, YamlNode), e: ParseError| srv_error(en.1, ctx, e)
}

/// What the `srv:` section of a node reads as.
pub open spec fn servers_read(v: YamlNode, out: Seq<(String, SrvEndpointDecl)>) -> bool {
    match field_of(v, "srv"@) {
        None => out.len() == 0,
        Some(YamlNode::Array(arr)) => list_names(arr@, out) && forall|k: int|
            0 <= k < out.len() ==> (#[trigger] out[k]).1.max_response is None,
        Some(YamlNode::Hash(es)) => table_reads(es@, out, srv_entry_reads()),
        _ => false,
    }
}

pub open spec fn servers_fail(v: YamlNode) -> bool {
    match field_of(v, "srv"@) {
        None | Some(YamlNode::Array(_)) => false,
        Some(YamlNode::Hash(es)) => table_fails(es@, srv_entry_fails()),
        _ => true,
    }
}

pub open spec fn servers_error(v: YamlNode, ctx: Seq<char>, e: ParseError) -> bool {
    match field_of(v, "srv"@) {
        Some(YamlNode::Hash(es)) => table_error(es@, srv_entry_fails(), srv_entry_error(ctx), e),
        Some(_) => is_field_err(e, path_text(ctx, "srv"@), "expected list or mapping"@),
        None => false,
    }
}

fn read_server(y: &YamlNode, ctx: &str) -> (r: Result<SrvEndpointDecl, ParseError>)
    requires
        all_measurable(*y),
    ensures
        match r {
            Ok(d) => !srv_fails(*y) && srv_reads(*y, d),
            Err(e) => srv_fails(*y) && srv_error(*y, ctx@, e),
        },
{
    assert(keys_measurable(*y));
    let checked = reject_unknown_keys(y, ctx, Context::SrvEndpoint);
    proof {
        lemma_keys_checked(*y, ctx@, Context::SrvEndpoint, checked);
    }
    if let Err(e) = checked {
        return Err(e);
    }
    match y {
        YamlNode::Null | YamlNode::BadValue => Ok(SrvEndpointDecl { max_response: None }),
        _ => match yaml_duration(y, "max_response", "max_response_ms") {
            Ok(max_response) => Ok(SrvEndpointDecl { max_response }),
            Err(e) => Err(e),
        },
    }
}

/// The `srv:` section of node `v`, under `ctx`.
pub fn read_servers(v: &YamlNode, ctx: &str) -> (r: Result<Vec<(String, SrvEndpointDecl)>, ParseError>)
    requires
        all_measurable(*v),
    ensures
        match r {
            Ok(out) => !servers_fail(*v) && servers_read(*v, out@),
            Err(e) => servers_fail(*v) && servers_error(*v, ctx@, e),
        },
{
    proof {
        lemma_field_measurable(*v, "srv"@);
    }
    match field(v, "srv") {
        None => Ok(Vec::new()),
        Some(YamlNode::Array(arr)) => {
            let mut out: Vec<(String, SrvEndpointDecl)> = Vec::new();
            let mut i: usize = 0;
            while i < arr.len()
                invariant
                    i <= arr@.len(),
                    names_ascending(out@),
                    forall|n: Seq<char>| #[trigger] has_key(out@, n) <==> exists|j: int|
                        0 <= j < i && scalar_text(#[trigger] arr@[j]) == n,
                    forall|k: int| 0 <= k < out@.len() ==> (#[trigger] out@[k]).1.max_response is None,
                decreases arr@.len() - i,
            {
                let ghost before = out@;
                let name = yaml_str_owned(&arr[i]);
                put_entry(&mut out, name, SrvEndpointDecl { max_response: None });
                proof {
                    assert forall|n: Seq<char>| #[trigger] has_key(out@, n) <==> exists|j: int|
                        0 <= j < i + 1 && scalar_text(#[trigger] arr@[j]) == n by {
                        if has_key(before, n) {
                            let j = choose|j: int| 0 <= j < i && scalar_text(#[trigger] arr@[j]) == n;
                            assert(0 <= j < i + 1 && scalar_text(arr@[j]) == n);
                        }
                        if n == scalar_text(arr@[i as int]) {
                            assert(scalar_text(arr@[i as int]) == n);
                        }
                        if exists|j: int| 0 <= j < i + 1 && scalar_text(#[trigger] arr@[j]) == n {
                            let j = choose|j: int| 0 <= j < i + 1 && scalar_text(#[trigger] arr@[j]) == n;
                            if j < i {
                                assert(has_key(before, n));
                            }
                        }
                    }
                    assert forall|k: int| 0 <= k < out@.len() implies (#[trigger] out@[k]).1.max_response is None by {
                        if out@[k].0@ != scalar_text(arr@[i as int]) {
                            let j = choose|j: int| 0 <= j < before.len() && before[j] == out@[k];
                            assert(before[j].1.max_response is None);
                        }
                    }
                }
                i += 1;
            }
            Ok(out)
        },
        Some(YamlNode::Hash(entries)) => {
            let ghost reads = srv_entry_reads();
            let ghost fails = srv_entry_fails();
            let ghost error = srv_entry_error(ctx@);
            let mut out: Vec<(String, SrvEndpointDecl)> = Vec::new();
            proof {
                lemma_table_start(entries@, reads);
            }
            let mut i: usize = 0;
            while i < entries.len()
                invariant
                    i <= entries@.len(),
                    field_of(*v, "srv"@) == Some(YamlNode::Hash(*entries)),
                    forall|k: int| 0 <= k < entries@.len() ==> all_measurable(#[trigger] entries@[k].1),
                    reads == srv_entry_reads(),
                    fails == srv_entry_fails(),
                    error == srv_entry_error(ctx@),
                    table_reads(entries@.take(i as int), out@, reads),
                    forall|j: int| 0 <= j < i ==> !fails(#[trigger] entries@[j]),
                decreases entries@.len() - i,
            {
                let name = yaml_str_owned(&entries[i].0);
                proof {
                    assert(all_measurable(entries@[i as int].1));
                }
                match read_server(&entries[i].1, ctx) {
                    Ok(d) => {
                        let ghost dv = d;
                        let ghost before = out@;
                        put_entry(&mut out, name, d);
                        proof {
                            assert(reads(entries@[i as int], dv));
                            lemma_table_step(entries@, i as int, before, out@, entry_name(entries@[i as int]), dv, reads);
                        }
                    },
                    Err(e) => {
                        proof {
                            lemma_table_fail(entries@, i as int, fails, error, e);
                        }
                        return Err(e);
                    },
                }
                i += 1;
            }
            proof {
                lemma_table_done(entries@, out@, reads, fails);
            }
            Ok(out)
        },
        Some(_) => Err(field_err(ctx, "srv", "expected list or mapping")),
    }
}


// ── The node ──

/// What a node declares besides its conditions and paths.
#[derive(Debug, Clone)]
pub struct NodeEndpoints {
    pub lifecycle: Option<bool>,
    pub publishers: Vec<(String, EndpointDecl)>,
    pub subscribers: Vec<(String, EndpointDecl)>,
    pub srv: Vec<(String, SrvEndpointDecl)>,
    pub cli: Vec<(String, EndpointDecl)>,
    pub criticality: Option<String>,
    pub concurrency: Option<ConcurrencyDecl>,
}

/// A node that declares nothing besides conditions and paths.
pub open spec fn no_endpoints(x: NodeEndpoints) -> bool {
    x.lifecycle is None && x.publishers@.len() == 0 && x.subscribers@.len() == 0 && x.srv@.len() == 0
        && x.cli@.len() == 0 && x.criticality is None && x.concurrency is None
}

impl NodeEndpoints {
    /// No endpoints, no flags.
    pub fn none() -> (r: Self)
        ensures
            no_endpoints(r),
    {
        NodeEndpoints {
            lifecycle: None,
            publishers: Vec::new(),
            subscribers: Vec::new(),
            srv: Vec::new(),
            cli: Vec::new(),
            criticality: None,
            concurrency: None,
        }
    }
}

/// `o` is what the `concurrency:` block reads as.
pub open spec fn concurrency_reads(v: YamlNode, o: Option<ConcurrencyDecl>) -> bool {
    match field_of(v, "concurrency"@) {
        None => o is None,
        Some(sec) => accepts_keys(sec, Context::Concurrency) && (o matches Some(c) && match field_of(
            sec,
            "exclusive"@,
        ) {
            Some(YamlNode::Array(groups)) => first_non_list(groups@) is None && groups_read(groups@, c),
            _ => c.exclusive@.len() == 0,
        }),
    }
}

pub open spec fn concurrency_fails(v: YamlNode) -> bool {
    field_of(v, "concurrency"@) matches Some(sec) && (!accepts_keys(sec, Context::Concurrency) || (field_of(
        sec,
        "exclusive"@,
    ) matches Some(YamlNode::Array(groups)) && first_non_list(groups@) is Some))
}

pub open spec fn concurrency_error(v: YamlNode, ctx: Seq<char>, e: ParseError) -> bool {
    match field_of(v, "concurrency"@) {
        Some(sec) => if !accepts_keys(sec, Context::Concurrency) {
            key_refused(sec, Context::Concurrency, ctx, e)
        } else {
            field_of(sec, "exclusive"@) matches Some(YamlNode::Array(groups)) && (first_non_list(groups@) matches Some(
                i,
            ) && is_field_err(
                e,
                path_text(ctx, group_field(i as nat)),
                "expected a list of path names, e.g. `- [to_boxes, to_masks]`"@,
            ))
        },
        None => false,
    }
}

/// Section `key` of node `v` names the endpoint `n`.
pub open spec fn section_names(v: YamlNode, key: Seq<char>, n: Seq<char>) -> bool {
    match field_of(v, key) {
        Some(YamlNode::Array(arr)) => exists|i: int| 0 <= i < arr@.len() && scalar_text(#[trigger] arr@[i]) == n,
        Some(YamlNode::Hash(es)) => crate::manifest_read::names_entry(es@, n),
        _ => false,
    }
}

/// The name `n` is used by two of the node's endpoint sections.
#[verifier::opaque]
pub open spec fn named_twice(v: YamlNode, n: Seq<char>) -> bool {
    let p = section_names(v, "pub"@, n);
    let s = section_names(v, "sub"@, n);
    let r = section_names(v, "srv"@, n);
    let c = section_names(v, "cli"@, n);
    (p && s) || (p && r) || (p && c) || (s && r) || (s && c) || (r && c)
}

/// Some endpoint name is used by two sections.
pub open spec fn endpoint_names_clash(v: YamlNode) -> bool {
    exists|n: Seq<char>| #[trigger] named_twice(v, n)
}

/// The names of a table.
fn table_names<T>(t: &Vec<(String, T)>) -> (r: Vec<String>)
    ensures
        string_views(r@) == t@.map_values(|x: (String, T)| x.0@),
{
    let mut r: Vec<String> = Vec::new();
    let mut i: usize = 0;
    while i < t.len()
        invariant
            i <= t@.len(),
            r@.len() == i,
            forall|j: int| 0 <= j < i ==> (#[trigger] r@[j])@ == t@[j].0@,
        decreases t@.len() - i,
    {
        r.push(crate::text::owned(t[i].0.as_str()));
        i += 1;
    }
    assert(string_views(r@) =~= t@.map_values(|x: (String, T)| x.0@));
    r
}

/// No name occurs twice.
pub open spec fn distinct(s: Seq<Seq<char>>) -> bool {
    forall|i: int, j: int| 0 <= i < j < s.len() ==> #[trigger] s[i] != #[trigger] s[j]
}

/// A repeat at `j` means a first repeat at or before `j`.
proof fn lemma_least_repeat(s: Seq<Seq<char>>, j: int)
    requires
        0 <= j < s.len(),
        s.take(j).contains(s[j]),
    ensures
        exists|m: int| 0 <= m < s.len() && s.take(m).contains(#[trigger] s[m]) && forall|k: int|
            0 <= k < m ==> !s.take(k).contains(#[trigger] s[k]),
    decreases j,
{
    if exists|k: int| 0 <= k < j && s.take(k).contains(#[trigger] s[k]) {
        let k = choose|k: int| 0 <= k < j && s.take(k).contains(#[trigger] s[k]);
        lemma_least_repeat(s, k);
    } else {
        assert(0 <= j < s.len() && s.take(j).contains(s[j]) && forall|k: int|
            0 <= k < j ==> !s.take(k).contains(#[trigger] s[k]));
    }
}

/// Some name occurs again later.
pub open spec fn has_repeat(s: Seq<Seq<char>>) -> bool {
    exists|j: int| 0 <= j < s.len() && s.take(j).contains(#[trigger] s[j])
}

proof fn lemma_first_repeat(s: Seq<Seq<char>>)
    ensures
        first_repeat(s) is Some <==> has_repeat(s),
        first_repeat(s) matches Some(j) ==> 0 <= j < s.len() && s.take(j).contains(s[j]),
{
    reveal(first_repeat);
    if has_repeat(s) {
        let j = choose|j: int| 0 <= j < s.len() && s.take(j).contains(#[trigger] s[j]);
        lemma_least_repeat(s, j);
    }
}

proof fn lemma_repeat_distinct(s: Seq<Seq<char>>)
    ensures
        first_repeat(s) is None <==> distinct(s),
        first_repeat(s) matches Some(j) ==> 0 <= j < s.len() && s.take(j).contains(s[j]),
{
    lemma_first_repeat(s);
    if !distinct(s) {
        let (i, j) = choose|i: int, j: int| 0 <= i < j < s.len() && #[trigger] s[i] == #[trigger] s[j];
        assert(s.take(j)[i] == s[j]);
        assert(s.take(j).contains(s[j]));
    }
    if has_repeat(s) {
        let j = choose|j: int| 0 <= j < s.len() && s.take(j).contains(#[trigger] s[j]);
        let i = choose|i: int| 0 <= i < s.take(j).len() && s.take(j)[i] == s[j];
        assert(s[i] == s[j]);
    }
}

proof fn lemma_distinct_concat(a: Seq<Seq<char>>, b: Seq<Seq<char>>)
    ensures
        distinct(a + b) <==> distinct(a) && distinct(b) && forall|x: Seq<char>| !(a.contains(x) && b.contains(x)),
{
    let c = a + b;
    if distinct(c) {
        assert forall|i: int, j: int| 0 <= i < j < a.len() implies #[trigger] a[i] != #[trigger] a[j] by {
            assert(c[i] == a[i] && c[j] == a[j]);
        }
        assert forall|i: int, j: int| 0 <= i < j < b.len() implies #[trigger] b[i] != #[trigger] b[j] by {
            assert(c[a.len() + i] == b[i] && c[a.len() + j] == b[j]);
        }
        assert forall|x: Seq<char>| !(a.contains(x) && b.contains(x)) by {
            if a.contains(x) && b.contains(x) {
                let i = choose|i: int| 0 <= i < a.len() && a[i] == x;
                let j = choose|j: int| 0 <= j < b.len() && b[j] == x;
                assert(c[i] == x && c[a.len() + j] == x);
            }
        }
    }
    if distinct(a) && distinct(b) && forall|x: Seq<char>| !(a.contains(x) && b.contains(x)) {
        assert forall|i: int, j: int| 0 <= i < j < c.len() implies #[trigger] c[i] != #[trigger] c[j] by {
            if j < a.len() {
                assert(c[i] == a[i] && c[j] == a[j]);
            } else if i >= a.len() {
                assert(c[i] == b[i - a.len()] && c[j] == b[j - a.len()]);
            } else {
                assert(c[i] == a[i] && c[j] == b[j - a.len()]);
                if c[i] == c[j] {
                    assert(a.contains(c[i]) && b.contains(c[i]));
                }
            }
        }
    }
}

proof fn lemma_ascending_distinct<T>(t: Seq<(String, T)>)
    requires
        names_ascending(t),
    ensures
        distinct(t.map_values(|x: (String, T)| x.0@)),
{
    let s = t.map_values(|x: (String, T)| x.0@);
    assert forall|i: int, j: int| 0 <= i < j < s.len() implies #[trigger] s[i] != #[trigger] s[j] by {
        assert(crate::order::seq_lt(t[i].0@, t[j].0@));
        crate::order::lemma_lt_irreflexive(t[i].0@);
    }
}

proof fn lemma_names_contain<T>(t: Seq<(String, T)>, x: Seq<char>)
    ensures
        t.map_values(|y: (String, T)| y.0@).contains(x) <==> has_key(t, x),
{
    let s = t.map_values(|y: (String, T)| y.0@);
    if has_key(t, x) {
        let i = choose|i: int| 0 <= i < t.len() && #[trigger] t[i].0@ == x;
        assert(s[i] == x);
    }
}

/// The four tables hold the names the node's sections name.
#[verifier::opaque]
pub open spec fn tables_name_sections(
    v: YamlNode,
    p: Seq<(String, EndpointDecl)>,
    s: Seq<(String, EndpointDecl)>,
    r: Seq<(String, SrvEndpointDecl)>,
    c: Seq<(String, EndpointDecl)>,
) -> bool {
    &&& names_ascending(p) && names_ascending(s) && names_ascending(r) && names_ascending(c)
    &&& forall|n: Seq<char>| #[trigger] has_key(p, n) <==> section_names(v, "pub"@, n)
    &&& forall|n: Seq<char>| #[trigger] has_key(s, n) <==> section_names(v, "sub"@, n)
    &&& forall|n: Seq<char>| #[trigger] has_key(r, n) <==> section_names(v, "srv"@, n)
    &&& forall|n: Seq<char>| #[trigger] has_key(c, n) <==> section_names(v, "cli"@, n)
}

/// Why two sections using one endpoint name are refused.
pub const NAME_TWICE: &'static str = "duplicate endpoint name across pub/sub/srv/cli";

/// `x` is in two of the four lists.
#[verifier::opaque]
pub open spec fn clash4(a: Seq<Seq<char>>, b: Seq<Seq<char>>, d: Seq<Seq<char>>, f: Seq<Seq<char>>, x: Seq<char>) -> bool {
    ||| a.contains(x) && b.contains(x)
    ||| a.contains(x) && d.contains(x)
    ||| a.contains(x) && f.contains(x)
    ||| b.contains(x) && d.contains(x)
    ||| b.contains(x) && f.contains(x)
    ||| d.contains(x) && f.contains(x)
}

proof fn lemma_contains_concat(a: Seq<Seq<char>>, b: Seq<Seq<char>>)
    ensures
        forall|x: Seq<char>| #[trigger] (a + b).contains(x) <==> a.contains(x) || b.contains(x),
{
    assert forall|x: Seq<char>| #[trigger] (a + b).contains(x) <==> a.contains(x) || b.contains(x) by {
        if (a + b).contains(x) {
            let q = choose|q: int| 0 <= q < (a + b).len() && (a + b)[q] == x;
            if q >= a.len() {
                assert(b[q - a.len()] == x);
            } else {
                assert(a[q] == x);
            }
        }
        if a.contains(x) {
            let q = choose|q: int| 0 <= q < a.len() && a[q] == x;
            assert((a + b)[q] == x);
        }
        if b.contains(x) {
            let q = choose|q: int| 0 <= q < b.len() && b[q] == x;
            assert((a + b)[a.len() + q] == x);
        }
    }
}

proof fn lemma_clash_none(a: Seq<Seq<char>>, b: Seq<Seq<char>>, d: Seq<Seq<char>>, f: Seq<Seq<char>>)
    requires
        distinct(a),
        distinct(b),
        distinct(d),
        distinct(f),
    ensures
        distinct(a + b + d + f) <==> forall|x: Seq<char>| !#[trigger] clash4(a, b, d, f, x),
{
    reveal(clash4);
    lemma_distinct_concat(a, b);
    lemma_distinct_concat(a + b, d);
    lemma_distinct_concat(a + b + d, f);
    lemma_contains_concat(a, b);
    lemma_contains_concat(a + b, d);
    if distinct(a + b + d + f) {
        assert forall|x: Seq<char>| !#[trigger] clash4(a, b, d, f, x) by {
            assert((a + b).contains(x) == (a.contains(x) || b.contains(x)));
            assert((a + b + d).contains(x) == ((a + b).contains(x) || d.contains(x)));
        }
    }
    if forall|x: Seq<char>| !#[trigger] clash4(a, b, d, f, x) {
        assert forall|x: Seq<char>| !((a + b).contains(x) && d.contains(x)) by {
            assert(!clash4(a, b, d, f, x));
        }
        assert forall|x: Seq<char>| !((a + b + d).contains(x) && f.contains(x)) by {
            assert(!clash4(a, b, d, f, x));
            assert((a + b + d).contains(x) == ((a + b).contains(x) || d.contains(x)));
        }
        assert forall|x: Seq<char>| !(a.contains(x) && b.contains(x)) by {
            assert(!clash4(a, b, d, f, x));
        }
    }
}

#[verifier::rlimit(30)]
proof fn lemma_clash_at(a: Seq<Seq<char>>, b: Seq<Seq<char>>, d: Seq<Seq<char>>, f: Seq<Seq<char>>, i: int, j: int)
    requires
        distinct(a),
        distinct(b),
        distinct(d),
        distinct(f),
        0 <= i < j < (a + b + d + f).len(),
        (a + b + d + f)[i] == (a + b + d + f)[j],
    ensures
        clash4(a, b, d, f, (a + b + d + f)[j]),
{
    reveal(clash4);
    let all = a + b + d + f;
    let n = all[j];
    let la = a.len() as int;
    let lb = b.len() as int;
    let ld = d.len() as int;
    if j < la {
        assert(a[i] == a[j]);
    } else if j < la + lb {
        assert(b[j - la] == n);
        if i < la {
            assert(a[i] == n);
        } else {
            assert(b[i - la] == n);
        }
    } else if j < la + lb + ld {
        assert(d[j - la - lb] == n);
        if i < la {
            assert(a[i] == n);
        } else if i < la + lb {
            assert(b[i - la] == n);
        } else {
            assert(d[i - la - lb] == n);
        }
    } else {
        assert(f[j - la - lb - ld] == n);
        if i < la {
            assert(a[i] == n);
        } else if i < la + lb {
            assert(b[i - la] == n);
        } else if i < la + lb + ld {
            assert(d[i - la - lb] == n);
        } else {
            assert(f[i - la - lb - ld] == n);
        }
    }
}

proof fn lemma_named_twice(
    v: YamlNode,
    p: Seq<(String, EndpointDecl)>,
    s: Seq<(String, EndpointDecl)>,
    r: Seq<(String, SrvEndpointDecl)>,
    c: Seq<(String, EndpointDecl)>,
    x: Seq<char>,
)
    requires
        tables_name_sections(v, p, s, r, c),
    ensures
        named_twice(v, x) <==> clash4(
            p.map_values(|y: (String, EndpointDecl)| y.0@),
            s.map_values(|y: (String, EndpointDecl)| y.0@),
            r.map_values(|y: (String, SrvEndpointDecl)| y.0@),
            c.map_values(|y: (String, EndpointDecl)| y.0@),
            x,
        ),
{
    reveal(clash4);
    reveal(named_twice);
    reveal(tables_name_sections);
    lemma_names_contain(p, x);
    lemma_names_contain(s, x);
    lemma_names_contain(r, x);
    lemma_names_contain(c, x);
    assert(has_key(p, x) == section_names(v, "pub"@, x));
    assert(has_key(s, x) == section_names(v, "sub"@, x));
    assert(has_key(r, x) == section_names(v, "srv"@, x));
    assert(has_key(c, x) == section_names(v, "cli"@, x));
}

/// The four tables' names, in order.
pub open spec fn all_names(
    p: Seq<(String, EndpointDecl)>,
    s: Seq<(String, EndpointDecl)>,
    r: Seq<(String, SrvEndpointDecl)>,
    c: Seq<(String, EndpointDecl)>,
) -> Seq<Seq<char>> {
    p.map_values(|y: (String, EndpointDecl)| y.0@) + s.map_values(|y: (String, EndpointDecl)| y.0@)
        + r.map_values(|y: (String, SrvEndpointDecl)| y.0@) + c.map_values(|y: (String, EndpointDecl)| y.0@)
}

proof fn lemma_repeat_named(
    v: YamlNode,
    p: Seq<(String, EndpointDecl)>,
    s: Seq<(String, EndpointDecl)>,
    r: Seq<(String, SrvEndpointDecl)>,
    c: Seq<(String, EndpointDecl)>,
    j: int,
)
    requires
        tables_name_sections(v, p, s, r, c),
        names_ascending(p),
        names_ascending(s),
        names_ascending(r),
        names_ascending(c),
        0 <= j < all_names(p, s, r, c).len(),
        all_names(p, s, r, c).take(j).contains(all_names(p, s, r, c)[j]),
    ensures
        named_twice(v, all_names(p, s, r, c)[j]),
{
    let a = p.map_values(|x: (String, EndpointDecl)| x.0@);
    let b = s.map_values(|x: (String, EndpointDecl)| x.0@);
    let d = r.map_values(|x: (String, SrvEndpointDecl)| x.0@);
    let f = c.map_values(|x: (String, EndpointDecl)| x.0@);
    let all = a + b + d + f;
    assert(all == all_names(p, s, r, c));
    lemma_ascending_distinct(p);
    lemma_ascending_distinct(s);
    lemma_ascending_distinct(r);
    lemma_ascending_distinct(c);
    let n = all[j];
    let i = choose|i: int| 0 <= i < all.take(j).len() && all.take(j)[i] == n;
    assert(all[i] == n);
    lemma_clash_at(a, b, d, f, i, j);
    lemma_named_twice(v, p, s, r, c, n);
}

proof fn lemma_distinct_named(
    v: YamlNode,
    p: Seq<(String, EndpointDecl)>,
    s: Seq<(String, EndpointDecl)>,
    r: Seq<(String, SrvEndpointDecl)>,
    c: Seq<(String, EndpointDecl)>,
)
    requires
        tables_name_sections(v, p, s, r, c),
        names_ascending(p),
        names_ascending(s),
        names_ascending(r),
        names_ascending(c),
    ensures
        distinct(all_names(p, s, r, c)) <==> !endpoint_names_clash(v),
{
    let a = p.map_values(|x: (String, EndpointDecl)| x.0@);
    let b = s.map_values(|x: (String, EndpointDecl)| x.0@);
    let d = r.map_values(|x: (String, SrvEndpointDecl)| x.0@);
    let f = c.map_values(|x: (String, EndpointDecl)| x.0@);
    assert(a + b + d + f == all_names(p, s, r, c));
    lemma_ascending_distinct(p);
    lemma_ascending_distinct(s);
    lemma_ascending_distinct(r);
    lemma_ascending_distinct(c);
    lemma_clash_none(a, b, d, f);
    if endpoint_names_clash(v) {
        let x = choose|x: Seq<char>| #[trigger] named_twice(v, x);
        lemma_named_twice(v, p, s, r, c, x);
    }
    if !distinct(a + b + d + f) {
        let x = choose|x: Seq<char>| #[trigger] clash4(a, b, d, f, x);
        lemma_named_twice(v, p, s, r, c, x);
    }
}

proof fn lemma_views_concat(x: Seq<String>, y: Seq<String>)
    ensures
        string_views(x + y) == string_views(x) + string_views(y),
{
    assert(string_views(x + y) =~= string_views(x) + string_views(y));
}

/// `l` lists the names section `key` of `v` uses, each once, ascending.
pub open spec fn sorted_names(v: YamlNode, key: Seq<char>, l: Seq<Seq<char>>) -> bool {
    &&& forall|i: int, j: int| 0 <= i < j < l.len() ==> crate::order::seq_lt(#[trigger] l[i], #[trigger] l[j])
    &&& forall|n: Seq<char>| #[trigger] l.contains(n) <==> section_names(v, key, n)
}

/// `e` names the first name that recurs when the sections' names are
/// listed, each section sorted: publishers, subscribers, servers, clients.
pub open spec fn first_twice_named(v: YamlNode, here: Seq<char>, e: ParseError) -> bool {
    forall|lp: Seq<Seq<char>>, ls: Seq<Seq<char>>, lr: Seq<Seq<char>>, lc: Seq<Seq<char>>|
        #![trigger sorted_names(v, "pub"@, lp), sorted_names(v, "sub"@, ls), sorted_names(v, "srv"@, lr), sorted_names(v, "cli"@, lc)]
        sorted_names(v, "pub"@, lp) && sorted_names(v, "sub"@, ls) && sorted_names(v, "srv"@, lr)
            && sorted_names(v, "cli"@, lc) ==> (first_repeat(lp + ls + lr + lc) matches Some(j) && is_field_err(
            e,
            path_text(here, (lp + ls + lr + lc)[j]),
            NAME_TWICE@,
        ))
}

/// Two ascending lists of the same names are the same list.
proof fn lemma_sorted_unique(x: Seq<Seq<char>>, y: Seq<Seq<char>>)
    requires
        forall|i: int, j: int| 0 <= i < j < x.len() ==> crate::order::seq_lt(#[trigger] x[i], #[trigger] x[j]),
        forall|i: int, j: int| 0 <= i < j < y.len() ==> crate::order::seq_lt(#[trigger] y[i], #[trigger] y[j]),
        forall|n: Seq<char>| #[trigger] x.contains(n) <==> y.contains(n),
    ensures
        x == y,
    decreases x.len() + y.len(),
{
    if x.len() == 0 {
        if y.len() > 0 {
            assert(y.contains(y[0]));
            assert(x.contains(y[0]) <==> y.contains(y[0]));
        }
        assert(x =~= y);
    } else if y.len() == 0 {
        assert(x.contains(x[0]));
    } else {
        let xl = x.last();
        let yl = y.last();
        assert(x.contains(xl));
        assert(y.contains(yl));
        assert(x.contains(yl) <==> y.contains(yl));
        let j = choose|j: int| 0 <= j < y.len() && y[j] == xl;
        let i = choose|i: int| 0 <= i < x.len() && x[i] == yl;
        if xl != yl {
            assert(j < y.len() - 1);
            assert(crate::order::seq_lt(y[j], y[y.len() - 1]));
            assert(i < x.len() - 1);
            assert(crate::order::seq_lt(x[i], x[x.len() - 1]));
            crate::order::lemma_lt_asymmetric(xl, yl);
        }
        let x2 = x.drop_last();
        let y2 = y.drop_last();
        assert forall|n: Seq<char>| #[trigger] x2.contains(n) implies y2.contains(n) by {
            let k = choose|k: int| 0 <= k < x2.len() && x2[k] == n;
            assert(x[k] == n);
            assert(crate::order::seq_lt(x[k], x[x.len() - 1]));
            if n == xl {
                crate::order::lemma_lt_irreflexive(n);
            }
            assert(x.contains(n));
            let m = choose|m: int| 0 <= m < y.len() && y[m] == n;
            assert(m != y.len() - 1);
            assert(y2[m] == n);
        }
        assert forall|n: Seq<char>| #[trigger] y2.contains(n) implies x2.contains(n) by {
            let k = choose|k: int| 0 <= k < y2.len() && y2[k] == n;
            assert(y[k] == n);
            assert(crate::order::seq_lt(y[k], y[y.len() - 1]));
            if n == yl {
                crate::order::lemma_lt_irreflexive(n);
            }
            assert(y.contains(n));
            assert(x.contains(n) <==> y.contains(n));
            let m = choose|m: int| 0 <= m < x.len() && x[m] == n;
            assert(m != x.len() - 1);
            assert(x2[m] == n);
        }
        lemma_sorted_unique(x2, y2);
        assert(x =~= x2.push(xl));
        assert(y =~= y2.push(yl));
    }
}

/// An ascending table that names the section lists the section's names sorted.
proof fn lemma_table_sorted<T>(v: YamlNode, key: Seq<char>, t: Seq<(String, T)>)
    requires
        names_ascending(t),
        forall|n: Seq<char>| #[trigger] has_key(t, n) <==> section_names(v, key, n),
    ensures
        sorted_names(v, key, t.map_values(|x: (String, T)| x.0@)),
{
    let l = t.map_values(|x: (String, T)| x.0@);
    assert forall|i: int, j: int| 0 <= i < j < l.len() implies crate::order::seq_lt(#[trigger] l[i], #[trigger] l[j]) by {
        assert(crate::order::seq_lt(t[i].0@, t[j].0@));
    }
    assert forall|n: Seq<char>| #[trigger] l.contains(n) <==> section_names(v, key, n) by {
        if l.contains(n) {
            let k = choose|k: int| 0 <= k < l.len() && l[k] == n;
            assert(t[k].0@ == n);
            assert(has_key(t, n));
        }
        if section_names(v, key, n) {
            assert(has_key(t, n));
            let k = choose|k: int| 0 <= k < t.len() && #[trigger] t[k].0@ == n;
            assert(l[k] == n);
        }
    }
}

/// Refuse an endpoint name used by two of the node's sections, naming it.
#[verifier::spinoff_prover]
fn check_unique_names(
    v: &YamlNode,
    p: &Vec<(String, EndpointDecl)>,
    s: &Vec<(String, EndpointDecl)>,
    r: &Vec<(String, SrvEndpointDecl)>,
    c: &Vec<(String, EndpointDecl)>,
    ctx: &str,
) -> (res: Result<(), ParseError>)
    requires
        tables_name_sections(*v, p@, s@, r@, c@),
        names_ascending(p@),
        names_ascending(s@),
        names_ascending(r@),
        names_ascending(c@),
    ensures
        res is Ok <==> !endpoint_names_clash(*v),
        res matches Err(e) ==> exists|n: Seq<char>| #[trigger] named_twice(*v, n) && is_field_err(
            e,
            path_text(ctx@, n),
            NAME_TWICE@,
        ),
        res matches Err(e) ==> first_twice_named(*v, ctx@, e),
{
    let pn = table_names(p);
    let sn = table_names(s);
    let rn = table_names(r);
    let cn = table_names(c);
    let res = crate::path_fields::validate_endpoint_uniqueness(&pn, &sn, &rn, &cn, ctx);
    proof {
        let a = p@.map_values(|x: (String, EndpointDecl)| x.0@);
        let b = s@.map_values(|x: (String, EndpointDecl)| x.0@);
        let d = r@.map_values(|x: (String, SrvEndpointDecl)| x.0@);
        let f = c@.map_values(|x: (String, EndpointDecl)| x.0@);
        lemma_views_concat(pn@, sn@);
        lemma_views_concat(pn@ + sn@, rn@);
        lemma_views_concat(pn@ + sn@ + rn@, cn@);
        assert(string_views(pn@ + sn@ + rn@ + cn@) == a + b + d + f);
        let all = all_names(p@, s@, r@, c@);
        assert(a + b + d + f == all);
        lemma_repeat_distinct(all);
        lemma_distinct_named(*v, p@, s@, r@, c@);
        if let Some(j) = first_repeat(all) {
            lemma_repeat_named(*v, p@, s@, r@, c@, j);
        }
        reveal(tables_name_sections);
        lemma_table_sorted(*v, "pub"@, p@);
        lemma_table_sorted(*v, "sub"@, s@);
        lemma_table_sorted(*v, "srv"@, r@);
        lemma_table_sorted(*v, "cli"@, c@);
        if let Err(e) = &res {
            assert forall|lp: Seq<Seq<char>>, ls: Seq<Seq<char>>, lr: Seq<Seq<char>>, lc: Seq<Seq<char>>|
                sorted_names(*v, "pub"@, lp) && sorted_names(*v, "sub"@, ls) && sorted_names(*v, "srv"@, lr)
                    && sorted_names(*v, "cli"@, lc) implies (first_repeat(lp + ls + lr + lc) matches Some(j)
                && is_field_err(*e, path_text(ctx@, (lp + ls + lr + lc)[j]), NAME_TWICE@)) by {
                lemma_sorted_unique(a, lp);
                lemma_sorted_unique(b, ls);
                lemma_sorted_unique(d, lr);
                lemma_sorted_unique(f, lc);
            }
        }
    }
    res
}


// ── Reading a node's declarations ──

/// `x` is what node `v` declares besides its conditions and paths.
pub open spec fn node_endpoints_read(v: YamlNode, x: NodeEndpoints) -> bool {
    &&& bool_ok(v, "lifecycle"@, x.lifecycle)
    &&& endpoints_read(v, "pub"@, x.publishers@)
    &&& endpoints_read(v, "sub"@, x.subscribers@)
    &&& servers_read(v, x.srv@)
    &&& endpoints_read(v, "cli"@, x.cli@)
    &&& str_ok(v, "criticality"@, x.criticality)
    &&& concurrency_reads(v, x.concurrency)
}

/// The declarations read before a node's paths do not read.
pub open spec fn node_head_fails(v: YamlNode) -> bool {
    ||| bool_bad(v, "lifecycle"@)
    ||| endpoints_fail(v, "pub"@)
    ||| endpoints_fail(v, "sub"@)
    ||| servers_fail(v)
    ||| endpoints_fail(v, "cli"@)
}

pub open spec fn node_head_error(v: YamlNode, here: Seq<char>, e: ParseError) -> bool {
    if bool_bad(v, "lifecycle"@) {
        bool_error(v, "lifecycle"@, here, e)
    } else if endpoints_fail(v, "pub"@) {
        endpoints_error(v, "pub"@, here, e)
    } else if endpoints_fail(v, "sub"@) {
        endpoints_error(v, "sub"@, here, e)
    } else if servers_fail(v) {
        servers_error(v, here, e)
    } else {
        endpoints_error(v, "cli"@, here, e)
    }
}

/// The declarations read after a node's paths do not read, or an endpoint
/// name is used twice.
pub open spec fn node_tail_fails(v: YamlNode) -> bool {
    ||| str_bad(v, "criticality"@)
    ||| concurrency_fails(v)
    ||| endpoint_names_clash(v)
}

pub open spec fn node_tail_error(v: YamlNode, here: Seq<char>, e: ParseError) -> bool {
    if str_bad(v, "criticality"@) {
        str_error(v, "criticality"@, here, e)
    } else if concurrency_fails(v) {
        concurrency_error(v, here, e)
    } else {
        (exists|n: Seq<char>| #[trigger] named_twice(v, n) && is_field_err(e, path_text(here, n), NAME_TWICE@))
            && first_twice_named(v, here, e)
    }
}

proof fn lemma_tables_name_sections(
    v: YamlNode,
    p: Seq<(String, EndpointDecl)>,
    s: Seq<(String, EndpointDecl)>,
    r: Seq<(String, SrvEndpointDecl)>,
    c: Seq<(String, EndpointDecl)>,
)
    requires
        endpoints_read(v, "pub"@, p),
        endpoints_read(v, "sub"@, s),
        servers_read(v, r),
        endpoints_read(v, "cli"@, c),
    ensures
        tables_name_sections(v, p, s, r, c),
        names_ascending(p),
        names_ascending(s),
        names_ascending(r),
        names_ascending(c),
{
    reveal(tables_name_sections);
}

/// The lifecycle flag and the endpoint sections of node `v`, under `here`.
pub fn read_node_head(v: &YamlNode, here: &str) -> (r: Result<
    (
        Option<bool>,
        Vec<(String, EndpointDecl)>,
        Vec<(String, EndpointDecl)>,
        Vec<(String, SrvEndpointDecl)>,
        Vec<(String, EndpointDecl)>,
    ),
    ParseError,
>)
    requires
        all_measurable(*v),
    ensures
        match r {
            Ok((l, p, s, sv, c)) => {
                &&& !node_head_fails(*v)
                &&& bool_ok(*v, "lifecycle"@, l)
                &&& endpoints_read(*v, "pub"@, p@)
                &&& endpoints_read(*v, "sub"@, s@)
                &&& servers_read(*v, sv@)
                &&& endpoints_read(*v, "cli"@, c@)
            },
            Err(e) => node_head_fails(*v) && node_head_error(*v, here@, e),
        },
{
    let l = match read_bool(v, "lifecycle", here) {
        Ok(x) => x,
        Err(e) => {
            return Err(e);
        },
    };
    let p = match read_endpoints(v, "pub", here) {
        Ok(x) => x,
        Err(e) => {
            return Err(e);
        },
    };
    let s = match read_endpoints(v, "sub", here) {
        Ok(x) => x,
        Err(e) => {
            return Err(e);
        },
    };
    let sv = match read_servers(v, here) {
        Ok(x) => x,
        Err(e) => {
            return Err(e);
        },
    };
    let c = match read_endpoints(v, "cli", here) {
        Ok(x) => x,
        Err(e) => {
            return Err(e);
        },
    };
    Ok((l, p, s, sv, c))
}

/// The criticality and concurrency of node `v`, then the rule that no
/// endpoint name is used by two sections.
pub fn read_node_tail(
    v: &YamlNode,
    here: &str,
    p: &Vec<(String, EndpointDecl)>,
    s: &Vec<(String, EndpointDecl)>,
    sv: &Vec<(String, SrvEndpointDecl)>,
    c: &Vec<(String, EndpointDecl)>,
) -> (r: Result<(Option<String>, Option<ConcurrencyDecl>), ParseError>)
    requires
        all_measurable(*v),
        endpoints_read(*v, "pub"@, p@),
        endpoints_read(*v, "sub"@, s@),
        servers_read(*v, sv@),
        endpoints_read(*v, "cli"@, c@),
    ensures
        match r {
            Ok((cr, cc)) => !node_tail_fails(*v) && str_ok(*v, "criticality"@, cr) && concurrency_reads(*v, cc),
            Err(e) => node_tail_fails(*v) && node_tail_error(*v, here@, e),
        },
{
    let cr = match crate::manifest_read::read_str(v, "criticality", here) {
        Ok(x) => x,
        Err(e) => {
            return Err(e);
        },
    };
    proof {
        lemma_field_measurable(*v, "concurrency"@);
        if let Some(sec) = field_of(*v, "concurrency"@) {
            assert(keys_measurable(sec));
        }
    }
    let cc = match parse_concurrency(v, here) {
        Ok(x) => x,
        Err(e) => {
            return Err(e);
        },
    };
    proof {
        lemma_tables_name_sections(*v, p@, s@, sv@, c@);
    }
    match check_unique_names(v, p, s, sv, c, here) {
        Ok(()) => Ok((cr, cc)),
        Err(e) => Err(e),
    }
}

} // verus!
