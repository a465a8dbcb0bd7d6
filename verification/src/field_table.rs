//! The contract grammar, enumerated: every key the contract format accepts,
//! in every context whose keys are fixed by the schema.
//!
//! Contexts whose keys are chosen by the author (`nodes:`, `topics:`,
//! `services:`, `actions:`, `includes:`, `paths:`, `args:`,
//! `external_topics:`, and the endpoint maps under `pub:`/`sub:`/`srv:`/
//! `cli:`) are deliberately absent: there is no way to ask this table for the
//! legal keys of a map whose keys are node names.

use vstd::prelude::*;
use vstd::multiset::Multiset;
use crate::text::{push_str, push_char, str_eq, to_chars};
use crate::order::seq_lt;

verus! {

/// A container in the contract grammar whose keys are fixed by the schema.
#[derive(Debug, Clone, Copy, PartialEq, Eq, Structural, PartialOrd, Ord)]
pub enum Context {
    /// Top level of a manifest, and every inline `includes:` scope.
    Manifest,
    /// A value under `nodes:`.
    Node,
    /// A value under `pub:`, `sub:` or `cli:`.
    Endpoint,
    /// A value under `srv:`.
    SrvEndpoint,
    /// A value under `topics:`.
    Topic,
    /// A value under `external_topics:`.
    ExternalTopic,
    /// A value under `services:`.
    Service,
    /// A value under `actions:`.
    Action,
    /// A value under `includes:` that names another manifest file. An include
    /// WITHOUT `manifest:` is a nested [`Context::Manifest`], not this.
    IncludeExternal,
    /// A value under `args:`.
    Arg,
    /// A value under `paths:`, at either manifest or node level.
    Path,
    /// The map under `trigger:`.
    Trigger,
    /// The map under `trigger: { timer: ... }`.
    TriggerTimer,
    /// The map under `sync:`.
    Sync,
    /// The map form of `drop:`.
    Drop,
    /// The map under `qos:`.
    Qos,
    /// The map form of `miss:`.
    Miss,
    /// The map under `concurrency:`.
    Concurrency,
}

/// The name used in generated documentation and in error messages.
pub open spec fn context_label(c: Context) -> Seq<char> {
    match c {
        Context::Manifest => "manifest"@,
        Context::Node => "nodes.<name>"@,
        Context::Endpoint => "pub/sub/cli.<endpoint>"@,
        Context::SrvEndpoint => "srv.<endpoint>"@,
        Context::Topic => "topics.<name>"@,
        Context::ExternalTopic => "external_topics.<name>"@,
        Context::Service => "services.<name>"@,
        Context::Action => "actions.<name>"@,
        Context::IncludeExternal => "includes.<name>"@,
        Context::Arg => "args.<name>"@,
        Context::Path => "paths.<name>"@,
        Context::Trigger => "trigger"@,
        Context::TriggerTimer => "trigger.timer"@,
        Context::Sync => "sync"@,
        Context::Drop => "drop"@,
        Context::Qos => "qos"@,
        Context::Miss => "miss"@,
        Context::Concurrency => "concurrency"@,
    }
}

impl Context {
    /// The name used in generated documentation and in error messages.
    pub fn label(self) -> (r: &'static str)
        ensures
            r@ == context_label(self),
    {
        match self {
            Context::Manifest => "manifest",
            Context::Node => "nodes.<name>",
            Context::Endpoint => "pub/sub/cli.<endpoint>",
            Context::SrvEndpoint => "srv.<endpoint>",
            Context::Topic => "topics.<name>",
            Context::ExternalTopic => "external_topics.<name>",
            Context::Service => "services.<name>",
            Context::Action => "actions.<name>",
            Context::IncludeExternal => "includes.<name>",
            Context::Arg => "args.<name>",
            Context::Path => "paths.<name>",
            Context::Trigger => "trigger",
            Context::TriggerTimer => "trigger.timer",
            Context::Sync => "sync",
            Context::Drop => "drop",
            Context::Qos => "qos",
            Context::Miss => "miss",
            Context::Concurrency => "concurrency",
        }
    }
}

/// Distinct contexts have distinct labels: a label names its context.
pub proof fn lemma_labels_distinct(c1: Context, c2: Context)
    ensures
        context_label(c1) == context_label(c2) <==> c1 == c2,
{
    reveal_strlit("manifest");
    reveal_strlit("nodes.<name>");
    reveal_strlit("pub/sub/cli.<endpoint>");
    reveal_strlit("srv.<endpoint>");
    reveal_strlit("topics.<name>");
    reveal_strlit("external_topics.<name>");
    reveal_strlit("services.<name>");
    reveal_strlit("actions.<name>");
    reveal_strlit("includes.<name>");
    reveal_strlit("args.<name>");
    reveal_strlit("paths.<name>");
    reveal_strlit("trigger");
    reveal_strlit("trigger.timer");
    reveal_strlit("sync");
    reveal_strlit("drop");
    reveal_strlit("qos");
    reveal_strlit("miss");
    reveal_strlit("concurrency");
    if context_label(c1) == context_label(c2) {
        let a = context_label(c1);
        let b = context_label(c2);
        assert(a.len() == b.len());
        assert(a[0] == b[0]);
        assert(a[1] == b[1]);
    }
}

/// Why a key is in the table.
#[derive(Debug, Clone, Copy, PartialEq, Eq, Structural)]
pub enum Status {
    /// The current spelling.
    Live,
    /// An older spelling that still parses. The `canonical` field of
    /// [`Field`] names what replaced it.
    DeprecatedAlias,
    /// Removed from the language, and kept here ONLY so that the
    /// unknown-key check defers to the dedicated error, which explains the
    /// replacement. Without these rows a retired key would get a bare "not a
    /// known key" instead of the migration message.
    Removed,
}

/// One legal key, in one context.
#[derive(Debug, Clone, Copy)]
pub struct Field {
    pub key: &'static str,
    pub context: Context,
    pub status: Status,
    /// For [`Status::DeprecatedAlias`], the key that replaced it. Empty
    /// otherwise.
    pub canonical: &'static str,
    /// One line, used to generate the Format Reference.
    pub doc: &'static str,
}

pub open spec fn live_row(key: &'static str, context: Context, doc: &'static str) -> Field {
    Field { key, context, status: Status::Live, canonical: "", doc }
}

pub open spec fn alias_row(key: &'static str, context: Context, canonical: &'static str) -> Field {
    Field { key, context, status: Status::DeprecatedAlias, canonical, doc: "Deprecated spelling." }
}

pub open spec fn removed_row(key: &'static str, context: Context, doc: &'static str) -> Field {
    Field { key, context, status: Status::Removed, canonical: "", doc }
}

/// A current spelling.
pub fn live(key: &'static str, context: Context, doc: &'static str) -> (r: Field)
    ensures
        r == live_row(key, context, doc),
{
    Field { key, context, status: Status::Live, canonical: "", doc }
}

/// An older spelling that still parses, naming its replacement.
pub fn alias(key: &'static str, context: Context, canonical: &'static str) -> (r: Field)
    ensures
        r == alias_row(key, context, canonical),
{
    Field { key, context, status: Status::DeprecatedAlias, canonical, doc: "Deprecated spelling." }
}

/// A key removed from the language, kept so that its dedicated error fires.
pub fn removed(key: &'static str, context: Context, doc: &'static str) -> (r: Field)
    ensures
        r == removed_row(key, context, doc),
{
    Field { key, context, status: Status::Removed, canonical: "", doc }
}

pub open spec fn rows_0() -> Seq<Field> {
    seq![
        live_row("version", Context::Manifest, "Manifest format version. Absent means 1."),
        live_row("args", Context::Manifest, "Arguments this manifest requires, supplied by the launch scope."),
        removed_row("exclude_patterns", Context::Manifest, "Removed in phase 70 — mark a topic the tree does not produce or consume with `external:`."),
        live_row("nodes", Context::Manifest, "Node declarations, keyed by bare node name."),
        live_row("topics", Context::Manifest, "Topic declarations, keyed by topic name."),
        live_row("services", Context::Manifest, "Service declarations, keyed by service name."),
        live_row("actions", Context::Manifest, "Action declarations, keyed by action name."),
        live_row("includes", Context::Manifest, "Child manifests, either a file reference or an inline manifest."),
        live_row("paths", Context::Manifest, "Scope paths: end-to-end requirements naming two topics and a budget."),
        live_row("external_topics", Context::Manifest, "Topics produced or consumed outside the loaded manifest tree."),
        live_row("if", Context::Manifest, "In an `includes:` entry: include this scope only when the condition holds."),
        live_row("unless", Context::Manifest, "In an `includes:` entry: include this scope unless the condition holds."),
    ]
}

fn push_rows_0(v: &mut Vec<Field>)
    ensures
        final(v)@ == old(v)@ + rows_0(),
{
    let ghost start = v@;
    v.push(live("version", Context::Manifest, "Manifest format version. Absent means 1."));
    v.push(live("args", Context::Manifest, "Arguments this manifest requires, supplied by the launch scope."));
    v.push(removed("exclude_patterns", Context::Manifest, "Removed in phase 70 — mark a topic the tree does not produce or consume with `external:`."));
    v.push(live("nodes", Context::Manifest, "Node declarations, keyed by bare node name."));
    v.push(live("topics", Context::Manifest, "Topic declarations, keyed by topic name."));
    v.push(live("services", Context::Manifest, "Service declarations, keyed by service name."));
    v.push(live("actions", Context::Manifest, "Action declarations, keyed by action name."));
    v.push(live("includes", Context::Manifest, "Child manifests, either a file reference or an inline manifest."));
    v.push(live("paths", Context::Manifest, "Scope paths: end-to-end requirements naming two topics and a budget."));
    v.push(live("external_topics", Context::Manifest, "Topics produced or consumed outside the loaded manifest tree."));
    v.push(live("if", Context::Manifest, "In an `includes:` entry: include this scope only when the condition holds."));
    v.push(live("unless", Context::Manifest, "In an `includes:` entry: include this scope unless the condition holds."));
    assert(v@ =~= start + rows_0());
}

pub open spec fn rows_1() -> Seq<Field> {
    seq![
        removed_row("chains", Context::Manifest, "Removed in phase 68 — state the requirement as a scope path and let the route be derived."),
        live_row("if", Context::Node, "Include this node only when the condition holds."),
        live_row("unless", Context::Node, "Include this node unless the condition holds."),
        live_row("lifecycle", Context::Node, "True for a ROS 2 managed node; runtime monitors skip checks until it is Active."),
        live_row("pub", Context::Node, "Publisher endpoints, keyed by endpoint name."),
        live_row("sub", Context::Node, "Subscriber endpoints, keyed by endpoint name."),
        live_row("srv", Context::Node, "Service server endpoints, keyed by endpoint name."),
        live_row("cli", Context::Node, "Service client endpoints, keyed by endpoint name."),
        live_row("paths", Context::Node, "This node's internal paths, keyed by path name."),
        live_row("criticality", Context::Node, "Platform-agnostic scheduling criticality hint: high | medium | low."),
    ]
}

fn push_rows_1(v: &mut Vec<Field>)
    ensures
        final(v)@ == old(v)@ + rows_1(),
{
    let ghost start = v@;
    v.push(removed("chains", Context::Manifest, "Removed in phase 68 — state the requirement as a scope path and let the route be derived."));
    v.push(live("if", Context::Node, "Include this node only when the condition holds."));
    v.push(live("unless", Context::Node, "Include this node unless the condition holds."));
    v.push(live("lifecycle", Context::Node, "True for a ROS 2 managed node; runtime monitors skip checks until it is Active."));
    v.push(live("pub", Context::Node, "Publisher endpoints, keyed by endpoint name."));
    v.push(live("sub", Context::Node, "Subscriber endpoints, keyed by endpoint name."));
    v.push(live("srv", Context::Node, "Service server endpoints, keyed by endpoint name."));
    v.push(live("cli", Context::Node, "Service client endpoints, keyed by endpoint name."));
    v.push(live("paths", Context::Node, "This node's internal paths, keyed by path name."));
    v.push(live("criticality", Context::Node, "Platform-agnostic scheduling criticality hint: high | medium | low."));
    assert(v@ =~= start + rows_1());
}

pub open spec fn rows_2() -> Seq<Field> {
    seq![
        live_row("concurrency", Context::Node, "Which of this node's paths may NOT run concurrently. Absent means all of them serialize."),
        live_row("min_rate_hz", Context::Endpoint, "Lower bound on this endpoint's rate."),
        live_row("max_rate_hz", Context::Endpoint, "Upper bound on this endpoint's rate."),
        live_row("max_age", Context::Endpoint, "Subscriber: maximum data age at receive (now - header.stamp)."),
        alias_row("max_age_ms", Context::Endpoint, "max_age"),
        live_row("state", Context::Endpoint, "Subscriber: read-latest rather than causal."),
        live_row("required", Context::Endpoint, "Subscriber: this endpoint must be connected."),
        live_row("qos", Context::Endpoint, "QoS overrides for this endpoint."),
        live_row("max_transport", Context::Endpoint, "Transport latency budget for this endpoint."),
        alias_row("max_transport_ms", Context::Endpoint, "max_transport"),
    ]
}

fn push_rows_2(v: &mut Vec<Field>)
    ensures
        final(v)@ == old(v)@ + rows_2(),
{
    let ghost start = v@;
    v.push(live("concurrency", Context::Node, "Which of this node's paths may NOT run concurrently. Absent means all of them serialize."));
    v.push(live("min_rate_hz", Context::Endpoint, "Lower bound on this endpoint's rate."));
    v.push(live("max_rate_hz", Context::Endpoint, "Upper bound on this endpoint's rate."));
    v.push(live("max_age", Context::Endpoint, "Subscriber: maximum data age at receive (now - header.stamp)."));
    v.push(alias("max_age_ms", Context::Endpoint, "max_age"));
    v.push(live("state", Context::Endpoint, "Subscriber: read-latest rather than causal."));
    v.push(live("required", Context::Endpoint, "Subscriber: this endpoint must be connected."));
    v.push(live("qos", Context::Endpoint, "QoS overrides for this endpoint."));
    v.push(live("max_transport", Context::Endpoint, "Transport latency budget for this endpoint."));
    v.push(alias("max_transport_ms", Context::Endpoint, "max_transport"));
    assert(v@ =~= start + rows_2());
}

pub open spec fn rows_3() -> Seq<Field> {
    seq![
        live_row("buffer", Context::Endpoint, "Buffering discriminator for a state subscriber: latest | queue."),
        removed_row("jitter", Context::Endpoint, "Removed in phase 68 — jitter is a property of a route, not one publisher. Use `max_jitter` on a path."),
        removed_row("jitter_ms", Context::Endpoint, "Removed in phase 68 — see `jitter`."),
        live_row("max_response", Context::SrvEndpoint, "Deadline for answering a request on this service."),
        alias_row("max_response_ms", Context::SrvEndpoint, "max_response"),
        live_row("if", Context::Topic, "Declare this topic only when the condition holds."),
        live_row("unless", Context::Topic, "Declare this topic unless the condition holds."),
        live_row("type", Context::Topic, "ROS message type. Required."),
        live_row("pub", Context::Topic, "Publishing endpoints, as `node/endpoint`."),
        live_row("sub", Context::Topic, "Subscribing endpoints, as `node/endpoint`."),
    ]
}

fn push_rows_3(v: &mut Vec<Field>)
    ensures
        final(v)@ == old(v)@ + rows_3(),
{
    let ghost start = v@;
    v.push(live("buffer", Context::Endpoint, "Buffering discriminator for a state subscriber: latest | queue."));
    v.push(removed("jitter", Context::Endpoint, "Removed in phase 68 — jitter is a property of a route, not one publisher. Use `max_jitter` on a path."));
    v.push(removed("jitter_ms", Context::Endpoint, "Removed in phase 68 — see `jitter`."));
    v.push(live("max_response", Context::SrvEndpoint, "Deadline for answering a request on this service."));
    v.push(alias("max_response_ms", Context::SrvEndpoint, "max_response"));
    v.push(live("if", Context::Topic, "Declare this topic only when the condition holds."));
    v.push(live("unless", Context::Topic, "Declare this topic unless the condition holds."));
    v.push(live("type", Context::Topic, "ROS message type. Required."));
    v.push(live("pub", Context::Topic, "Publishing endpoints, as `node/endpoint`."));
    v.push(live("sub", Context::Topic, "Subscribing endpoints, as `node/endpoint`."));
    assert(v@ =~= start + rows_3());
}

pub open spec fn rows_4() -> Seq<Field> {
    seq![
        live_row("qos", Context::Topic, "Topic-level QoS, overridable per endpoint."),
        live_row("rate_hz", Context::Topic, "Publication rate. Derivable from the timers that drive it — see `derivable-rate`."),
        live_row("max_transport", Context::Topic, "Transport latency budget for every subscriber of this topic."),
        alias_row("max_transport_ms", Context::Topic, "max_transport"),
        live_row("drop", Context::Topic, "Permitted message loss on this topic."),
        live_row("external", Context::Topic, "Mark one side of this topic as provided by an external system."),
        live_row("side", Context::ExternalTopic, "Which side is external: pub | sub | both."),
        alias_row("external", Context::ExternalTopic, "side"),
        live_row("type", Context::ExternalTopic, "ROS message type, when known."),
        live_row("qos", Context::ExternalTopic, "QoS the external side uses, when known."),
    ]
}

fn push_rows_4(v: &mut Vec<Field>)
    ensures
        final(v)@ == old(v)@ + rows_4(),
{
    let ghost start = v@;
    v.push(live("qos", Context::Topic, "Topic-level QoS, overridable per endpoint."));
    v.push(live("rate_hz", Context::Topic, "Publication rate. Derivable from the timers that drive it — see `derivable-rate`."));
    v.push(live("max_transport", Context::Topic, "Transport latency budget for every subscriber of this topic."));
    v.push(alias("max_transport_ms", Context::Topic, "max_transport"));
    v.push(live("drop", Context::Topic, "Permitted message loss on this topic."));
    v.push(live("external", Context::Topic, "Mark one side of this topic as provided by an external system."));
    v.push(live("side", Context::ExternalTopic, "Which side is external: pub | sub | both."));
    v.push(alias("external", Context::ExternalTopic, "side"));
    v.push(live("type", Context::ExternalTopic, "ROS message type, when known."));
    v.push(live("qos", Context::ExternalTopic, "QoS the external side uses, when known."));
    assert(v@ =~= start + rows_4());
}

pub open spec fn rows_5() -> Seq<Field> {
    seq![
        live_row("if", Context::Service, "Declare this service only when the condition holds."),
        live_row("unless", Context::Service, "Declare this service unless the condition holds."),
        live_row("type", Context::Service, "ROS service type."),
        live_row("server", Context::Service, "Server endpoints, as `node/endpoint`."),
        live_row("client", Context::Service, "Client endpoints, as `node/endpoint`."),
        live_row("if", Context::Action, "Declare this action only when the condition holds."),
        live_row("unless", Context::Action, "Declare this action unless the condition holds."),
        live_row("type", Context::Action, "ROS action type."),
        live_row("server", Context::Action, "Server endpoints, as `node/endpoint`."),
        live_row("client", Context::Action, "Client endpoints, as `node/endpoint`."),
    ]
}

fn push_rows_5(v: &mut Vec<Field>)
    ensures
        final(v)@ == old(v)@ + rows_5(),
{
    let ghost start = v@;
    v.push(live("if", Context::Service, "Declare this service only when the condition holds."));
    v.push(live("unless", Context::Service, "Declare this service unless the condition holds."));
    v.push(live("type", Context::Service, "ROS service type."));
    v.push(live("server", Context::Service, "Server endpoints, as `node/endpoint`."));
    v.push(live("client", Context::Service, "Client endpoints, as `node/endpoint`."));
    v.push(live("if", Context::Action, "Declare this action only when the condition holds."));
    v.push(live("unless", Context::Action, "Declare this action unless the condition holds."));
    v.push(live("type", Context::Action, "ROS action type."));
    v.push(live("server", Context::Action, "Server endpoints, as `node/endpoint`."));
    v.push(live("client", Context::Action, "Client endpoints, as `node/endpoint`."));
    assert(v@ =~= start + rows_5());
}

pub open spec fn rows_6() -> Seq<Field> {
    seq![
        live_row("manifest", Context::IncludeExternal, "Path to the included manifest file."),
        live_row("if", Context::IncludeExternal, "Include the file only when the condition holds."),
        live_row("unless", Context::IncludeExternal, "Include the file unless the condition holds."),
        live_row("type", Context::Arg, "Argument type: bool, or omitted for a free string."),
        live_row("choices", Context::Arg, "Permitted values. Consulted only when `type` is absent."),
        live_row("if", Context::Path, "Declare this path only when the condition holds."),
        live_row("unless", Context::Path, "Declare this path unless the condition holds."),
        live_row("input", Context::Path, "Legacy trigger spelling. Prefer `trigger: { input: [...] }`."),
        live_row("output", Context::Path, "Endpoints (node path) or topics (scope path) this path produces."),
        live_row("max_latency", Context::Path, "Latency budget for this path."),
        alias_row("max_latency_ms", Context::Path, "max_latency"),
        live_row("correlation", Context::Path, "How multiple inputs are correlated into one output."),
    ]
}

fn push_rows_6(v: &mut Vec<Field>)
    ensures
        final(v)@ == old(v)@ + rows_6(),
{
    let ghost start = v@;
    v.push(live("manifest", Context::IncludeExternal, "Path to the included manifest file."));
    v.push(live("if", Context::IncludeExternal, "Include the file only when the condition holds."));
    v.push(live("unless", Context::IncludeExternal, "Include the file unless the condition holds."));
    v.push(live("type", Context::Arg, "Argument type: bool, or omitted for a free string."));
    v.push(live("choices", Context::Arg, "Permitted values. Consulted only when `type` is absent."));
    v.push(live("if", Context::Path, "Declare this path only when the condition holds."));
    v.push(live("unless", Context::Path, "Declare this path unless the condition holds."));
    v.push(live("input", Context::Path, "Legacy trigger spelling. Prefer `trigger: { input: [...] }`."));
    v.push(live("output", Context::Path, "Endpoints (node path) or topics (scope path) this path produces."));
    v.push(live("max_latency", Context::Path, "Latency budget for this path."));
    v.push(alias("max_latency_ms", Context::Path, "max_latency"));
    v.push(live("correlation", Context::Path, "How multiple inputs are correlated into one output."));
    assert(v@ =~= start + rows_6());
}

pub open spec fn rows_7() -> Seq<Field> {
    seq![
        live_row("tolerance", Context::Path, "Correlation tolerance."),
        alias_row("tolerance_ms", Context::Path, "tolerance"),
        live_row("drop", Context::Path, "Permitted message loss along this path."),
        live_row("trigger", Context::Path, "What causes this path's output: timer | input | once | spontaneous."),
        live_row("sync", Context::Path, "Fan-in synchronization policy for an input trigger with two or more endpoints."),
        live_row("max_jitter", Context::Path, "Permitted variation in this path's latency."),
        live_row("min_latency", Context::Path, "Best-case latency. Exists so that `max_jitter` is falsifiable."),
        live_row("miss", Context::Path, "What a missed deadline costs and what to do about it."),
        removed_row("segments", Context::Path, "Removed in phase 68 with `chains:` — a written route is a second copy of the graph."),
        live_row("timer", Context::Trigger, "Periodic self-clocked callback."),
    ]
}

fn push_rows_7(v: &mut Vec<Field>)
    ensures
        final(v)@ == old(v)@ + rows_7(),
{
    let ghost start = v@;
    v.push(live("tolerance", Context::Path, "Correlation tolerance."));
    v.push(alias("tolerance_ms", Context::Path, "tolerance"));
    v.push(live("drop", Context::Path, "Permitted message loss along this path."));
    v.push(live("trigger", Context::Path, "What causes this path's output: timer | input | once | spontaneous."));
    v.push(live("sync", Context::Path, "Fan-in synchronization policy for an input trigger with two or more endpoints."));
    v.push(live("max_jitter", Context::Path, "Permitted variation in this path's latency."));
    v.push(live("min_latency", Context::Path, "Best-case latency. Exists so that `max_jitter` is falsifiable."));
    v.push(live("miss", Context::Path, "What a missed deadline costs and what to do about it."));
    v.push(removed("segments", Context::Path, "Removed in phase 68 with `chains:` — a written route is a second copy of the graph."));
    v.push(live("timer", Context::Trigger, "Periodic self-clocked callback."));
    assert(v@ =~= start + rows_7());
}

pub open spec fn rows_8() -> Seq<Field> {
    seq![
        live_row("input", Context::Trigger, "Output caused by these input endpoints or topics."),
        live_row("rate_hz", Context::TriggerTimer, "Timer rate. Required, and must be greater than zero."),
        live_row("policy", Context::Sync, "Fan-in policy. Required."),
        live_row("max_interval", Context::Sync, "Widest permitted spread between matched inputs."),
        alias_row("max_interval_ms", Context::Sync, "max_interval"),
        live_row("timeout", Context::Sync, "How long to wait for the remaining inputs."),
        alias_row("timeout_ms", Context::Sync, "timeout"),
        live_row("max_count", Context::Drop, "Permitted losses over a window, as `N / W`."),
        live_row("max_consecutive", Context::Drop, "Permitted consecutive losses."),
        live_row("reliability", Context::Qos, "reliable | best_effort."),
    ]
}

fn push_rows_8(v: &mut Vec<Field>)
    ensures
        final(v)@ == old(v)@ + rows_8(),
{
    let ghost start = v@;
    v.push(live("input", Context::Trigger, "Output caused by these input endpoints or topics."));
    v.push(live("rate_hz", Context::TriggerTimer, "Timer rate. Required, and must be greater than zero."));
    v.push(live("policy", Context::Sync, "Fan-in policy. Required."));
    v.push(live("max_interval", Context::Sync, "Widest permitted spread between matched inputs."));
    v.push(alias("max_interval_ms", Context::Sync, "max_interval"));
    v.push(live("timeout", Context::Sync, "How long to wait for the remaining inputs."));
    v.push(alias("timeout_ms", Context::Sync, "timeout"));
    v.push(live("max_count", Context::Drop, "Permitted losses over a window, as `N / W`."));
    v.push(live("max_consecutive", Context::Drop, "Permitted consecutive losses."));
    v.push(live("reliability", Context::Qos, "reliable | best_effort."));
    assert(v@ =~= start + rows_8());
}

pub open spec fn rows_9() -> Seq<Field> {
    seq![
        live_row("durability", Context::Qos, "volatile | transient_local."),
        live_row("depth", Context::Qos, "History depth."),
        live_row("history", Context::Qos, "keep_last | keep_all."),
        live_row("lifespan", Context::Qos, "How long a message stays valid after publication."),
        alias_row("lifespan_ms", Context::Qos, "lifespan"),
        live_row("liveliness", Context::Qos, "automatic | manual_by_topic."),
        live_row("deadline", Context::Qos, "QoS deadline between consecutive messages."),
        live_row("lease_duration", Context::Qos, "Liveliness lease duration."),
        live_row("tolerate", Context::Miss, "Permitted misses over a window, as `N / W`."),
        live_row("consecutive", Context::Miss, "Permitted consecutive misses."),
    ]
}

fn push_rows_9(v: &mut Vec<Field>)
    ensures
        final(v)@ == old(v)@ + rows_9(),
{
    let ghost start = v@;
    v.push(live("durability", Context::Qos, "volatile | transient_local."));
    v.push(live("depth", Context::Qos, "History depth."));
    v.push(live("history", Context::Qos, "keep_last | keep_all."));
    v.push(live("lifespan", Context::Qos, "How long a message stays valid after publication."));
    v.push(alias("lifespan_ms", Context::Qos, "lifespan"));
    v.push(live("liveliness", Context::Qos, "automatic | manual_by_topic."));
    v.push(live("deadline", Context::Qos, "QoS deadline between consecutive messages."));
    v.push(live("lease_duration", Context::Qos, "Liveliness lease duration."));
    v.push(live("tolerate", Context::Miss, "Permitted misses over a window, as `N / W`."));
    v.push(live("consecutive", Context::Miss, "Permitted consecutive misses."));
    assert(v@ =~= start + rows_9());
}

pub open spec fn rows_10() -> Seq<Field> {
    seq![
        live_row("action", Context::Miss, "What to do on a miss: continue | skip_next | abort."),
        live_row("exclusive", Context::Concurrency, "Groups of path names that may not run at the same time."),
    ]
}

fn push_rows_10(v: &mut Vec<Field>)
    ensures
        final(v)@ == old(v)@ + rows_10(),
{
    let ghost start = v@;
    v.push(live("action", Context::Miss, "What to do on a miss: continue | skip_next | abort."));
    v.push(live("exclusive", Context::Concurrency, "Groups of path names that may not run at the same time."));
    assert(v@ =~= start + rows_10());
}

/// Every key the contract grammar accepts, in every context that has fixed keys.
pub open spec fn field_rows() -> Seq<Field> {
    rows_0() + rows_1() + rows_2() + rows_3() + rows_4() + rows_5() + rows_6() + rows_7() + rows_8() + rows_9() + rows_10()
}

/// The table of [`field_rows`].
pub fn fields() -> (r: Vec<Field>)
    ensures
        r@ == field_rows(),
{
    let mut v: Vec<Field> = Vec::new();
    push_rows_0(&mut v);
    push_rows_1(&mut v);
    push_rows_2(&mut v);
    push_rows_3(&mut v);
    push_rows_4(&mut v);
    push_rows_5(&mut v);
    push_rows_6(&mut v);
    push_rows_7(&mut v);
    push_rows_8(&mut v);
    push_rows_9(&mut v);
    push_rows_10(&mut v);
    assert(v@ =~= field_rows());
    v
}


// ── Queries ──

/// The rows of context `c`, in table order.
pub open spec fn rows_in(rows: Seq<Field>, c: Context) -> Seq<Field>
    decreases rows.len(),
{
    if rows.len() == 0 {
        Seq::empty()
    } else if rows.last().context == c {
        rows_in(rows.drop_last(), c).push(rows.last())
    } else {
        rows_in(rows.drop_last(), c)
    }
}

/// The keys legal in `context`, in table order, including deprecated and
/// removed spellings (a removed key must reach its own dedicated error).
pub fn allowed(context: Context) -> (r: Vec<Field>)
    ensures
        r@ == rows_in(field_rows(), context),
{
    let table = fields();
    let mut out: Vec<Field> = Vec::new();
    let mut i: usize = 0;
    assert(table@.take(0) =~= Seq::<Field>::empty());
    while i < table.len()
        invariant
            i <= table@.len(),
            table@ == field_rows(),
            out@ == rows_in(table@.take(i as int), context),
        decreases table@.len() - i,
    {
        assert(table@.take(i + 1).drop_last() =~= table@.take(i as int));
        if table[i].context == context {
            out.push(table[i]);
        }
        i += 1;
    }
    assert(table@.take(table@.len() as int) =~= table@);
    out
}

/// The first row for `key` in context `c`.
pub open spec fn lookup_row(rows: Seq<Field>, c: Context, key: Seq<char>) -> Option<Field>
    decreases rows.len(),
{
    if rows.len() == 0 {
        None
    } else if rows[0].context == c && rows[0].key@ == key {
        Some(rows[0])
    } else {
        lookup_row(rows.drop_first(), c, key)
    }
}

/// The table row for `key` in `context`, if any.
pub fn lookup(context: Context, key: &str) -> (r: Option<Field>)
    ensures
        r == lookup_row(field_rows(), context, key@),
{
    let table = fields();
    let mut i: usize = 0;
    assert(table@.skip(0) =~= table@);
    while i < table.len()
        invariant
            i <= table@.len(),
            table@ == field_rows(),
            lookup_row(table@, context, key@) == lookup_row(table@.skip(i as int), context, key@),
        decreases table@.len() - i,
    {
        assert(table@.skip(i as int).drop_first() =~= table@.skip(i + 1));
        if table[i].context == context && str_eq(table[i].key, key) {
            return Some(table[i]);
        }
        i += 1;
    }
    None
}

/// The keys a diagnostic should offer in `c`: every spelling but removed ones.
pub open spec fn offered_keys(rows: Seq<Field>, c: Context) -> Seq<Seq<char>>
    decreases rows.len(),
{
    if rows.len() == 0 {
        Seq::empty()
    } else if rows.last().context == c && rows.last().status != Status::Removed {
        offered_keys(rows.drop_last(), c).push(rows.last().key@)
    } else {
        offered_keys(rows.drop_last(), c)
    }
}

/// Keys in non-decreasing order.
pub open spec fn keys_sorted(s: Seq<&'static str>) -> bool {
    forall|i: int, j: int| 0 <= i < j < s.len() ==> !seq_lt(#[trigger] s[j]@, #[trigger] s[i]@)
}

pub open spec fn key_views(s: Seq<&'static str>) -> Seq<Seq<char>> {
    Seq::new(s.len(), |i: int| s[i]@)
}

fn insert_key(v: &mut Vec<&'static str>, x: &'static str)
    requires
        keys_sorted(old(v)@),
    ensures
        keys_sorted(final(v)@),
        key_views(final(v)@).to_multiset() == key_views(old(v)@).to_multiset().insert(x@),
{
    let mut p: usize = 0;
    while p < v.len() && !crate::order::str_lt(x, v[p])
        invariant
            p <= v@.len(),
            forall|i: int| 0 <= i < p ==> !seq_lt(x@, #[trigger] v@[i]@),
        decreases v@.len() - p,
    {
        p += 1;
    }
    let ghost before = v@;
    v.insert(p, x);
    proof {
        let s2 = key_views(v@);
        let b2 = key_views(before);
        assert(s2.remove(p as int) =~= b2);
        assert(s2[p as int] == x@);
        s2.to_multiset_ensures();
        b2.to_multiset_ensures();
        assert(s2.to_multiset() =~= b2.to_multiset().insert(x@));
        assert forall|i: int, j: int| 0 <= i < j < v@.len() implies !seq_lt(
            #[trigger] v@[j]@,
            #[trigger] v@[i]@,
        ) by {
            if j < p {
                assert(v@[i] == before[i] && v@[j] == before[j]);
            } else if j == p {
                assert(v@[i] == before[i]);
            } else if i < p {
                assert(v@[j] == before[j - 1] && v@[i] == before[i]);
            } else if i == p {
                assert(v@[j] == before[j - 1]);
                assert(seq_lt(x@, before[p as int]@));
                if seq_lt(before[j - 1]@, x@) {
                    if j - 1 == p {
                        crate::order::lemma_lt_asymmetric(x@, before[p as int]@);
                    } else {
                        crate::order::lemma_lt_transitive(before[j - 1]@, x@, before[p as int]@);
                    }
                }
            } else {
                assert(v@[j] == before[j - 1] && v@[i] == before[i - 1]);
            }
        }
    }
}

/// The keys a diagnostic should offer as legal in `context`, sorted.
/// Removed spellings are excluded.
pub fn suggestions(context: Context) -> (r: Vec<&'static str>)
    ensures
        keys_sorted(r@),
        key_views(r@).to_multiset() == offered_keys(field_rows(), context).to_multiset(),
{
    let table = fields();
    let mut keys: Vec<&'static str> = Vec::new();
    let mut i: usize = 0;
    assert(table@.take(0) =~= Seq::<Field>::empty());
    assert(key_views(keys@) =~= Seq::<Seq<char>>::empty());
    while i < table.len()
        invariant
            i <= table@.len(),
            table@ == field_rows(),
            keys_sorted(keys@),
            key_views(keys@).to_multiset() == offered_keys(table@.take(i as int), context).to_multiset(),
        decreases table@.len() - i,
    {
        assert(table@.take(i + 1).drop_last() =~= table@.take(i as int));
        let f = table[i];
        if f.context == context && f.status != Status::Removed {
            insert_key(&mut keys, f.key);
            proof {
                offered_keys(table@.take(i as int), context).to_multiset_ensures();
            }
        }
        i += 1;
    }
    assert(table@.take(table@.len() as int) =~= table@);
    keys
}

pub open spec fn min3(a: int, b: int, c: int) -> int {
    if a <= b && a <= c {
        a
    } else if b <= c {
        b
    } else {
        c
    }
}

/// Levenshtein distance.
pub open spec fn lev(a: Seq<char>, b: Seq<char>) -> nat
    decreases a.len() + b.len(),
{
    if a.len() == 0 {
        b.len()
    } else if b.len() == 0 {
        a.len()
    } else {
        min3(
            lev(a.drop_last(), b) + 1int,
            lev(a, b.drop_last()) + 1int,
            lev(a.drop_last(), b.drop_last()) + if a.last() == b.last() {
                0int
            } else {
                1int
            },
        ) as nat
    }
}

proof fn lemma_lev_bound(a: Seq<char>, b: Seq<char>)
    ensures
        lev(a, b) <= a.len() + b.len(),
    decreases a.len() + b.len(),
{
    if a.len() > 0 && b.len() > 0 {
        lemma_lev_bound(a.drop_last(), b);
    }
}

/// Levenshtein distance between two strings, over characters.
pub fn edit_distance(a: &str, b: &str) -> (r: usize)
    requires
        a@.len() + b@.len() < usize::MAX,
    ensures
        r == lev(a@, b@),
{
    let av = to_chars(a);
    let bv = to_chars(b);
    let m = bv.len();
    let mut prev: Vec<usize> = Vec::new();
    let mut j: usize = 0;
    while j <= m
        invariant
            j <= m + 1,
            m == bv@.len(),
            m < usize::MAX,
            prev@.len() == j,
            forall|k: int| 0 <= k < j ==> #[trigger] prev@[k] == lev(av@.take(0), bv@.take(k)),
        decreases m + 1 - j,
    {
        proof {
            assert(av@.take(0).len() == 0);
        }
        prev.push(j);
        j += 1;
    }
    let mut i: usize = 0;
    while i < av.len()
        invariant
            i <= av@.len(),
            m == bv@.len(),
            av@ == a@,
            bv@ == b@,
            a@.len() + b@.len() < usize::MAX,
            prev@.len() == m + 1,
            forall|k: int| 0 <= k <= m ==> #[trigger] prev@[k] == lev(av@.take(i as int), bv@.take(k)),
        decreases av@.len() - i,
    {
        let ghost ai = av@.take(i as int);
        let ghost ai1 = av@.take(i + 1);
        assert(ai1.drop_last() =~= ai);
        assert(ai1.last() == av@[i as int]);
        let mut cur: Vec<usize> = Vec::new();
        proof {
            assert(bv@.take(0) =~= Seq::<char>::empty());
        }
        cur.push(i + 1);
        let mut k: usize = 0;
        while k < m
            invariant
                k <= m,
                m == bv@.len(),
                i < av@.len(),
                a@.len() + b@.len() < usize::MAX,
                av@.len() == a@.len(),
                bv@.len() == b@.len(),
                ai == av@.take(i as int),
                ai1 == av@.take(i + 1),
                ai1.drop_last() == ai,
                ai1.last() == av@[i as int],
                prev@.len() == m + 1,
                forall|x: int| 0 <= x <= m ==> #[trigger] prev@[x] == lev(ai, bv@.take(x)),
                cur@.len() == k + 1,
                forall|x: int| 0 <= x <= k ==> #[trigger] cur@[x] == lev(ai1, bv@.take(x)),
            decreases m - k,
        {
            let ghost bk1 = bv@.take(k + 1);
            proof {
                assert(bk1.drop_last() =~= bv@.take(k as int));
                assert(bk1.last() == bv@[k as int]);
                lemma_lev_bound(ai, bk1);
                lemma_lev_bound(ai, bv@.take(k as int));
                lemma_lev_bound(ai1, bv@.take(k as int));
            }
            let cost: usize = if av[i] != bv[k] {
                1
            } else {
                0
            };
            let x = prev[k] + cost;
            let y = prev[k + 1] + 1;
            let z = cur[k] + 1;
            let best = if x <= y && x <= z {
                x
            } else if y <= z {
                y
            } else {
                z
            };
            cur.push(best);
            k += 1;
        }
        prev = cur;
        i += 1;
    }
    assert(av@.take(av@.len() as int) =~= av@);
    assert(bv@.take(m as int) =~= bv@);
    prev[m]
}

/// The typo budget for a key of `n` bytes.
pub open spec fn typo_budget(n: nat) -> nat {
    if n <= 4 {
        1
    } else if n <= 8 {
        2
    } else {
        3
    }
}

/// The best suggestion among `rows`: the offered key of `c` nearest to
/// `key` within `budget`, ties going to the smaller key, then to the
/// earlier row.
pub open spec fn nearest_row(rows: Seq<Field>, c: Context, key: Seq<char>, budget: nat) -> Option<
    Field,
>
    decreases rows.len(),
{
    if rows.len() == 0 {
        None
    } else {
        let prev = nearest_row(rows.drop_last(), c, key, budget);
        let f = rows.last();
        if f.context == c && f.status != Status::Removed && lev(f.key@, key) <= budget {
            match prev {
                None => Some(f),
                Some(p) => if lev(f.key@, key) < lev(p.key@, key) || (lev(f.key@, key) == lev(
                    p.key@,
                    key,
                ) && seq_lt(f.key@, p.key@)) {
                    Some(f)
                } else {
                    prev
                },
            }
        } else {
            prev
        }
    }
}

/// The accepted key in `context` closest to `key`, for a "did you mean"
/// suggestion; `None` when nothing is close enough to be worth printing.
pub fn nearest(context: Context, key: &str) -> (r: Option<&'static str>)
    requires
        key@.len() + 64 < usize::MAX,
        encode_utf8_len(key@) <= usize::MAX,
    ensures
        match nearest_row(
            field_rows(),
            context,
            key@,
            typo_budget(encode_utf8_len(key@)),
        ) {
            Some(f) => r == Some(f.key),
            None => r is None,
        },
{
    let n = key.len();
    let budget: usize = if n <= 4 {
        1
    } else if n <= 8 {
        2
    } else {
        3
    };
    let table = fields();
    let mut best: Option<(usize, &'static str)> = None;
    let mut i: usize = 0;
    assert(table@.take(0) =~= Seq::<Field>::empty());
    while i < table.len()
        invariant
            i <= table@.len(),
            table@ == field_rows(),
            key@.len() + 64 < usize::MAX,
            budget == typo_budget(encode_utf8_len(key@)),
            match nearest_row(table@.take(i as int), context, key@, budget as nat) {
                None => best is None,
                Some(f) => best matches Some((d, k)) && k == f.key && d == lev(f.key@, key@),
            },
        decreases table@.len() - i,
    {
        assert(table@.take(i + 1).drop_last() =~= table@.take(i as int));
        let f = table[i];
        if f.context == context && f.status != Status::Removed {
            proof {
                lemma_keys_short();
                assert(f == table@[i as int]);
            }
            let d = edit_distance(f.key, key);
            if d <= budget {
                match best {
                    None => {
                        best = Some((d, f.key));
                    },
                    Some((bd, bk)) => {
                        if d < bd || (d == bd && crate::order::str_lt(f.key, bk)) {
                            best = Some((d, f.key));
                        }
                    },
                }
            }
        }
        i += 1;
    }
    assert(table@.take(table@.len() as int) =~= table@);
    match best {
        Some((_, k)) => Some(k),
        None => None,
    }
}

/// The number of bytes `s` takes in UTF-8.
pub open spec fn encode_utf8_len(s: Seq<char>) -> nat {
    vstd::utf8::encode_utf8(s).len()
}

proof fn lemma_rows_0_short()
    ensures
        forall|i: int| 0 <= i < rows_0().len() ==> (#[trigger] rows_0()[i]).key@.len() < 64,
{
    reveal_strlit("actions");
    reveal_strlit("args");
    reveal_strlit("exclude_patterns");
    reveal_strlit("external_topics");
    reveal_strlit("includes");
    reveal_strlit("nodes");
    reveal_strlit("paths");
    reveal_strlit("services");
    reveal_strlit("topics");
    reveal_strlit("version");
    reveal_strlit("if");
    reveal_strlit("unless");
}

proof fn lemma_rows_1_short()
    ensures
        forall|i: int| 0 <= i < rows_1().len() ==> (#[trigger] rows_1()[i]).key@.len() < 64,
{
    reveal_strlit("chains");
    reveal_strlit("cli");
    reveal_strlit("criticality");
    reveal_strlit("if");
    reveal_strlit("lifecycle");
    reveal_strlit("paths");
    reveal_strlit("pub");
    reveal_strlit("srv");
    reveal_strlit("sub");
    reveal_strlit("unless");
}

proof fn lemma_rows_2_short()
    ensures
        forall|i: int| 0 <= i < rows_2().len() ==> (#[trigger] rows_2()[i]).key@.len() < 64,
{
    reveal_strlit("concurrency");
    reveal_strlit("max_age");
    reveal_strlit("max_age_ms");
    reveal_strlit("max_rate_hz");
    reveal_strlit("max_transport");
    reveal_strlit("max_transport_ms");
    reveal_strlit("min_rate_hz");
    reveal_strlit("qos");
    reveal_strlit("required");
    reveal_strlit("state");
}

proof fn lemma_rows_3_short()
    ensures
        forall|i: int| 0 <= i < rows_3().len() ==> (#[trigger] rows_3()[i]).key@.len() < 64,
{
    reveal_strlit("buffer");
    reveal_strlit("if");
    reveal_strlit("jitter");
    reveal_strlit("jitter_ms");
    reveal_strlit("max_response");
    reveal_strlit("max_response_ms");
    reveal_strlit("pub");
    reveal_strlit("sub");
    reveal_strlit("type");
    reveal_strlit("unless");
}

proof fn lemma_rows_4_short()
    ensures
        forall|i: int| 0 <= i < rows_4().len() ==> (#[trigger] rows_4()[i]).key@.len() < 64,
{
    reveal_strlit("drop");
    reveal_strlit("external");
    reveal_strlit("max_transport");
    reveal_strlit("max_transport_ms");
    reveal_strlit("qos");
    reveal_strlit("rate_hz");
    reveal_strlit("side");
    reveal_strlit("type");
}

proof fn lemma_rows_5_short()
    ensures
        forall|i: int| 0 <= i < rows_5().len() ==> (#[trigger] rows_5()[i]).key@.len() < 64,
{
    reveal_strlit("client");
    reveal_strlit("if");
    reveal_strlit("server");
    reveal_strlit("type");
    reveal_strlit("unless");
}

proof fn lemma_rows_6_short()
    ensures
        forall|i: int| 0 <= i < rows_6().len() ==> (#[trigger] rows_6()[i]).key@.len() < 64,
{
    reveal_strlit("unless");
    reveal_strlit("choices");
    reveal_strlit("correlation");
    reveal_strlit("if");
    reveal_strlit("input");
    reveal_strlit("manifest");
    reveal_strlit("max_latency");
    reveal_strlit("max_latency_ms");
    reveal_strlit("output");
    reveal_strlit("type");
    reveal_strlit("unless");
}

proof fn lemma_rows_7_short()
    ensures
        forall|i: int| 0 <= i < rows_7().len() ==> (#[trigger] rows_7()[i]).key@.len() < 64,
{
    reveal_strlit("drop");
    reveal_strlit("max_jitter");
    reveal_strlit("min_latency");
    reveal_strlit("miss");
    reveal_strlit("segments");
    reveal_strlit("sync");
    reveal_strlit("timer");
    reveal_strlit("tolerance");
    reveal_strlit("tolerance_ms");
    reveal_strlit("trigger");
}

proof fn lemma_rows_8_short()
    ensures
        forall|i: int| 0 <= i < rows_8().len() ==> (#[trigger] rows_8()[i]).key@.len() < 64,
{
    reveal_strlit("input");
    reveal_strlit("max_consecutive");
    reveal_strlit("max_count");
    reveal_strlit("max_interval");
    reveal_strlit("max_interval_ms");
    reveal_strlit("policy");
    reveal_strlit("rate_hz");
    reveal_strlit("reliability");
    reveal_strlit("timeout");
    reveal_strlit("timeout_ms");
}

proof fn lemma_rows_9_short()
    ensures
        forall|i: int| 0 <= i < rows_9().len() ==> (#[trigger] rows_9()[i]).key@.len() < 64,
{
    reveal_strlit("consecutive");
    reveal_strlit("deadline");
    reveal_strlit("depth");
    reveal_strlit("durability");
    reveal_strlit("history");
    reveal_strlit("lease_duration");
    reveal_strlit("lifespan");
    reveal_strlit("lifespan_ms");
    reveal_strlit("liveliness");
    reveal_strlit("tolerate");
}

proof fn lemma_rows_10_short()
    ensures
        forall|i: int| 0 <= i < rows_10().len() ==> (#[trigger] rows_10()[i]).key@.len() < 64,
{
    reveal_strlit("action");
    reveal_strlit("exclusive");
}

/// Every key in the table is short.
proof fn lemma_keys_short()
    ensures
        forall|i: int| 0 <= i < field_rows().len() ==> (#[trigger] field_rows()[i]).key@.len() < 64,
{
    lemma_rows_0_short();
    lemma_rows_1_short();
    lemma_rows_2_short();
    lemma_rows_3_short();
    lemma_rows_4_short();
    lemma_rows_5_short();
    lemma_rows_6_short();
    lemma_rows_7_short();
    lemma_rows_8_short();
    lemma_rows_9_short();
    lemma_rows_10_short();
    let ghost s0 = rows_0();
    let ghost s1 = s0 + rows_1();
    assert forall|j: int| 0 <= j < s1.len() implies (#[trigger] s1[j]).key@.len() < 64 by {
        if j < s0.len() {
            assert(s1[j] == s0[j]);
        } else {
            assert(s1[j] == rows_1()[j - s0.len()]);
        }
    }
    let ghost s2 = s1 + rows_2();
    assert forall|j: int| 0 <= j < s2.len() implies (#[trigger] s2[j]).key@.len() < 64 by {
        if j < s1.len() {
            assert(s2[j] == s1[j]);
        } else {
            assert(s2[j] == rows_2()[j - s1.len()]);
        }
    }
    let ghost s3 = s2 + rows_3();
    assert forall|j: int| 0 <= j < s3.len() implies (#[trigger] s3[j]).key@.len() < 64 by {
        if j < s2.len() {
            assert(s3[j] == s2[j]);
        } else {
            assert(s3[j] == rows_3()[j - s2.len()]);
        }
    }
    let ghost s4 = s3 + rows_4();
    assert forall|j: int| 0 <= j < s4.len() implies (#[trigger] s4[j]).key@.len() < 64 by {
        if j < s3.len() {
            assert(s4[j] == s3[j]);
        } else {
            assert(s4[j] == rows_4()[j - s3.len()]);
        }
    }
    let ghost s5 = s4 + rows_5();
    assert forall|j: int| 0 <= j < s5.len() implies (#[trigger] s5[j]).key@.len() < 64 by {
        if j < s4.len() {
            assert(s5[j] == s4[j]);
        } else {
            assert(s5[j] == rows_5()[j - s4.len()]);
        }
    }
    let ghost s6 = s5 + rows_6();
    assert forall|j: int| 0 <= j < s6.len() implies (#[trigger] s6[j]).key@.len() < 64 by {
        if j < s5.len() {
            assert(s6[j] == s5[j]);
        } else {
            assert(s6[j] == rows_6()[j - s5.len()]);
        }
    }
    let ghost s7 = s6 + rows_7();
    assert forall|j: int| 0 <= j < s7.len() implies (#[trigger] s7[j]).key@.len() < 64 by {
        if j < s6.len() {
            assert(s7[j] == s6[j]);
        } else {
            assert(s7[j] == rows_7()[j - s6.len()]);
        }
    }
    let ghost s8 = s7 + rows_8();
    assert forall|j: int| 0 <= j < s8.len() implies (#[trigger] s8[j]).key@.len() < 64 by {
        if j < s7.len() {
            assert(s8[j] == s7[j]);
        } else {
            assert(s8[j] == rows_8()[j - s7.len()]);
        }
    }
    let ghost s9 = s8 + rows_9();
    assert forall|j: int| 0 <= j < s9.len() implies (#[trigger] s9[j]).key@.len() < 64 by {
        if j < s8.len() {
            assert(s9[j] == s8[j]);
        } else {
            assert(s9[j] == rows_9()[j - s8.len()]);
        }
    }
    let ghost s10 = s9 + rows_10();
    assert forall|j: int| 0 <= j < s10.len() implies (#[trigger] s10[j]).key@.len() < 64 by {
        if j < s9.len() {
            assert(s10[j] == s9[j]);
        } else {
            assert(s10[j] == rows_10()[j - s9.len()]);
        }
    }
    assert(s10 == field_rows());
}


// ── The Format Reference ──

/// The contexts of `rows`, in order, with consecutive repeats removed.
pub open spec fn contexts_of(rows: Seq<Field>) -> Seq<Context>
    decreases rows.len(),
{
    if rows.len() == 0 {
        Seq::empty()
    } else {
        let p = contexts_of(rows.drop_last());
        if p.len() > 0 && p.last() == rows.last().context {
            p
        } else {
            p.push(rows.last().context)
        }
    }
}

/// The status column of a row.
pub open spec fn status_text(f: Field) -> Seq<char> {
    match f.status {
        Status::Live => Seq::empty(),
        Status::DeprecatedAlias => "deprecated — use `"@ + f.canonical@ + "`"@,
        Status::Removed => "**removed**"@,
    }
}

/// One table row.
pub open spec fn row_text(f: Field) -> Seq<char> {
    "| `"@ + f.key@ + "` | "@ + status_text(f) + " | "@ + f.doc@ + " |\n"@
}

pub open spec fn rows_text(rows: Seq<Field>) -> Seq<char>
    decreases rows.len(),
{
    if rows.len() == 0 {
        Seq::empty()
    } else {
        rows_text(rows.drop_last()) + row_text(rows.last())
    }
}

/// One section: a heading, the table header, the context's rows.
pub open spec fn section_text(rows: Seq<Field>, c: Context) -> Seq<char> {
    "## `"@ + context_label(c) + "`\n\n"@ + "| key | status | meaning |\n|---|---|---|\n"@
        + rows_text(rows_in(rows, c)) + "\n"@
}

pub open spec fn sections_text(rows: Seq<Field>, cs: Seq<Context>) -> Seq<char>
    decreases cs.len(),
{
    if cs.len() == 0 {
        Seq::empty()
    } else {
        sections_text(rows, cs.drop_last()) + section_text(rows, cs.last())
    }
}

/// The Format Reference: a preamble, then one section per context.
pub open spec fn format_reference(rows: Seq<Field>) -> Seq<char> {
    "# Contract File — Format Reference\n\n"@ + "**Generated from `types/src/field_table.rs`. Do not edit by hand** — run `UPDATE_FORMAT_REFERENCE=1 cargo test -p ros-launch-manifest-types` after changing the table.\n\nEvery key below is accepted in the context that heads its section, and **a key that is not listed is a parse error**. Contexts whose keys are chosen by the author — `nodes:`, `topics:`, `services:`, `actions:`, `includes:`, `paths:`, `args:`, `external_topics:`, and the endpoint maps under `pub:`/`sub:`/`srv:`/`cli:` — have no section here, because no allowlist applies to them.\n\n"@ + sections_text(rows, contexts_of(rows))
}

fn push_row(out: &mut String, f: Field)
    ensures
        final(out)@ == old(out)@ + row_text(f),
{
    push_str(out, "| `");
    push_str(out, f.key);
    push_str(out, "` | ");
    match f.status {
        Status::Live => {},
        Status::DeprecatedAlias => {
            push_str(out, "deprecated — use `");
            push_str(out, f.canonical);
            push_str(out, "`");
        },
        Status::Removed => {
            push_str(out, "**removed**");
        },
    }
    push_str(out, " | ");
    push_str(out, f.doc);
    push_str(out, " |\n");
    assert(final(out)@ =~= old(out)@ + row_text(f)) by {
        reveal_strlit("");
    }
}

/// Render the whole grammar as the Format Reference.
pub fn render_markdown() -> (r: String)
    ensures
        r@ == format_reference(field_rows()),
{
    let table = fields();
    let mut out = String::new();
    push_str(&mut out, "# Contract File — Format Reference\n\n");
    push_str(&mut out, "**Generated from `types/src/field_table.rs`. Do not edit by hand** — run `UPDATE_FORMAT_REFERENCE=1 cargo test -p ros-launch-manifest-types` after changing the table.\n\nEvery key below is accepted in the context that heads its section, and **a key that is not listed is a parse error**. Contexts whose keys are chosen by the author — `nodes:`, `topics:`, `services:`, `actions:`, `includes:`, `paths:`, `args:`, `external_topics:`, and the endpoint maps under `pub:`/`sub:`/`srv:`/`cli:` — have no section here, because no allowlist applies to them.\n\n");
    let ghost head = out@;
    // The contexts, consecutive repeats removed.
    let mut contexts: Vec<Context> = Vec::new();
    let mut i: usize = 0;
    assert(table@.take(0) =~= Seq::<Field>::empty());
    while i < table.len()
        invariant
            i <= table@.len(),
            table@ == field_rows(),
            contexts@ == contexts_of(table@.take(i as int)),
        decreases table@.len() - i,
    {
        assert(table@.take(i + 1).drop_last() =~= table@.take(i as int));
        let c = table[i].context;
        let n = contexts.len();
        if !(n > 0 && contexts[n - 1] == c) {
            contexts.push(c);
        }
        i += 1;
    }
    assert(table@.take(table@.len() as int) =~= table@);
    let mut k: usize = 0;
    assert(contexts@.take(0) =~= Seq::<Context>::empty());
    while k < contexts.len()
        invariant
            k <= contexts@.len(),
            table@ == field_rows(),
            contexts@ == contexts_of(field_rows()),
            out@ == head + sections_text(field_rows(), contexts@.take(k as int)),
        decreases contexts@.len() - k,
    {
        let c = contexts[k];
        let ghost before = out@;
        push_str(&mut out, "## `");
        push_str(&mut out, c.label());
        push_str(&mut out, "`\n\n");
        push_str(&mut out, "| key | status | meaning |\n|---|---|---|\n");
        let rows = allowed(c);
        let ghost mid = out@;
        let mut j: usize = 0;
        assert(rows@.take(0) =~= Seq::<Field>::empty());
        while j < rows.len()
            invariant
                j <= rows@.len(),
                out@ == mid + rows_text(rows@.take(j as int)),
            decreases rows@.len() - j,
        {
            assert(rows@.take(j + 1).drop_last() =~= rows@.take(j as int));
            push_row(&mut out, rows[j]);
            j += 1;
        }
        assert(rows@.take(rows@.len() as int) =~= rows@);
        push_str(&mut out, "\n");
        proof {
            assert(contexts@.take(k + 1).drop_last() =~= contexts@.take(k as int));
            assert(out@ =~= before + section_text(field_rows(), c));
        }
        k += 1;
    }
    assert(contexts@.take(contexts@.len() as int) =~= contexts@);
    out
}

} // verus!
