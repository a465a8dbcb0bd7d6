//! Manifest declarations, and the text of a manifest the condition filter
//! and the argument substitution work on: entity names, `if:`/`unless:`
//! conditions, endpoint references and the other substitutable strings.

use vstd::prelude::*;
use crate::decls::{DropCount, QosDecl};
use crate::cond::{included, should_include};
use crate::text::{to_chars, from_chars};

verus! {

// ── Declarations ──

/// Buffering discipline of a `state: true` subscription.
#[derive(Debug, Clone, Copy, PartialEq, Eq, Structural)]
pub enum Buffer {
    /// Read the latest sample; staleness is the failure mode (the default).
    Latest,
    /// A bounded queue drained by the consuming timer; backlog is the failure mode.
    Queue,
}

/// The side of a topic that a system outside the manifest tree provides.
#[derive(Debug, Clone, Copy, PartialEq, Eq, Structural)]
pub enum ExternalSide {
    /// The producer is external.
    Pub,
    /// The consumer is external.
    Sub,
    /// Both are external.
    Both,
}

/// Fan-in synchronization policy.
#[derive(Debug, Clone, Copy, PartialEq, Eq, Structural)]
pub enum SyncPolicy {
    /// Exact time match.
    Exact,
    /// Approximate time match.
    Approximate,
    /// Collect until a timeout, then publish the partial set.
    TimeoutAny,
}

/// How a chain composes its segments' latencies.
#[derive(Debug, Clone, Copy, PartialEq, Eq, Structural)]
pub enum ChainSemantics {
    /// First-reaction latency.
    Reaction,
    /// Data staleness at the sink.
    Age,
}

/// One segment of a chain: a scoped path, or the topic connecting two.
#[derive(Debug, Clone, PartialEq)]
pub enum ChainSegment {
    Path { scope: String, path: String },
    Via { via: String },
}

/// Drop tolerance.
#[derive(Debug, Clone)]
pub struct DropSpec {
    /// At most `n` drops per `w` messages.
    pub max_count: Option<DropCount>,
    /// At most this many consecutive drops.
    pub max_consecutive: Option<u32>,
}

/// Service declaration.
#[derive(Debug, Clone)]
pub struct ServiceDecl {
    pub if_condition: Option<String>,
    pub unless_condition: Option<String>,
    pub srv_type: String,
    pub server: Vec<String>,
    pub client: Vec<String>,
    /// The side that lives outside the manifest tree, when declared.
    pub external: Option<crate::path_fields::ExternalEndpointSide>,
}

/// Action declaration.
#[derive(Debug, Clone)]
pub struct ActionDecl {
    pub if_condition: Option<String>,
    pub unless_condition: Option<String>,
    pub action_type: String,
    pub server: Vec<String>,
    pub client: Vec<String>,
    /// The side that lives outside the manifest tree, when declared.
    pub external: Option<crate::path_fields::ExternalEndpointSide>,
}

/// A topic expected from, or consumed by, a system outside the manifest tree.
#[derive(Debug, Clone)]
pub struct ExternalTopicDecl {
    /// The side that is external.
    pub side: ExternalSide,
    /// The message type, when declared.
    pub msg_type: Option<String>,
    /// The QoS offered or requested, when declared.
    pub qos: Option<QosDecl>,
}

/// An I/O error, carried through as it is.
#[verifier::external_type_specification]
#[verifier::external_body]
pub struct ExIoError(std::io::Error);

/// Why a manifest could not be parsed.
#[derive(Debug)]
pub enum ParseError {
    Io(std::io::Error),
    YamlSyntax(String),
    Field { path: String, message: String },
}

/// The display text of an I/O error (`std::io::Error`'s `Display`). Its
/// wording is the operating system's and the standard library's, so
/// nothing is stated of it.
#[verifier::external_body]
fn io_error_text(e: &std::io::Error) -> String {
    e.to_string()
}

impl ParseError {
    /// The message this error reads as.
    pub fn message(&self) -> (r: String)
        ensures
            match self {
                ParseError::Io(_) => r@.len() >= 10 && r@.take(10) == "IO error: "@,
                ParseError::YamlSyntax(m) => r@ == "YAML syntax error: "@ + m@,
                ParseError::Field { path, message } => r@ == "at '"@ + path@ + "': "@ + message@,
            },
    {
        let mut s = String::new();
        match self {
            ParseError::Io(e) => {
                crate::text::push_str(&mut s, "IO error: ");
                let t = io_error_text(e);
                let ghost head = s@;
                crate::text::push_str(&mut s, t.as_str());
                proof {
                    reveal_strlit("IO error: ");
                    assert(s@.take(10) =~= head);
                }
            },
            ParseError::YamlSyntax(m) => {
                crate::text::push_str(&mut s, "YAML syntax error: ");
                crate::text::push_str(&mut s, m.as_str());
            },
            ParseError::Field { path, message } => {
                crate::text::push_str(&mut s, "at '");
                crate::text::push_str(&mut s, path.as_str());
                crate::text::push_str(&mut s, "': ");
                crate::text::push_str(&mut s, message.as_str());
            },
        }
        s
    }
}

// ── The text of a manifest ──

/// A path declaration's conditions and substitutable fields.
#[derive(Debug, Clone)]
pub struct PathText {
    pub if_condition: Option<String>,
    pub unless_condition: Option<String>,
    pub input: Vec<String>,
    pub output: Vec<String>,
    pub correlation: Option<String>,
    /// Trigger, fan-in, timing, drop and miss tolerances.
    pub contract: crate::path_decl::PathContract,
}

impl PathText {
    /// The trigger in effect: an explicit `trigger:` always wins; otherwise
    /// a non-empty `input:` list derives an input trigger; otherwise the
    /// path is unclassified.
    pub fn effective_trigger(&self) -> (r: crate::path_decl::EffectiveTrigger)
        ensures
            crate::path_decl::trigger_in_effect(self.contract.trigger, self.input@, r),
    {
        crate::path_decl::effective_of(&self.contract.trigger, &self.input)
    }
}

/// A node declaration's conditions and its paths.
#[derive(Debug, Clone)]
pub struct NodeText {
    pub if_condition: Option<String>,
    pub unless_condition: Option<String>,
    pub paths: Vec<(String, PathText)>,
    /// Lifecycle flag, endpoints, criticality and concurrency.
    pub endpoints: crate::node_decl::NodeEndpoints,
}

/// A topic declaration's conditions, type and endpoint references.
#[derive(Debug, Clone)]
pub struct TopicText {
    pub if_condition: Option<String>,
    pub unless_condition: Option<String>,
    pub msg_type: String,
    pub publishers: Vec<String>,
    pub subscribers: Vec<String>,
    /// QoS, rate, transport latency, drop tolerance and external side.
    pub extras: TopicExtras,
}

/// What a topic declares besides its type and endpoints.
#[derive(Debug, Clone)]
pub struct TopicExtras {
    pub qos: Option<crate::decls::QosDecl>,
    pub rate_hz: Option<crate::node_decl::NumberText>,
    pub max_transport: Option<crate::duration::Duration>,
    pub drop: Option<DropSpec>,
    pub external: Option<ExternalSide>,
}

/// A topic that declares nothing besides its type and endpoints.
pub open spec fn no_extras(x: TopicExtras) -> bool {
    x.qos is None && x.rate_hz is None && x.max_transport is None && x.drop is None && x.external is None
}

impl TopicExtras {
    /// Nothing declared.
    pub fn none() -> (r: Self)
        ensures
            no_extras(r),
    {
        TopicExtras { qos: None, rate_hz: None, max_transport: None, drop: None, external: None }
    }
}

/// Where an include comes from: a manifest file, or a scope written inline.
#[derive(Debug)]
pub enum IncludeKind {
    External { manifest: String },
    Inline(Box<ManifestText>),
}

/// An include declaration.
#[derive(Debug)]
pub struct IncludeText {
    pub if_condition: Option<String>,
    pub unless_condition: Option<String>,
    pub kind: IncludeKind,
}

/// The text of one manifest scope, each table by entry name ascending.
#[derive(Debug)]
pub struct ManifestText {
    pub nodes: Vec<(String, NodeText)>,
    pub topics: Vec<(String, TopicText)>,
    pub services: Vec<(String, ServiceDecl)>,
    pub actions: Vec<(String, ActionDecl)>,
    pub paths: Vec<(String, PathText)>,
    pub includes: Vec<(String, IncludeText)>,
    pub external_topics: Vec<(String, ExternalTopicDecl)>,
}

impl ManifestText {
    /// A scope with no entries.
    pub fn empty() -> (r: Self)
        ensures
            r.nodes@.len() == 0,
            r.topics@.len() == 0,
            r.services@.len() == 0,
            r.actions@.len() == 0,
            r.paths@.len() == 0,
            r.includes@.len() == 0,
            r.external_topics@.len() == 0,
    {
        ManifestText {
            nodes: Vec::new(),
            topics: Vec::new(),
            services: Vec::new(),
            actions: Vec::new(),
            paths: Vec::new(),
            includes: Vec::new(),
            external_topics: Vec::new(),
        }
    }
}

// ── Conditions ──

/// An optional string, by view.
pub open spec fn opt_view(o: Option<String>) -> Option<Seq<char>> {
    match o {
        Some(s) => Some(s@),
        None => None,
    }
}

/// An entity with these conditions survives the filter.
pub open spec fn kept(if_c: Option<String>, unless_c: Option<String>) -> bool {
    included(opt_view(if_c), opt_view(unless_c))
}

/// An entity with these conditions is conditional.
pub open spec fn gated(if_c: Option<String>, unless_c: Option<String>) -> bool {
    if_c is Some || unless_c is Some
}

/// Whether an entity with these conditions survives.
pub fn gate_keeps(if_c: &Option<String>, unless_c: &Option<String>) -> (r: bool)
    ensures
        r == kept(*if_c, *unless_c),
{
    let a: Option<&str> = match if_c {
        Some(s) => Some(s.as_str()),
        None => None,
    };
    let b: Option<&str> = match unless_c {
        Some(s) => Some(s.as_str()),
        None => None,
    };
    should_include(a, b)
}

// ── References ──

/// The owner a `owner/member` reference names: the text before its first
/// `/`, if it has one.
pub open spec fn ref_owner(r: Seq<char>) -> Option<Seq<char>>
    decreases r.len(),
{
    if r.len() == 0 {
        None
    } else if r[0] == '/' {
        Some(Seq::empty())
    } else {
        match ref_owner(r.drop_first()) {
            Some(o) => Some(seq![r[0]] + o),
            None => None,
        }
    }
}

/// A reference survives the cleanup unless it names an owner that is gone
/// and was conditional.
pub open spec fn ref_kept(r: Seq<char>, owners: Seq<Seq<char>>, conditional: Seq<Seq<char>>) -> bool {
    match ref_owner(r) {
        None => true,
        Some(o) => owners.contains(o) || !conditional.contains(o),
    }
}

/// The first `m` references that survive, in order.
pub open spec fn clean_refs(refs: Seq<String>, owners: Seq<Seq<char>>, conditional: Seq<Seq<char>>, m: int) -> Seq<
    String,
>
    decreases m,
{
    if m <= 0 {
        Seq::empty()
    } else if ref_kept(refs[m - 1]@, owners, conditional) {
        clean_refs(refs, owners, conditional, m - 1).push(refs[m - 1])
    } else {
        clean_refs(refs, owners, conditional, m - 1)
    }
}

/// All references that survive.
pub open spec fn cleaned(refs: Seq<String>, owners: Seq<Seq<char>>, conditional: Seq<Seq<char>>) -> Seq<String> {
    clean_refs(refs, owners, conditional, refs.len() as int)
}

/// The owner `r` names, if any: the text before its first `/`.
pub fn owner_of(r: &str) -> (o: Option<String>)
    ensures
        opt_view(o) == ref_owner(r@),
{
    let v = to_chars(r);
    let mut i: usize = 0;
    while i < v.len()
        invariant
            i <= v@.len(),
            v@ == r@,
            forall|j: int| 0 <= j < i ==> v@[j] != '/',
        decreases v@.len() - i,
    {
        if v[i] == '/' {
            proof {
                lemma_owner_at(v@, i as int);
            }
            return Some(from_chars(&v.as_slice()[0..i]));
        }
        i += 1;
    }
    proof {
        lemma_no_owner(v@);
    }
    None
}

proof fn lemma_owner_at(r: Seq<char>, i: int)
    requires
        0 <= i < r.len(),
        r[i] == '/',
        forall|j: int| 0 <= j < i ==> r[j] != '/',
    ensures
        ref_owner(r) == Some(r.take(i)),
    decreases i,
{
    if i > 0 {
        lemma_owner_at(r.drop_first(), i - 1);
        assert(seq![r[0]] + r.drop_first().take(i - 1) =~= r.take(i));
    } else {
        assert(r.take(0) =~= Seq::<char>::empty());
    }
}

proof fn lemma_no_owner(r: Seq<char>)
    requires
        forall|j: int| 0 <= j < r.len() ==> r[j] != '/',
    ensures
        ref_owner(r) is None,
    decreases r.len(),
{
    if r.len() > 0 {
        lemma_no_owner(r.drop_first());
    }
}

/// Does `names` hold `n`?
fn holds(names: &Vec<String>, n: &str) -> (r: bool)
    ensures
        r == crate::realize::string_views(names@).contains(n@),
{
    let r = crate::assoc::names_contain(names.as_slice(), n);
    assert(names@.map_values(|s: String| s@) =~= crate::realize::string_views(names@));
    r
}

/// The references of `refs` that survive, in order.
pub fn clean_ref_list(refs: &Vec<String>, owners: &Vec<String>, conditional: &Vec<String>) -> (r: Vec<
    String,
>)
    ensures
        r@ == cleaned(
            refs@,
            crate::realize::string_views(owners@),
            crate::realize::string_views(conditional@),
        ),
{
    let ghost ov = crate::realize::string_views(owners@);
    let ghost cv = crate::realize::string_views(conditional@);
    let mut out: Vec<String> = Vec::new();
    let mut i: usize = 0;
    while i < refs.len()
        invariant
            i <= refs@.len(),
            ov == crate::realize::string_views(owners@),
            cv == crate::realize::string_views(conditional@),
            out@ == clean_refs(refs@, ov, cv, i as int),
        decreases refs@.len() - i,
    {
        let keep = match owner_of(refs[i].as_str()) {
            None => true,
            Some(o) => holds(owners, o.as_str()) || !holds(conditional, o.as_str()),
        };
        if keep {
            out.push(refs[i].clone());
        }
        i += 1;
    }
    out
}


// ── The condition filter ──

/// The entries among the first `m` of `s` whose value satisfies `p`, in order.
pub open spec fn sift<T>(s: Seq<(String, T)>, p: spec_fn(T) -> bool, m: int) -> Seq<(String, T)>
    decreases m,
{
    if m <= 0 {
        Seq::empty()
    } else if p(s[m - 1].1) {
        sift(s, p, m - 1).push(s[m - 1])
    } else {
        sift(s, p, m - 1)
    }
}

/// How many of the first `m` entries of `s` satisfy `p`.
pub open spec fn count<T>(s: Seq<(String, T)>, p: spec_fn(T) -> bool, m: int) -> int
    decreases m,
{
    if m <= 0 {
        0
    } else if p(s[m - 1].1) {
        count(s, p, m - 1) + 1
    } else {
        count(s, p, m - 1)
    }
}

/// The names of the first `m` entries of `s` whose value satisfies `p`.
pub open spec fn names_where<T>(s: Seq<(String, T)>, p: spec_fn(T) -> bool, m: int) -> Seq<Seq<char>>
    decreases m,
{
    if m <= 0 {
        Seq::empty()
    } else if p(s[m - 1].1) {
        names_where(s, p, m - 1).push(s[m - 1].0@)
    } else {
        names_where(s, p, m - 1)
    }
}

pub open spec fn path_kept(p: PathText) -> bool {
    kept(p.if_condition, p.unless_condition)
}

pub open spec fn node_kept(n: NodeText) -> bool {
    kept(n.if_condition, n.unless_condition)
}

pub open spec fn node_gated(n: NodeText) -> bool {
    gated(n.if_condition, n.unless_condition)
}

pub open spec fn include_kept(i: IncludeText) -> bool {
    kept(i.if_condition, i.unless_condition)
}

pub open spec fn include_gated(i: IncludeText) -> bool {
    gated(i.if_condition, i.unless_condition)
}

/// `n` is path `o` with its conditions cleared.
pub open spec fn path_cleared(o: (String, PathText), n: (String, PathText)) -> bool {
    &&& n.0 == o.0
    &&& n.1.if_condition is None
    &&& n.1.unless_condition is None
    &&& n.1.input == o.1.input
    &&& n.1.output == o.1.output
    &&& n.1.correlation == o.1.correlation
    &&& n.1.contract == o.1.contract
}

/// `n` holds the paths of `o` that survive, conditions cleared.
pub open spec fn paths_filtered(o: Seq<(String, PathText)>, n: Seq<(String, PathText)>) -> bool {
    let s = sift(o, |p: PathText| path_kept(p), o.len() as int);
    &&& n.len() == s.len()
    &&& forall|k: int| 0 <= k < n.len() ==> path_cleared(s[k], #[trigger] n[k])
}

/// `n` is node `o` with its conditions cleared and its paths filtered.
pub open spec fn node_cleared(o: (String, NodeText), n: (String, NodeText)) -> bool {
    &&& n.0 == o.0
    &&& n.1.if_condition is None
    &&& n.1.unless_condition is None
    &&& paths_filtered(o.1.paths@, n.1.paths@)
    &&& n.1.endpoints == o.1.endpoints
}

/// `n` holds the nodes of `o` that survive, cleared.
pub open spec fn nodes_filtered(o: Seq<(String, NodeText)>, n: Seq<(String, NodeText)>) -> bool {
    let s = sift(o, |x: NodeText| node_kept(x), o.len() as int);
    &&& n.len() == s.len()
    &&& forall|k: int| 0 <= k < n.len() ==> node_cleared(s[k], #[trigger] n[k])
}

/// A topic survives its conditions and keeps a reference after the cleanup.
pub open spec fn topic_survives(t: TopicText, ov: Seq<Seq<char>>, cv: Seq<Seq<char>>) -> bool {
    &&& kept(t.if_condition, t.unless_condition)
    &&& (cleaned(t.publishers@, ov, cv).len() > 0 || cleaned(t.subscribers@, ov, cv).len() > 0)
}

/// `n` is topic `o` with its conditions cleared and its references cleaned.
pub open spec fn topic_cleared(o: (String, TopicText), n: (String, TopicText), ov: Seq<Seq<char>>, cv: Seq<Seq<char>>) -> bool {
    &&& n.0 == o.0
    &&& n.1.if_condition is None
    &&& n.1.unless_condition is None
    &&& n.1.msg_type == o.1.msg_type
    &&& n.1.publishers@ == cleaned(o.1.publishers@, ov, cv)
    &&& n.1.subscribers@ == cleaned(o.1.subscribers@, ov, cv)
    &&& n.1.extras == o.1.extras
}

pub open spec fn topics_filtered(o: Seq<(String, TopicText)>, n: Seq<(String, TopicText)>, ov: Seq<Seq<char>>, cv: Seq<Seq<char>>) -> bool {
    let s = sift(o, |t: TopicText| topic_survives(t, ov, cv), o.len() as int);
    &&& n.len() == s.len()
    &&& forall|k: int| 0 <= k < n.len() ==> topic_cleared(s[k], #[trigger] n[k], ov, cv)
}

pub open spec fn service_survives(t: ServiceDecl, ov: Seq<Seq<char>>, cv: Seq<Seq<char>>) -> bool {
    &&& kept(t.if_condition, t.unless_condition)
    &&& (cleaned(t.server@, ov, cv).len() > 0 || cleaned(t.client@, ov, cv).len() > 0)
}

pub open spec fn service_cleared(o: (String, ServiceDecl), n: (String, ServiceDecl), ov: Seq<Seq<char>>, cv: Seq<Seq<char>>) -> bool {
    &&& n.0 == o.0
    &&& n.1.if_condition is None
    &&& n.1.unless_condition is None
    &&& n.1.srv_type == o.1.srv_type
    &&& n.1.server@ == cleaned(o.1.server@, ov, cv)
    &&& n.1.client@ == cleaned(o.1.client@, ov, cv)
    &&& n.1.external == o.1.external
}

pub open spec fn services_filtered(o: Seq<(String, ServiceDecl)>, n: Seq<(String, ServiceDecl)>, ov: Seq<Seq<char>>, cv: Seq<Seq<char>>) -> bool {
    let s = sift(o, |t: ServiceDecl| service_survives(t, ov, cv), o.len() as int);
    &&& n.len() == s.len()
    &&& forall|k: int| 0 <= k < n.len() ==> service_cleared(s[k], #[trigger] n[k], ov, cv)
}

pub open spec fn action_survives(t: ActionDecl, ov: Seq<Seq<char>>, cv: Seq<Seq<char>>) -> bool {
    &&& kept(t.if_condition, t.unless_condition)
    &&& (cleaned(t.server@, ov, cv).len() > 0 || cleaned(t.client@, ov, cv).len() > 0)
}

pub open spec fn action_cleared(o: (String, ActionDecl), n: (String, ActionDecl), ov: Seq<Seq<char>>, cv: Seq<Seq<char>>) -> bool {
    &&& n.0 == o.0
    &&& n.1.if_condition is None
    &&& n.1.unless_condition is None
    &&& n.1.action_type == o.1.action_type
    &&& n.1.server@ == cleaned(o.1.server@, ov, cv)
    &&& n.1.client@ == cleaned(o.1.client@, ov, cv)
    &&& n.1.external == o.1.external
}

pub open spec fn actions_filtered(o: Seq<(String, ActionDecl)>, n: Seq<(String, ActionDecl)>, ov: Seq<Seq<char>>, cv: Seq<Seq<char>>) -> bool {
    let s = sift(o, |t: ActionDecl| action_survives(t, ov, cv), o.len() as int);
    &&& n.len() == s.len()
    &&& forall|k: int| 0 <= k < n.len() ==> action_cleared(s[k], #[trigger] n[k], ov, cv)
}

/// The owners a reference can name after the filter: the surviving nodes
/// and includes.
pub open spec fn owners_of(n: ManifestText) -> Seq<Seq<char>> {
    crate::assoc::key_views(n.nodes@) + crate::assoc::key_views(n.includes@)
}

/// The nodes and includes that carried a condition before the filter.
pub open spec fn conditional_of(o: ManifestText) -> Seq<Seq<char>> {
    names_where(o.nodes@, |x: NodeText| node_gated(x), o.nodes@.len() as int) + names_where(
        o.includes@,
        |x: IncludeText| include_gated(x),
        o.includes@.len() as int,
    )
}

/// `n` is scope `o` filtered: every entity whose conditions fail is gone
/// (nested inline scopes too), every survivor's conditions are cleared,
/// references into an owner that a condition removed are dropped, and a
/// topic, service or action left with no reference at all is dropped.
pub open spec fn filtered(o: ManifestText, n: ManifestText) -> bool
    decreases o,
{
    let ov = owners_of(n);
    let cv = conditional_of(o);
    let inc = o.includes@;
    &&& nodes_filtered(o.nodes@, n.nodes@)
    &&& topics_filtered(o.topics@, n.topics@, ov, cv)
    &&& services_filtered(o.services@, n.services@, ov, cv)
    &&& actions_filtered(o.actions@, n.actions@, ov, cv)
    &&& paths_filtered(o.paths@, n.paths@)
    &&& n.external_topics == o.external_topics
    &&& n.includes@.len() == count(inc, |x: IncludeText| include_kept(x), inc.len() as int)
    &&& forall|j: int|
        0 <= j < inc.len() && include_kept((#[trigger] inc[j]).1) ==> {
            let f = n.includes@[count(inc, |x: IncludeText| include_kept(x), j)];
            &&& f.0 == inc[j].0
            &&& f.1.if_condition is None
            &&& f.1.unless_condition is None
            &&& match inc[j].1.kind {
                IncludeKind::External { manifest } => f.1.kind is External && f.1.kind->manifest
                    == manifest,
                IncludeKind::Inline(x) => f.1.kind is Inline && {
                    proof {
                        assert(decreases_to!(o => o.includes));
                        assert(decreases_to!(o.includes => inc));
                        assert(decreases_to!(inc => inc[j]));
                    }
                    filtered(*x, *f.1.kind->0)
                },
            }
        }
}


/// `f` is include `e` after the filter: conditions cleared, an inline
/// scope filtered in turn.
pub open spec fn include_done(e: (String, IncludeText), f: (String, IncludeText)) -> bool {
    &&& f.0 == e.0
    &&& f.1.if_condition is None
    &&& f.1.unless_condition is None
    &&& match e.1.kind {
        IncludeKind::External { manifest } => f.1.kind is External && f.1.kind->manifest == manifest,
        IncludeKind::Inline(x) => f.1.kind is Inline && filtered(*x, *f.1.kind->0),
    }
}

fn filter_paths(v: Vec<(String, PathText)>) -> (r: Vec<(String, PathText)>)
    ensures
        paths_filtered(v@, r@),
{
    let ghost orig = v@;
    let ghost p = |x: PathText| path_kept(x);
    let mut rest = v;
    let mut out: Vec<(String, PathText)> = Vec::new();
    let total = rest.len();
    let mut i: usize = 0;
    while rest.len() > 0
        invariant
            i + rest@.len() == orig.len(),
            i <= orig.len(),
            total == orig.len(),
            rest@ == orig.skip(i as int),
            p == (|x: PathText| path_kept(x)),
            out@.len() == sift(orig, p, i as int).len(),
            forall|k: int| 0 <= k < out@.len() ==> path_cleared(sift(orig, p, i as int)[k], #[trigger] out@[k]),
        decreases rest@.len(),
    {
        assert(rest@[0] == orig[i as int]);
        let (name, x) = rest.remove(0);
        if gate_keeps(&x.if_condition, &x.unless_condition) {
            out.push((name, PathText {
                if_condition: None,
                unless_condition: None,
                input: x.input,
                output: x.output,
                correlation: x.correlation,
                contract: x.contract,
            }));
        }
        i += 1;
        assert(rest@ =~= orig.skip(i as int));
    }
    assert(orig.len() == i);
    out
}

fn filter_nodes(v: Vec<(String, NodeText)>) -> (r: Vec<(String, NodeText)>)
    ensures
        nodes_filtered(v@, r@),
{
    let ghost orig = v@;
    let ghost p = |x: NodeText| node_kept(x);
    let mut rest = v;
    let mut out: Vec<(String, NodeText)> = Vec::new();
    let total = rest.len();
    let mut i: usize = 0;
    while rest.len() > 0
        invariant
            i + rest@.len() == orig.len(),
            i <= orig.len(),
            total == orig.len(),
            rest@ == orig.skip(i as int),
            p == (|x: NodeText| node_kept(x)),
            out@.len() == sift(orig, p, i as int).len(),
            forall|k: int| 0 <= k < out@.len() ==> node_cleared(sift(orig, p, i as int)[k], #[trigger] out@[k]),
        decreases rest@.len(),
    {
        assert(rest@[0] == orig[i as int]);
        let (name, x) = rest.remove(0);
        if gate_keeps(&x.if_condition, &x.unless_condition) {
            let paths = filter_paths(x.paths);
            out.push((name, NodeText { if_condition: None, unless_condition: None, paths, endpoints: x.endpoints }));
        }
        i += 1;
        assert(rest@ =~= orig.skip(i as int));
    }
    assert(orig.len() == i);
    out
}

fn filter_topics(v: Vec<(String, TopicText)>, owners: &Vec<String>, conditional: &Vec<String>) -> (r: Vec<
    (String, TopicText),
>)
    ensures
        topics_filtered(
            v@,
            r@,
            crate::realize::string_views(owners@),
            crate::realize::string_views(conditional@),
        ),
{
    let ghost ov = crate::realize::string_views(owners@);
    let ghost cv = crate::realize::string_views(conditional@);
    let ghost orig = v@;
    let ghost p = |t: TopicText| topic_survives(t, ov, cv);
    let mut rest = v;
    let mut out: Vec<(String, TopicText)> = Vec::new();
    let total = rest.len();
    let mut i: usize = 0;
    while rest.len() > 0
        invariant
            i + rest@.len() == orig.len(),
            i <= orig.len(),
            total == orig.len(),
            rest@ == orig.skip(i as int),
            ov == crate::realize::string_views(owners@),
            cv == crate::realize::string_views(conditional@),
            p == (|t: TopicText| topic_survives(t, ov, cv)),
            out@.len() == sift(orig, p, i as int).len(),
            forall|k: int|
                0 <= k < out@.len() ==> topic_cleared(sift(orig, p, i as int)[k], #[trigger] out@[k], ov, cv),
        decreases rest@.len(),
    {
        assert(rest@[0] == orig[i as int]);
        let (name, x) = rest.remove(0);
        if gate_keeps(&x.if_condition, &x.unless_condition) {
            let publishers = clean_ref_list(&x.publishers, owners, conditional);
            let subscribers = clean_ref_list(&x.subscribers, owners, conditional);
            if publishers.len() > 0 || subscribers.len() > 0 {
                out.push(
                    (name, TopicText {
                        if_condition: None,
                        unless_condition: None,
                        msg_type: x.msg_type,
                        publishers,
                        subscribers,
                        extras: x.extras,
                    }),
                );
            }
        }
        i += 1;
        assert(rest@ =~= orig.skip(i as int));
    }
    assert(orig.len() == i);
    out
}

fn filter_services(v: Vec<(String, ServiceDecl)>, owners: &Vec<String>, conditional: &Vec<String>) -> (r:
    Vec<(String, ServiceDecl)>)
    ensures
        services_filtered(
            v@,
            r@,
            crate::realize::string_views(owners@),
            crate::realize::string_views(conditional@),
        ),
{
    let ghost ov = crate::realize::string_views(owners@);
    let ghost cv = crate::realize::string_views(conditional@);
    let ghost orig = v@;
    let ghost p = |t: ServiceDecl| service_survives(t, ov, cv);
    let mut rest = v;
    let mut out: Vec<(String, ServiceDecl)> = Vec::new();
    let total = rest.len();
    let mut i: usize = 0;
    while rest.len() > 0
        invariant
            i + rest@.len() == orig.len(),
            i <= orig.len(),
            total == orig.len(),
            rest@ == orig.skip(i as int),
            ov == crate::realize::string_views(owners@),
            cv == crate::realize::string_views(conditional@),
            p == (|t: ServiceDecl| service_survives(t, ov, cv)),
            out@.len() == sift(orig, p, i as int).len(),
            forall|k: int|
                0 <= k < out@.len() ==> service_cleared(sift(orig, p, i as int)[k], #[trigger] out@[k], ov, cv),
        decreases rest@.len(),
    {
        assert(rest@[0] == orig[i as int]);
        let (name, x) = rest.remove(0);
        if gate_keeps(&x.if_condition, &x.unless_condition) {
            let server = clean_ref_list(&x.server, owners, conditional);
            let client = clean_ref_list(&x.client, owners, conditional);
            if server.len() > 0 || client.len() > 0 {
                out.push(
                    (name, ServiceDecl {
                        if_condition: None,
                        unless_condition: None,
                        srv_type: x.srv_type,
                        server,
                        client,
                        external: x.external,
                    }),
                );
            }
        }
        i += 1;
        assert(rest@ =~= orig.skip(i as int));
    }
    assert(orig.len() == i);
    out
}

fn filter_actions(v: Vec<(String, ActionDecl)>, owners: &Vec<String>, conditional: &Vec<String>) -> (r:
    Vec<(String, ActionDecl)>)
    ensures
        actions_filtered(
            v@,
            r@,
            crate::realize::string_views(owners@),
            crate::realize::string_views(conditional@),
        ),
{
    let ghost ov = crate::realize::string_views(owners@);
    let ghost cv = crate::realize::string_views(conditional@);
    let ghost orig = v@;
    let ghost p = |t: ActionDecl| action_survives(t, ov, cv);
    let mut rest = v;
    let mut out: Vec<(String, ActionDecl)> = Vec::new();
    let total = rest.len();
    let mut i: usize = 0;
    while rest.len() > 0
        invariant
            i + rest@.len() == orig.len(),
            i <= orig.len(),
            total == orig.len(),
            rest@ == orig.skip(i as int),
            ov == crate::realize::string_views(owners@),
            cv == crate::realize::string_views(conditional@),
            p == (|t: ActionDecl| action_survives(t, ov, cv)),
            out@.len() == sift(orig, p, i as int).len(),
            forall|k: int|
                0 <= k < out@.len() ==> action_cleared(sift(orig, p, i as int)[k], #[trigger] out@[k], ov, cv),
        decreases rest@.len(),
    {
        assert(rest@[0] == orig[i as int]);
        let (name, x) = rest.remove(0);
        if gate_keeps(&x.if_condition, &x.unless_condition) {
            let server = clean_ref_list(&x.server, owners, conditional);
            let client = clean_ref_list(&x.client, owners, conditional);
            if server.len() > 0 || client.len() > 0 {
                out.push(
                    (name, ActionDecl {
                        if_condition: None,
                        unless_condition: None,
                        action_type: x.action_type,
                        server,
                        client,
                        external: x.external,
                    }),
                );
            }
        }
        i += 1;
        assert(rest@ =~= orig.skip(i as int));
    }
    assert(orig.len() == i);
    out
}


fn gated_node_names(v: &Vec<(String, NodeText)>) -> (r: Vec<String>)
    ensures
        crate::realize::string_views(r@) == names_where(v@, |x: NodeText| node_gated(x), v@.len() as int),
{
    let ghost p = |x: NodeText| node_gated(x);
    let mut out: Vec<String> = Vec::new();
    let mut i: usize = 0;
    while i < v.len()
        invariant
            i <= v@.len(),
            p == (|x: NodeText| node_gated(x)),
            crate::realize::string_views(out@) == names_where(v@, p, i as int),
        decreases v@.len() - i,
    {
        if v[i].1.if_condition.is_some() || v[i].1.unless_condition.is_some() {
            out.push(v[i].0.clone());
            assert(crate::realize::string_views(out@) =~= names_where(v@, p, i + 1));
        }
        i += 1;
    }
    out
}

fn gated_include_names(v: &Vec<(String, IncludeText)>) -> (r: Vec<String>)
    ensures
        crate::realize::string_views(r@) == names_where(v@, |x: IncludeText| include_gated(x), v@.len() as int),
{
    let ghost p = |x: IncludeText| include_gated(x);
    let mut out: Vec<String> = Vec::new();
    let mut i: usize = 0;
    while i < v.len()
        invariant
            i <= v@.len(),
            p == (|x: IncludeText| include_gated(x)),
            crate::realize::string_views(out@) == names_where(v@, p, i as int),
        decreases v@.len() - i,
    {
        if v[i].1.if_condition.is_some() || v[i].1.unless_condition.is_some() {
            out.push(v[i].0.clone());
            assert(crate::realize::string_views(out@) =~= names_where(v@, p, i + 1));
        }
        i += 1;
    }
    out
}

/// Append the entry names of `v` to `out`.
fn push_entry_names<T>(out: &mut Vec<String>, v: &Vec<(String, T)>)
    ensures
        crate::realize::string_views(final(out)@) == crate::realize::string_views(old(out)@)
            + crate::assoc::key_views(v@),
{
    let ghost start = crate::realize::string_views(out@);
    let mut i: usize = 0;
    while i < v.len()
        invariant
            i <= v@.len(),
            crate::realize::string_views(out@) == start + crate::assoc::key_views(v@).take(i as int),
        decreases v@.len() - i,
    {
        let ghost before = out@;
        out.push(v[i].0.clone());
        assert(crate::realize::string_views(out@) =~= crate::realize::string_views(before).push(v@[i as int].0@));
        assert(crate::assoc::key_views(v@).take(i + 1) =~= crate::assoc::key_views(v@).take(i as int).push(v@[i as int].0@));
        assert(crate::realize::string_views(out@) =~= start + crate::assoc::key_views(v@).take(i + 1));
        i += 1;
    }
    assert(crate::assoc::key_views(v@).take(i as int) =~= crate::assoc::key_views(v@));
}

proof fn lemma_count_step<T>(s: Seq<(String, T)>, p: spec_fn(T) -> bool, m: int)
    requires
        0 <= m,
    ensures
        0 <= count(s, p, m) <= m,
    decreases m,
{
    if m > 0 {
        lemma_count_step(s, p, m - 1);
    }
}

proof fn lemma_count_monotone<T>(s: Seq<(String, T)>, p: spec_fn(T) -> bool, a: int, b: int)
    requires
        0 <= a <= b,
    ensures
        count(s, p, a) <= count(s, p, b),
        a < b && p(s[a].1) ==> count(s, p, a) < count(s, p, b),
    decreases b - a,
{
    if a < b {
        lemma_count_monotone(s, p, a, b - 1);
        if a < b - 1 && p(s[a].1) {
            lemma_count_monotone(s, p, a + 1, b - 1);
        }
    }
}

proof fn lemma_includes_step(
    inc: Seq<(String, IncludeText)>,
    p: spec_fn(IncludeText) -> bool,
    j: int,
    before: Seq<(String, IncludeText)>,
    after: Seq<(String, IncludeText)>,
)
    requires
        0 <= j < inc.len(),
        p == (|x: IncludeText| include_kept(x)),
        before.len() == count(inc, p, j),
        forall|jj: int|
            0 <= jj < j && include_kept((#[trigger] inc[jj]).1) ==> include_done(
                inc[jj],
                before[count(inc, p, jj)],
            ),
        include_kept(inc[j].1) ==> after.len() == before.len() + 1 && after.take(before.len() as int)
            == before && include_done(inc[j], after[before.len() as int]),
        !include_kept(inc[j].1) ==> after == before,
    ensures
        after.len() == count(inc, p, j + 1),
        forall|jj: int|
            0 <= jj < j + 1 && include_kept((#[trigger] inc[jj]).1) ==> include_done(
                inc[jj],
                after[count(inc, p, jj)],
            ),
{
    lemma_count_step(inc, p, j);
    assert(p(inc[j].1) == include_kept(inc[j].1));
    assert forall|jj: int|
        0 <= jj < j + 1 && include_kept((#[trigger] inc[jj]).1) implies include_done(
        inc[jj],
        after[count(inc, p, jj)],
    ) by {
        if jj < j {
            assert(p(inc[jj].1) == include_kept(inc[jj].1));
            lemma_count_monotone(inc, p, jj, j);
            lemma_count_step(inc, p, jj);
            if include_kept(inc[j].1) {
                assert(after[count(inc, p, jj)] == after.take(before.len() as int)[count(inc, p, jj)]);
            }
        }
    }
}

/// The scope `m` filtered; see [`filtered`].
fn filter_scope(m: ManifestText) -> (r: ManifestText)
    ensures
        filtered(m, r),
    decreases m,
{
    let ghost orig = m;
    let mut conditional = gated_node_names(&m.nodes);
    let more = gated_include_names(&m.includes);
    let mut k: usize = 0;
    let ghost c0 = crate::realize::string_views(conditional@);
    while k < more.len()
        invariant
            k <= more@.len(),
            crate::realize::string_views(conditional@) == c0 + crate::realize::string_views(more@).take(k as int),
        decreases more@.len() - k,
    {
        let ghost before = conditional@;
        conditional.push(more[k].clone());
        assert(crate::realize::string_views(conditional@) =~= crate::realize::string_views(before).push(more@[k as int]@));
        assert(crate::realize::string_views(more@).take(k + 1) =~= crate::realize::string_views(more@).take(k as int).push(more@[k as int]@));
        assert(crate::realize::string_views(conditional@) =~= c0 + crate::realize::string_views(more@).take(k + 1));
        k += 1;
    }
    assert(crate::realize::string_views(more@).take(k as int) =~= crate::realize::string_views(more@));
    assert(crate::realize::string_views(conditional@) == conditional_of(orig));
    let ManifestText { nodes, topics, services, actions, paths, includes, external_topics } = m;
    let nodes = filter_nodes(nodes);
    let paths = filter_paths(paths);
    // Includes, recursing into the inline scopes that survive.
    let ghost inc = orig.includes@;
    let ghost p = |x: IncludeText| include_kept(x);
    let mut rest = includes;
    let mut incs: Vec<(String, IncludeText)> = Vec::new();
    let total = rest.len();
    let mut j: usize = 0;
    #[verifier::loop_isolation(false)]
    while rest.len() > 0
        invariant
            j + rest@.len() == inc.len(),
            j <= inc.len(),
            total == inc.len(),
            inc == orig.includes@,
            rest@ == inc.skip(j as int),
            p == (|x: IncludeText| include_kept(x)),
            incs@.len() == count(inc, p, j as int),
            forall|jj: int|
                0 <= jj < j && include_kept((#[trigger] inc[jj]).1) ==> include_done(
                    inc[jj],
                    incs@[count(inc, p, jj)],
                ),
        decreases rest@.len(),
    {
        assert(rest@[0] == inc[j as int]);
        let ghost before = incs@;
        let (name, x) = rest.remove(0);
        assert((name, x) == inc[j as int]);
        proof {
            lemma_count_step(inc, p, j as int);
        }
        if gate_keeps(&x.if_condition, &x.unless_condition) {
            let kind = match x.kind {
                IncludeKind::External { manifest } => IncludeKind::External { manifest },
                IncludeKind::Inline(b) => {
                    proof {
                        assert(inc[j as int].1.kind == IncludeKind::Inline(b));
                        assert(decreases_to!(orig => orig.includes));
                        assert(decreases_to!(orig.includes => inc));
                        assert(decreases_to!(inc => inc[j as int]));
                        assert(decreases_to!(inc[j as int] => inc[j as int].1));
                        assert(decreases_to!(inc[j as int].1 => inc[j as int].1.kind));
                        assert(decreases_to!(inc[j as int].1.kind => *b));
                        assert(decreases_to!(orig => *b));
                    }
                    let inner = filter_scope(*b);
                    IncludeKind::Inline(Box::new(inner))
                },
            };
            incs.push((name, IncludeText { if_condition: None, unless_condition: None, kind }));
            assert(incs@.take(before.len() as int) =~= before);
            proof {
                lemma_includes_step(inc, p, j as int, before, incs@);
            }
        } else {
            proof {
                lemma_includes_step(inc, p, j as int, before, incs@);
            }
        }
        j += 1;
        assert(rest@ =~= inc.skip(j as int));
    }
    // The owners a reference can name now.
    let mut owners: Vec<String> = Vec::new();
    push_entry_names(&mut owners, &nodes);
    push_entry_names(&mut owners, &incs);
    assert(crate::realize::string_views(owners@) =~= crate::assoc::key_views(nodes@) + crate::assoc::key_views(incs@));
    let topics = filter_topics(topics, &owners, &conditional);
    let services = filter_services(services, &owners, &conditional);
    let actions = filter_actions(actions, &owners, &conditional);
    ManifestText { nodes, topics, services, actions, paths, includes: incs, external_topics }
}

/// Filter a manifest in place: drop every entity whose `if:`/`unless:`
/// conditions fail (inside inline includes too), clear the conditions of
/// the survivors, drop references into owners a condition removed, and
/// drop topics, services and actions left with no reference.
pub fn filter_manifest(manifest: &mut ManifestText)
    ensures
        filtered(*old(manifest), *final(manifest)),
{
    let mut taken = ManifestText::empty();
    std::mem::swap(manifest, &mut taken);
    *manifest = filter_scope(taken);
}

} // verus!
