//! Blocks a path or node declares beside its timing: deadline-miss
//! handling, which paths may run concurrently, and which side of a service
//! or action lies outside the manifest tree.

use vstd::prelude::*;
use crate::decls::{DropCount, drop_count_outcome};
use crate::field_table::Context;
use crate::manifest::ParseError;
use crate::text::{nat_text, push_nat, push_str, str_eq};
use crate::yaml_fields::{
    YamlNode, field, field_of, field_err, format_path, path_text, is_field_err, type_err_text,
    scalar_text, yaml_str_owned, yaml_string, yaml_u32, reject_unknown_keys, keys_measurable,
    accepts_keys, key_refused, lemma_keys_checked, count_of,
};

verus! {

// ── Deadline misses ──

/// What a path does after a deadline miss.
#[derive(Debug, Clone, Copy, PartialEq, Eq, Structural)]
pub enum MissAction {
    /// Keep running as if on time.
    Continue,
    /// Drop the next activation to catch up.
    SkipNext,
    /// Stop the path.
    Abort,
}

/// Deadline-miss tolerance and handling.
#[derive(Debug, Clone, PartialEq)]
pub struct MissSpec {
    /// At most `n` misses per `w` activations.
    pub tolerate: Option<DropCount>,
    /// At most this many consecutive misses.
    pub consecutive: Option<u32>,
    /// What to do on a miss.
    pub action: Option<MissAction>,
}

/// The action a name selects.
pub open spec fn action_named(t: Seq<char>) -> Option<MissAction> {
    if t == "continue"@ {
        Some(MissAction::Continue)
    } else if t == "skip_next"@ {
        Some(MissAction::SkipNext)
    } else if t == "abort"@ {
        Some(MissAction::Abort)
    } else {
        None
    }
}

/// What the full `miss:` block reads as, its keys all defined: the
/// tolerance, the consecutive bound and the action, or the path and message
/// of the first error, in the order they are read (`tolerate`, `action`,
/// `consecutive`).
pub open spec fn miss_read(section: YamlNode, here: Seq<char>) -> Result<MissSpec, (Seq<char>, Seq<char>)> {
    let tolerate: Result<Option<DropCount>, (Seq<char>, Seq<char>)> = match field_of(section, "tolerate"@) {
        None | Some(YamlNode::Null) => Ok(None),
        Some(YamlNode::String(t)) => match drop_count_outcome(t@) {
            Ok(_) => Ok(count_of(t@)),
            Err(m) => Err((path_text(here, "tolerate"@), m)),
        },
        Some(other) => Err((path_text(here, "tolerate"@), type_err_text("a string"@, other))),
    };
    let action: Result<Option<MissAction>, (Seq<char>, Seq<char>)> = match field_of(section, "action"@) {
        None | Some(YamlNode::Null) => Ok(None),
        Some(YamlNode::String(a)) => match action_named(a@) {
            Some(x) => Ok(Some(x)),
            None => Err(
                (
                    path_text(here, "action"@),
                    "unknown action '"@ + a@ + "' — expected `continue`, `skip_next` or `abort`"@,
                ),
            ),
        },
        Some(other) => Err((path_text(here, "action"@), type_err_text("a string"@, other))),
    };
    let consecutive: Result<Option<u32>, (Seq<char>, Seq<char>)> = match field_of(section, "consecutive"@) {
        None | Some(YamlNode::Null) => Ok(None),
        Some(YamlNode::Integer(i)) => if 0 <= i <= u32::MAX {
            Ok(Some(i as u32))
        } else {
            Err((path_text(here, "consecutive"@), "expected a non-negative integer"@))
        },
        Some(other) => Err((path_text(here, "consecutive"@), type_err_text("a non-negative integer"@, other))),
    };
    match tolerate {
        Err(pm) => Err(pm),
        Ok(t) => match action {
            Err(pm) => Err(pm),
            Ok(a) => match consecutive {
                Err(pm) => Err(pm),
                Ok(c) => Ok(MissSpec { tolerate: t, consecutive: c, action: a }),
            },
        },
    }
}

fn unknown_action(here: &str, a: &str) -> (e: ParseError)
    ensures
        is_field_err(
            e,
            path_text(here@, "action"@),
            "unknown action '"@ + a@ + "' — expected `continue`, `skip_next` or `abort`"@,
        ),
{
    let mut m = String::new();
    push_str(&mut m, "unknown action '");
    push_str(&mut m, a);
    push_str(&mut m, "' — expected `continue`, `skip_next` or `abort`");
    field_err(here, "action", m.as_str())
}

/// `miss:` on a path: the shorthand `"N / W"` (a tolerance only), or the
/// full block of `tolerate`, `consecutive` and `action`; absent is `None`.
/// Errors name the block, not the path holding it.
pub fn parse_miss_spec(doc: &YamlNode, ctx: &str) -> (r: Result<Option<MissSpec>, ParseError>)
    requires
        match field_of(*doc, "miss"@) {
            Some(section) => keys_measurable(section),
            None => true,
        },
    ensures
        match field_of(*doc, "miss"@) {
            None => r matches Ok(None),
            Some(YamlNode::String(t)) => match drop_count_outcome(t@) {
                Ok(_) => r == Ok::<Option<MissSpec>, ParseError>(
                    Some(MissSpec { tolerate: count_of(t@), consecutive: None, action: None }),
                ),
                Err(m) => r matches Err(e) && is_field_err(e, path_text(path_text(ctx@, "miss"@), "miss"@), m),
            },
            Some(section) => {
                let here = path_text(ctx@, "miss"@);
                &&& !accepts_keys(section, Context::Miss) ==> (r matches Err(e) && key_refused(
                    section,
                    Context::Miss,
                    here,
                    e,
                ))
                &&& accepts_keys(section, Context::Miss) ==> match miss_read(section, here) {
                    Ok(m) => r == Ok::<Option<MissSpec>, ParseError>(Some(m)),
                    Err((p, m)) => r matches Err(e) && is_field_err(e, p, m),
                }
            },
        },
{
    let section = match field(doc, "miss") {
        None => {
            return Ok(None);
        },
        Some(s) => s,
    };
    let here = format_path(ctx, "miss");
    if let YamlNode::String(text) = section {
        return match DropCount::parse_text(text.as_str()) {
            Ok(count) => Ok(Some(MissSpec { tolerate: Some(count), consecutive: None, action: None })),
            Err(m) => Err(field_err(here.as_str(), "miss", m.as_str())),
        };
    }
    let checked = reject_unknown_keys(section, here.as_str(), Context::Miss);
    proof {
        lemma_keys_checked(*section, here@, Context::Miss, checked);
    }
    match checked {
        Ok(()) => {},
        Err(e) => {
            return Err(e);
        },
    }
    let tolerate = match yaml_string(section, "tolerate", here.as_str()) {
        Ok(None) => None,
        Ok(Some(t)) => match DropCount::parse_text(t.as_str()) {
            Ok(c) => Some(c),
            Err(m) => {
                return Err(field_err(here.as_str(), "tolerate", m.as_str()));
            },
        },
        Err(e) => {
            return Err(e);
        },
    };
    let action = match yaml_string(section, "action", here.as_str()) {
        Ok(None) => None,
        Ok(Some(a)) => {
            if str_eq(a.as_str(), "continue") {
                Some(MissAction::Continue)
            } else if str_eq(a.as_str(), "skip_next") {
                Some(MissAction::SkipNext)
            } else if str_eq(a.as_str(), "abort") {
                Some(MissAction::Abort)
            } else {
                return Err(unknown_action(here.as_str(), a.as_str()));
            }
        },
        Err(e) => {
            return Err(e);
        },
    };
    let consecutive = match yaml_u32(section, "consecutive", here.as_str()) {
        Ok(v) => v,
        Err(e) => {
            return Err(e);
        },
    };
    Ok(Some(MissSpec { tolerate, consecutive, action }))
}

// ── Concurrency ──

/// Which of a node's paths may not run concurrently. Absent means every
/// path serializes; an empty `exclusive` list means they all may overlap.
#[derive(Debug, Clone, PartialEq)]
pub struct ConcurrencyDecl {
    /// Groups of path names that exclude each other.
    pub exclusive: Vec<Vec<String>>,
}

/// The texts of a list of scalars.
pub open spec fn scalar_texts(v: Seq<YamlNode>) -> Seq<Seq<char>> {
    Seq::new(v.len(), |i: int| scalar_text(v[i]))
}

/// The first entry of `groups` that is not itself a list.
pub open spec fn first_non_list(groups: Seq<YamlNode>) -> Option<int> {
    if exists|i: int| 0 <= i < groups.len() && !(groups[i] is Array) {
        Some(choose|i: int| 0 <= i < groups.len() && !(groups[i] is Array)
            && forall|j: int| 0 <= j < i ==> groups[j] is Array)
    } else {
        None
    }
}

/// The path of the `i`-th group.
pub open spec fn group_field(i: nat) -> Seq<char> {
    "concurrency.exclusive["@ + nat_text(i) + "]"@
}

/// `c` holds the names of each group, in order.
pub open spec fn groups_read(groups: Seq<YamlNode>, c: ConcurrencyDecl) -> bool {
    &&& c.exclusive@.len() == groups.len()
    &&& forall|i: int|
        0 <= i < groups.len() ==> (groups[i] matches YamlNode::Array(names) && crate::realize::string_views(
            (#[trigger] c.exclusive@[i])@,
        ) == scalar_texts(names@))
}

/// `concurrency:` on a node: absent is `None`; otherwise its `exclusive`
/// groups, each a list of path names (an `exclusive` that is not a list
/// reads as no groups).
pub fn parse_concurrency(doc: &YamlNode, ctx: &str) -> (r: Result<Option<ConcurrencyDecl>, ParseError>)
    requires
        match field_of(*doc, "concurrency"@) {
            Some(section) => keys_measurable(section),
            None => true,
        },
    ensures
        match field_of(*doc, "concurrency"@) {
            None => r matches Ok(None),
            Some(section) => {
                &&& !accepts_keys(section, Context::Concurrency) ==> (r matches Err(e) && key_refused(
                    section,
                    Context::Concurrency,
                    ctx@,
                    e,
                ))
                &&& accepts_keys(section, Context::Concurrency) ==> match field_of(section, "exclusive"@) {
                    Some(YamlNode::Array(groups)) => match first_non_list(groups@) {
                        Some(i) => r matches Err(e) && is_field_err(
                            e,
                            path_text(ctx@, group_field(i as nat)),
                            "expected a list of path names, e.g. `- [to_boxes, to_masks]`"@,
                        ),
                        None => r matches Ok(Some(c)) && groups_read(groups@, c),
                    },
                    _ => r matches Ok(Some(c)) && c.exclusive@.len() == 0,
                }
            },
        },
{
    let section = match field(doc, "concurrency") {
        None => {
            return Ok(None);
        },
        Some(s) => s,
    };
    let checked = reject_unknown_keys(section, ctx, Context::Concurrency);
    proof {
        lemma_keys_checked(*section, ctx@, Context::Concurrency, checked);
    }
    match checked {
        Ok(()) => {},
        Err(e) => {
            return Err(e);
        },
    }
    let mut exclusive: Vec<Vec<String>> = Vec::new();
    if let Some(YamlNode::Array(groups)) = field(section, "exclusive") {
        let mut i: usize = 0;
        #[verifier::loop_isolation(false)]
        while i < groups.len()
            invariant
                i <= groups@.len(),
                exclusive@.len() == i,
                forall|k: int| 0 <= k < i ==> (#[trigger] groups@[k]) is Array,
                forall|k: int|
                    0 <= k < i ==> (groups@[k] matches YamlNode::Array(names) && crate::realize::string_views(
                        (#[trigger] exclusive@[k])@,
                    ) == scalar_texts(names@)),
            decreases groups@.len() - i,
        {
            match &groups[i] {
                YamlNode::Array(names) => {
                    let mut row: Vec<String> = Vec::new();
                    let mut j: usize = 0;
                    while j < names.len()
                        invariant
                            j <= names@.len(),
                            crate::realize::string_views(row@) == scalar_texts(names@).take(j as int),
                        decreases names@.len() - j,
                    {
                        let t = yaml_str_owned(&names[j]);
                        let ghost before = row@;
                        assert(crate::realize::string_views(before) == scalar_texts(names@).take(j as int));
                        assert(crate::realize::string_views(before).len() == j);
                        assert(before.len() == j);
                        row.push(t);
                        proof {
                            assert(row@ == before.push(t));
                            assert(t@ == scalar_text(names@[j as int]));
                            assert(row@[j as int]@ == scalar_text(names@[j as int]));
                            assert(crate::realize::string_views(row@).len() == j + 1);
                            assert forall|k: int| 0 <= k < j + 1 implies #[trigger] crate::realize::string_views(row@)[k]
                                == scalar_texts(names@).take(j + 1)[k] by {
                                if k < j {
                                    assert(crate::realize::string_views(before)[k] == scalar_texts(names@).take(j as int)[k]);
                                }
                            }
                            assert(crate::realize::string_views(row@) =~= scalar_texts(names@).take(j + 1));
                        }
                        j += 1;
                    }
                    proof {
                        assert(scalar_texts(names@).take(j as int) =~= scalar_texts(names@));
                    }
                    exclusive.push(row);
                },
                _ => {
                    let mut f = String::new();
                    push_str(&mut f, "concurrency.exclusive[");
                    push_nat(&mut f, i as u64);
                    push_str(&mut f, "]");
                    proof {
                        assert(f@ =~= group_field(i as nat));
                        assert(!(groups@[i as int] is Array));
                        assert(0 <= i < groups@.len() && !(groups@[i as int] is Array) && forall|j: int|
                            0 <= j < i ==> groups@[j] is Array);
                        let w = choose|w: int| 0 <= w < groups@.len() && !(groups@[w] is Array)
                            && forall|j: int| 0 <= j < w ==> groups@[j] is Array;
                        assert(0 <= w < groups@.len() && !(groups@[w] is Array));
                        if w < i {
                            assert(groups@[w] is Array);
                        }
                        if w > i {
                            assert(groups@[i as int] is Array);
                        }
                        assert(first_non_list(groups@) == Some(i as int));
                    }
                    return Err(
                        field_err(ctx, f.as_str(), "expected a list of path names, e.g. `- [to_boxes, to_masks]`"),
                    );
                },
            }
            i += 1;
        }
        proof {
            assert(first_non_list(groups@) is None);
        }
    }
    Ok(Some(ConcurrencyDecl { exclusive }))
}

// ── The external side of a service or action ──

/// Which side of a service or action lives outside the manifest tree.
#[derive(Debug, Clone, Copy, PartialEq, Eq, Structural)]
pub enum ExternalEndpointSide {
    Server,
    Client,
    Both,
}

/// An `external:` selector on a service or action: `server`, `client` or
/// `both`. The vocabulary differs from a topic's `pub`/`sub`, so
/// `external: pub` on a service is refused rather than read.
pub fn parse_external_endpoint_side(doc: &YamlNode, key: &str, ctx: &str) -> (r: Result<
    Option<ExternalEndpointSide>,
    ParseError,
>)
    ensures
        match field_of(*doc, key@) {
            None => r matches Ok(None),
            Some(YamlNode::Null) => r matches Ok(None),
            Some(YamlNode::String(s)) => if s@ == "server"@ {
                r == Ok::<Option<ExternalEndpointSide>, ParseError>(Some(ExternalEndpointSide::Server))
            } else if s@ == "client"@ {
                r == Ok::<Option<ExternalEndpointSide>, ParseError>(Some(ExternalEndpointSide::Client))
            } else if s@ == "both"@ {
                r == Ok::<Option<ExternalEndpointSide>, ParseError>(Some(ExternalEndpointSide::Both))
            } else {
                r matches Err(e) && is_field_err(
                    e,
                    path_text(ctx@, key@),
                    "invalid external side '"@ + s@ + "', expected 'server', 'client', or 'both'"@,
                )
            },
            Some(other) => r matches Err(e) && is_field_err(
                e,
                path_text(ctx@, key@),
                type_err_text("a string"@, other),
            ),
        },
{
    let raw = match yaml_string(doc, key, ctx) {
        Ok(Some(s)) => s,
        Ok(None) => {
            return Ok(None);
        },
        Err(e) => {
            return Err(e);
        },
    };
    if str_eq(raw.as_str(), "server") {
        Ok(Some(ExternalEndpointSide::Server))
    } else if str_eq(raw.as_str(), "client") {
        Ok(Some(ExternalEndpointSide::Client))
    } else if str_eq(raw.as_str(), "both") {
        Ok(Some(ExternalEndpointSide::Both))
    } else {
        let mut m = String::new();
        push_str(&mut m, "invalid external side '");
        push_str(&mut m, raw.as_str());
        push_str(&mut m, "', expected 'server', 'client', or 'both'");
        Err(ParseError::Field { path: format_path(ctx, key), message: m })
    }
}

// ── Endpoint names ──

/// The first position of `names` whose name already occurred before it.
#[verifier::opaque]
pub open spec fn first_repeat(names: Seq<Seq<char>>) -> Option<int> {
    if exists|j: int| 0 <= j < names.len() && names.take(j).contains(#[trigger] names[j]) {
        Some(choose|j: int| 0 <= j < names.len() && names.take(j).contains(#[trigger] names[j])
            && forall|k: int| 0 <= k < j ==> !names.take(k).contains(#[trigger] names[k]))
    } else {
        None
    }
}

/// Refuse a node whose endpoint names repeat across its publishers,
/// subscribers, servers and clients (in that order), naming the first
/// repeated one.
pub fn validate_endpoint_uniqueness(
    publishers: &Vec<String>,
    subscribers: &Vec<String>,
    srv: &Vec<String>,
    cli: &Vec<String>,
    ctx: &str,
) -> (r: Result<(), ParseError>)
    ensures
        ({
            let names = crate::realize::string_views(publishers@ + subscribers@ + srv@ + cli@);
            match first_repeat(names) {
                None => r is Ok,
                Some(j) => r matches Err(e) && is_field_err(
                    e,
                    path_text(ctx@, names[j]),
                    "duplicate endpoint name across pub/sub/srv/cli"@,
                ),
            }
        }),
{
    let mut all: Vec<String> = crate::mappers::copy_names(publishers);
    let mut b = crate::mappers::copy_names(subscribers);
    all.append(&mut b);
    let mut c = crate::mappers::copy_names(srv);
    all.append(&mut c);
    let mut d = crate::mappers::copy_names(cli);
    all.append(&mut d);
    let ghost names = crate::realize::string_views(all@);
    proof {
        reveal(first_repeat);
    }
    assert(all@ == publishers@ + subscribers@ + srv@ + cli@);
    let mut j: usize = 0;
    #[verifier::loop_isolation(false)]
    while j < all.len()
        invariant
            j <= all@.len(),
            forall|x: int| 0 <= x < j ==> !names.take(x).contains(#[trigger] names[x]),
        decreases all@.len() - j,
    {
        let mut k: usize = 0;
        #[verifier::loop_isolation(false)]
        while k < j
            invariant
                k <= j,
                forall|m: int| 0 <= m < k ==> names[m] != names[j as int],
            decreases j - k,
        {
            if str_eq(all[k].as_str(), all[j].as_str()) {
                proof {
                    assert(names[k as int] == names[j as int]);
                    assert(names.take(j as int)[k as int] == names[j as int]);
                    assert(names.take(j as int).contains(names[j as int]));
                    let w = choose|w: int| 0 <= w < names.len() && names.take(w).contains(#[trigger] names[w])
                        && forall|x: int| 0 <= x < w ==> !names.take(x).contains(#[trigger] names[x]);
                    if w < j {
                        assert(!names.take(w).contains(names[w]));
                    }
                    if w > j {
                        assert(!names.take(j as int).contains(names[j as int]));
                    }
                    assert(first_repeat(names) == Some(j as int));
                }
                return Err(field_err(ctx, all[j].as_str(), "duplicate endpoint name across pub/sub/srv/cli"));
            }
            k += 1;
        }
        proof {
            assert(!names.take(j as int).contains(names[j as int])) by {
                if names.take(j as int).contains(names[j as int]) {
                    let m = choose|m: int| 0 <= m < names.take(j as int).len() && names.take(j as int)[m] == names[j as int];
                    assert(names[m] != names[j as int]);
                }
            }
        }
        j += 1;
    }
    proof {
        assert(first_repeat(names) is None) by {
            if exists|x: int| 0 <= x < names.len() && names.take(x).contains(#[trigger] names[x]) {
                let x = choose|x: int| 0 <= x < names.len() && names.take(x).contains(#[trigger] names[x]);
                assert(!names.take(x).contains(names[x]));
            }
        }
    }
    Ok(())
}

} // verus!
