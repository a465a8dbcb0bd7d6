//! Reading manifest fields out of a YAML document: one value per key, a
//! value of the wrong type is an error rather than "absent", and every key
//! the schema does not define is refused with a suggestion.

use vstd::prelude::*;
use crate::manifest::{ParseError, Buffer, ExternalSide, DropSpec};
use crate::decls::{ArgDecl, DropCount, drop_count_outcome};
use crate::field_table::{Context, Status};
use crate::text::{push_str, push_int, int_text, owned, str_eq};
use crate::realize::string_views;

verus! {

/// A YAML document, as the loader hands it over.
#[derive(Debug)]
pub enum YamlNode {
    /// A float, as written.
    Real(String),
    Integer(i64),
    String(String),
    Boolean(bool),
    Array(Vec<YamlNode>),
    /// A mapping, in document order.
    Hash(Vec<(YamlNode, YamlNode)>),
    Alias(usize),
    Null,
    /// What indexing finds where nothing is.
    BadValue,
}

// ── Looking a key up ──

/// The value under the first entry of `entries` from `i` on whose key is the
/// string `key`.
pub open spec fn entry_value(entries: Seq<(YamlNode, YamlNode)>, key: Seq<char>, i: int) -> Option<YamlNode>
    decreases entries.len() - i,
{
    if i < 0 || i >= entries.len() {
        None
    } else if entries[i].0 matches YamlNode::String(k) && k@ == key {
        Some(entries[i].1)
    } else {
        entry_value(entries, key, i + 1)
    }
}

/// `doc[key]`: the value under `key` when `doc` is a mapping that has one;
/// `None` where indexing would find nothing.
pub open spec fn field_of(doc: YamlNode, key: Seq<char>) -> Option<YamlNode> {
    match doc {
        YamlNode::Hash(entries) => entry_value(entries@, key, 0),
        _ => None,
    }
}

/// `doc[key]`, or `None` where indexing finds nothing.
pub fn field<'a>(doc: &'a YamlNode, key: &str) -> (r: Option<&'a YamlNode>)
    ensures
        match field_of(*doc, key@) {
            Some(v) => r == Some(&v),
            None => r is None,
        },
{
    match doc {
        YamlNode::Hash(entries) => {
            let mut i: usize = 0;
            while i < entries.len()
                invariant
                    i <= entries@.len(),
                    field_of(*doc, key@) == entry_value(entries@, key@, 0),
                    entry_value(entries@, key@, 0) == entry_value(entries@, key@, i as int),
                decreases entries@.len() - i,
            {
                if let YamlNode::String(k) = &entries[i].0 {
                    if str_eq(k.as_str(), key) {
                        assert(entry_value(entries@, key@, i as int) == Some(entries@[i as int].1));
                        return Some(&entries[i].1);
                    }
                }
                i += 1;
            }
            None
        },
        _ => None,
    }
}

// ── Errors ──

/// Where a field sits: `ctx.field`, or `field` at the top.
pub open spec fn path_text(ctx: Seq<char>, field: Seq<char>) -> Seq<char> {
    if ctx.len() == 0 {
        field
    } else {
        ctx + "."@ + field
    }
}

/// `e` is the error for `path` saying `message`.
pub open spec fn is_field_err(e: ParseError, path: Seq<char>, message: Seq<char>) -> bool {
    e matches ParseError::Field { path: p, message: m } && p@ == path && m@ == message
}

/// The path of field `field` under `ctx`.
pub fn format_path(ctx: &str, field: &str) -> (r: String)
    ensures
        r@ == path_text(ctx@, field@),
{
    let mut s = String::new();
    let chars = crate::text::to_chars(ctx);
    if chars.len() == 0 {
        assert(ctx@ =~= Seq::<char>::empty());
        push_str(&mut s, field);
    } else {
        push_str(&mut s, ctx);
        push_str(&mut s, ".");
        push_str(&mut s, field);
    }
    s
}

/// The error for field `field` under `ctx`, saying `message`.
pub fn field_err(ctx: &str, field: &str, message: &str) -> (e: ParseError)
    ensures
        is_field_err(e, path_text(ctx@, field@), message@),
{
    ParseError::Field { path: format_path(ctx, field), message: owned(message) }
}

/// What a YAML node is, for a message that says what was found.
pub open spec fn kind_text(y: YamlNode) -> Seq<char> {
    match y {
        YamlNode::String(_) => "a quoted string"@,
        YamlNode::Integer(_) => "an integer"@,
        YamlNode::Real(_) => "a float"@,
        YamlNode::Boolean(_) => "a boolean"@,
        YamlNode::Array(_) => "a list"@,
        YamlNode::Hash(_) => "a mapping"@,
        YamlNode::Null => "null"@,
        YamlNode::Alias(_) => "an alias"@,
        YamlNode::BadValue => "nothing"@,
    }
}

/// What a YAML node is.
pub fn yaml_kind(y: &YamlNode) -> (r: &'static str)
    ensures
        r@ == kind_text(*y),
{
    match y {
        YamlNode::String(_) => "a quoted string",
        YamlNode::Integer(_) => "an integer",
        YamlNode::Real(_) => "a float",
        YamlNode::Boolean(_) => "a boolean",
        YamlNode::Array(_) => "a list",
        YamlNode::Hash(_) => "a mapping",
        YamlNode::Null => "null",
        YamlNode::Alias(_) => "an alias",
        YamlNode::BadValue => "nothing",
    }
}

/// The message for a value of the wrong type.
pub open spec fn type_err_text(expected: Seq<char>, found: YamlNode) -> Seq<char> {
    "expected "@ + expected + ", got "@ + kind_text(found)
        + ". A value of the wrong type used to be read as absent, which deleted the declaration in silence"@
}

/// YAML's spellings of infinity and not-a-number. The loader reads them as
/// floats, and Rust's float parse refuses them; every other float text the
/// loader produces holds a digit and parses.
pub open spec fn yaml_special_float(t: Seq<char>) -> bool {
    t == ".inf"@
        || t == ".Inf"@
        || t == ".INF"@
        || t == "+.inf"@
        || t == "+.Inf"@
        || t == "+.INF"@
        || t == "-.inf"@
        || t == "-.Inf"@
        || t == "-.INF"@
        || t == ".nan"@
        || t == ".NaN"@
        || t == ".NAN"@
}

pub fn is_yaml_special_float(t: &str) -> (r: bool)
    ensures
        r == yaml_special_float(t@),
{
    str_eq(t, ".inf")
        || str_eq(t, ".Inf")
        || str_eq(t, ".INF")
        || str_eq(t, "+.inf")
        || str_eq(t, "+.Inf")
        || str_eq(t, "+.INF")
        || str_eq(t, "-.inf")
        || str_eq(t, "-.Inf")
        || str_eq(t, "-.INF")
        || str_eq(t, ".nan")
        || str_eq(t, ".NaN")
        || str_eq(t, ".NAN")
}

/// A value of the wrong type is an error, not "absent".
pub fn type_err(ctx: &str, key: &str, expected: &str, found: &YamlNode) -> (e: ParseError)
    ensures
        is_field_err(e, path_text(ctx@, key@), type_err_text(expected@, *found)),
{
    let mut m = String::new();
    push_str(&mut m, "expected ");
    push_str(&mut m, expected);
    push_str(&mut m, ", got ");
    push_str(&mut m, yaml_kind(found));
    push_str(
        &mut m,
        ". A value of the wrong type used to be read as absent, which deleted the declaration in silence",
    );
    ParseError::Field { path: format_path(ctx, key), message: m }
}

// ── Scalars ──

/// The string under `key`: absent or null is `None`; anything but a string
/// is an error.
pub fn yaml_string(doc: &YamlNode, key: &str, ctx: &str) -> (r: Result<Option<String>, ParseError>)
    ensures
        match field_of(*doc, key@) {
            None => r matches Ok(None),
            Some(YamlNode::Null) => r matches Ok(None),
            Some(YamlNode::String(s)) => r matches Ok(Some(t)) && t@ == s@,
            Some(other) => r matches Err(e) && is_field_err(
                e,
                path_text(ctx@, key@),
                type_err_text("a string"@, other),
            ),
        },
{
    match field(doc, key) {
        None => Ok(None),
        Some(YamlNode::Null) => Ok(None),
        Some(YamlNode::String(s)) => Ok(Some(s.clone())),
        Some(other) => Err(type_err(ctx, key, "a string", other)),
    }
}

/// The non-negative integer under `key` that fits `u32`.
pub fn yaml_u32(doc: &YamlNode, key: &str, ctx: &str) -> (r: Result<Option<u32>, ParseError>)
    ensures
        match field_of(*doc, key@) {
            None => r matches Ok(None),
            Some(YamlNode::Null) => r matches Ok(None),
            Some(YamlNode::Integer(i)) => if 0 <= i <= u32::MAX {
                r == Ok::<Option<u32>, ParseError>(Some(i as u32))
            } else {
                r matches Err(e) && is_field_err(
                    e,
                    path_text(ctx@, key@),
                    "expected a non-negative integer"@,
                )
            },
            Some(other) => r matches Err(e) && is_field_err(
                e,
                path_text(ctx@, key@),
                type_err_text("a non-negative integer"@, other),
            ),
        },
{
    match field(doc, key) {
        None => Ok(None),
        Some(YamlNode::Null) => Ok(None),
        Some(YamlNode::Integer(i)) => {
            if *i >= 0 && *i <= 0xffff_ffff {
                Ok(Some(*i as u32))
            } else {
                Err(field_err(ctx, key, "expected a non-negative integer"))
            }
        },
        Some(other) => Err(type_err(ctx, key, "a non-negative integer", other)),
    }
}

/// The boolean under `key`; a quoted `"true"` is refused with the fix.
pub fn yaml_bool(doc: &YamlNode, key: &str, ctx: &str) -> (r: Result<Option<bool>, ParseError>)
    ensures
        match field_of(*doc, key@) {
            None => r matches Ok(None),
            Some(YamlNode::Null) => r matches Ok(None),
            Some(YamlNode::Boolean(b)) => r == Ok::<Option<bool>, ParseError>(Some(b)),
            Some(YamlNode::String(_)) => r matches Err(e) && is_field_err(
                e,
                path_text(ctx@, key@),
                "expected a boolean, got a quoted string — write `true` or `false` without quotes"@,
            ),
            Some(other) => r matches Err(e) && is_field_err(
                e,
                path_text(ctx@, key@),
                type_err_text("a boolean"@, other),
            ),
        },
{
    match field(doc, key) {
        None => Ok(None),
        Some(YamlNode::Null) => Ok(None),
        Some(YamlNode::Boolean(b)) => Ok(Some(*b)),
        Some(YamlNode::String(_)) => Err(
            field_err(
                ctx,
                key,
                "expected a boolean, got a quoted string — write `true` or `false` without quotes",
            ),
        ),
        Some(other) => Err(type_err(ctx, key, "a boolean", other)),
    }
}

/// The text of a scalar: a string as it is, a number or boolean as written;
/// anything else is empty.
pub open spec fn scalar_text(y: YamlNode) -> Seq<char> {
    match y {
        YamlNode::String(s) => s@,
        YamlNode::Integer(i) => int_text(i as int),
        YamlNode::Real(s) => s@,
        YamlNode::Boolean(b) => if b {
            "true"@
        } else {
            "false"@
        },
        _ => Seq::empty(),
    }
}

/// The text of a scalar.
pub fn yaml_str_owned(y: &YamlNode) -> (r: String)
    ensures
        r@ == scalar_text(*y),
{
    match y {
        YamlNode::String(s) => s.clone(),
        YamlNode::Integer(i) => {
            let mut t = String::new();
            push_int(&mut t, *i);
            t
        },
        YamlNode::Real(s) => s.clone(),
        YamlNode::Boolean(b) => if *b {
            owned("true")
        } else {
            owned("false")
        },
        _ => String::new(),
    }
}

pub open spec fn is_scalar(y: YamlNode) -> bool {
    y is String || y is Integer || y is Real || y is Boolean
}

/// The key of list element `i`: `key[i]`.
pub open spec fn element_key(key: Seq<char>, i: int) -> Seq<char> {
    key + "["@ + crate::text::nat_text(i as nat) + "]"@
}

/// What reading `arr` as a list of scalars gives: their texts, or the error
/// for the first element that is not a scalar.
pub open spec fn scalar_list_ok(arr: Seq<YamlNode>, key: Seq<char>, ctx: Seq<char>, r: Result<Vec<String>, ParseError>) -> bool {
    match r {
        Ok(v) => {
            &&& forall|i: int| 0 <= i < arr.len() ==> is_scalar(#[trigger] arr[i])
            &&& v@.len() == arr.len()
            &&& forall|i: int| 0 <= i < arr.len() ==> (#[trigger] v@[i])@ == scalar_text(arr[i])
        },
        Err(e) => exists|i: int|
            0 <= i < arr.len() && !is_scalar(#[trigger] arr[i]) && (forall|j: int|
                0 <= j < i ==> is_scalar(#[trigger] arr[j])) && is_field_err(
                e,
                path_text(ctx, element_key(key, i)),
                type_err_text("a scalar"@, arr[i]),
            ),
    }
}

/// Every element must be a scalar.
pub fn yaml_scalar_list(arr: &[YamlNode], key: &str, ctx: &str) -> (r: Result<Vec<String>, ParseError>)
    ensures
        scalar_list_ok(arr@, key@, ctx@, r),
{
    let mut out: Vec<String> = Vec::new();
    let mut i: usize = 0;
    while i < arr.len()
        invariant
            i <= arr@.len(),
            out@.len() == i,
            forall|j: int| 0 <= j < i ==> is_scalar(#[trigger] arr@[j]),
            forall|j: int| 0 <= j < i ==> (#[trigger] out@[j])@ == scalar_text(arr@[j]),
        decreases arr@.len() - i,
    {
        let y = &arr[i];
        match y {
            YamlNode::String(_) | YamlNode::Integer(_) | YamlNode::Real(_) | YamlNode::Boolean(_) => {
                out.push(yaml_str_owned(y));
            },
            _ => {
                let mut k = String::new();
                push_str(&mut k, key);
                push_str(&mut k, "[");
                crate::text::push_nat(&mut k, i as u64);
                push_str(&mut k, "]");
                let e = type_err(ctx, k.as_str(), "a scalar", y);
                proof {
                    assert(k@ =~= element_key(key@, i as int));
                }
                return Err(e);
            },
        }
        i += 1;
    }
    Ok(out)
}


// ── Lists ──

/// The message for a bare scalar where a list belongs.
pub open spec fn bare_scalar_text(key: Seq<char>, s: Seq<char>) -> Seq<char> {
    "expected a list, got a bare scalar — write `"@ + key + ": ["@ + s
        + "]`. A scalar here used to be read as an empty list, which deleted the declaration in silence"@
}

/// The list of scalars under `key`; a bare scalar is refused with the fix.
pub fn yaml_string_list(doc: &YamlNode, key: &str, ctx: &str) -> (r: Result<Vec<String>, ParseError>)
    ensures
        match field_of(*doc, key@) {
            None => r matches Ok(v) && v@.len() == 0,
            Some(YamlNode::Null) => r matches Ok(v) && v@.len() == 0,
            Some(YamlNode::Array(arr)) => scalar_list_ok(arr@, key@, ctx@, r),
            Some(YamlNode::String(s)) => r matches Err(e) && is_field_err(
                e,
                path_text(ctx@, key@),
                bare_scalar_text(key@, s@),
            ),
            Some(other) => r matches Err(e) && is_field_err(
                e,
                path_text(ctx@, key@),
                type_err_text("a list"@, other),
            ),
        },
{
    match field(doc, key) {
        None => Ok(Vec::new()),
        Some(YamlNode::Null) => Ok(Vec::new()),
        Some(YamlNode::Array(arr)) => yaml_scalar_list(arr.as_slice(), key, ctx),
        Some(YamlNode::String(s)) => {
            let mut m = String::new();
            push_str(&mut m, "expected a list, got a bare scalar — write `");
            push_str(&mut m, key);
            push_str(&mut m, ": [");
            push_str(&mut m, s.as_str());
            push_str(
                &mut m,
                "]`. A scalar here used to be read as an empty list, which deleted the declaration in silence",
            );
            Err(ParseError::Field { path: format_path(ctx, key), message: m })
        },
        Some(other) => Err(type_err(ctx, key, "a list", other)),
    }
}

/// A list of names, or a single name standing for a one-name list.
pub fn yaml_direct_string_list(y: Option<&YamlNode>, key: &str, ctx: &str) -> (r: Result<
    Vec<String>,
    ParseError,
>)
    ensures
        match y {
            None => r matches Ok(v) && v@.len() == 0,
            Some(YamlNode::BadValue) => r matches Ok(v) && v@.len() == 0,
            Some(YamlNode::Null) => r matches Ok(v) && v@.len() == 0,
            Some(YamlNode::String(s)) => r matches Ok(v) && v@.len() == 1 && v@[0]@ == s@,
            Some(YamlNode::Array(arr)) => scalar_list_ok(arr@, key@, ctx@, r),
            Some(other) => r matches Err(e) && is_field_err(
                e,
                path_text(ctx@, key@),
                type_err_text("a list or a single name"@, *other),
            ),
        },
{
    match y {
        None => Ok(Vec::new()),
        Some(YamlNode::BadValue) => Ok(Vec::new()),
        Some(YamlNode::Null) => Ok(Vec::new()),
        Some(YamlNode::String(s)) => {
            let mut v: Vec<String> = Vec::new();
            v.push(s.clone());
            Ok(v)
        },
        Some(YamlNode::Array(arr)) => yaml_scalar_list(arr.as_slice(), key, ctx),
        Some(other) => Err(type_err(ctx, key, "a list or a single name", other)),
    }
}

/// `input:` accepts a bare name as a one-name list.
pub fn parse_string_or_list(doc: &YamlNode, key: &str, ctx: &str) -> (r: Result<Vec<String>, ParseError>)
    ensures
        match field_of(*doc, key@) {
            None => r matches Ok(v) && v@.len() == 0,
            Some(YamlNode::BadValue) => r matches Ok(v) && v@.len() == 0,
            Some(YamlNode::Null) => r matches Ok(v) && v@.len() == 0,
            Some(YamlNode::String(s)) => r matches Ok(v) && v@.len() == 1 && v@[0]@ == s@,
            Some(YamlNode::Array(arr)) => scalar_list_ok(arr@, key@, ctx@, r),
            Some(other) => r matches Err(e) && is_field_err(
                e,
                path_text(ctx@, key@),
                type_err_text("a list or a single name"@, other),
            ),
        },
{
    yaml_direct_string_list(field(doc, key), key, ctx)
}

// ── Closed vocabularies ──

/// `buffer:`: `latest` or `queue`.
pub fn parse_buffer(doc: &YamlNode, ctx: &str) -> (r: Result<Option<Buffer>, ParseError>)
    ensures
        match field_of(*doc, "buffer"@) {
            None => r matches Ok(None),
            Some(YamlNode::Null) => r matches Ok(None),
            Some(YamlNode::String(s)) => if s@ == "latest"@ {
                r == Ok::<Option<Buffer>, ParseError>(Some(Buffer::Latest))
            } else if s@ == "queue"@ {
                r == Ok::<Option<Buffer>, ParseError>(Some(Buffer::Queue))
            } else {
                r matches Err(e) && is_field_err(
                    e,
                    path_text(ctx@, "buffer"@),
                    "invalid buffer '"@ + s@ + "', expected 'latest' or 'queue'"@,
                )
            },
            Some(other) => r matches Err(e) && is_field_err(
                e,
                path_text(ctx@, "buffer"@),
                type_err_text("a string"@, other),
            ),
        },
{
    let raw = match yaml_string(doc, "buffer", ctx) {
        Ok(Some(s)) => s,
        Ok(None) => {
            return Ok(None);
        },
        Err(e) => {
            return Err(e);
        },
    };
    if str_eq(raw.as_str(), "latest") {
        Ok(Some(Buffer::Latest))
    } else if str_eq(raw.as_str(), "queue") {
        Ok(Some(Buffer::Queue))
    } else {
        let mut m = String::new();
        push_str(&mut m, "invalid buffer '");
        push_str(&mut m, raw.as_str());
        push_str(&mut m, "', expected 'latest' or 'queue'");
        Err(ParseError::Field { path: format_path(ctx, "buffer"), message: m })
    }
}

/// An external side: `pub`, `sub` or `both`.
pub fn parse_external_side(doc: &YamlNode, key: &str, ctx: &str) -> (r: Result<Option<ExternalSide>, ParseError>)
    ensures
        match field_of(*doc, key@) {
            None => r matches Ok(None),
            Some(YamlNode::Null) => r matches Ok(None),
            Some(YamlNode::String(s)) => if s@ == "pub"@ {
                r == Ok::<Option<ExternalSide>, ParseError>(Some(ExternalSide::Pub))
            } else if s@ == "sub"@ {
                r == Ok::<Option<ExternalSide>, ParseError>(Some(ExternalSide::Sub))
            } else if s@ == "both"@ {
                r == Ok::<Option<ExternalSide>, ParseError>(Some(ExternalSide::Both))
            } else {
                r matches Err(e) && is_field_err(
                    e,
                    path_text(ctx@, key@),
                    "invalid external side '"@ + s@ + "', expected 'pub', 'sub', or 'both'"@,
                )
            },
            Some(other) => r matches Err(e) && is_field_err(
                e,
                path_text(ctx@, key@),
                type_err_text("a string"@, other),
            ),
        },
{
    let raw = match yaml_string(doc, key, ctx) {
        Ok(Some(s)) => s,
        Ok(None) => {
            return Ok(None);
        },
        Err(e) => {
            return Err(e);
        },
    };
    if str_eq(raw.as_str(), "pub") {
        Ok(Some(ExternalSide::Pub))
    } else if str_eq(raw.as_str(), "sub") {
        Ok(Some(ExternalSide::Sub))
    } else if str_eq(raw.as_str(), "both") {
        Ok(Some(ExternalSide::Both))
    } else {
        let mut m = String::new();
        push_str(&mut m, "invalid external side '");
        push_str(&mut m, raw.as_str());
        push_str(&mut m, "', expected 'pub', 'sub', or 'both'");
        Err(ParseError::Field { path: format_path(ctx, key), message: m })
    }
}

/// What reading an argument declaration gives under `ctx`.
pub open spec fn arg_decl_read(yaml: YamlNode, ctx: Seq<char>, r: Result<ArgDecl, ParseError>) -> bool {
    &&& ((yaml is Null || yaml is BadValue) ==> (r matches Ok(ArgDecl::String)))
    &&& !(yaml is Null || yaml is BadValue) ==> match field_of(yaml, "type"@) {
            Some(YamlNode::String(t)) => if t@ == "bool"@ {
                r matches Ok(ArgDecl::Bool)
            } else {
                r matches Ok(ArgDecl::String)
            },
            Some(YamlNode::Null) | None => match field_of(yaml, "choices"@) {
                None | Some(YamlNode::Null) => r matches Ok(ArgDecl::String),
                Some(YamlNode::Array(arr)) => match r {
                    Ok(ArgDecl::Choices(v)) => arr@.len() > 0 && scalar_list_ok(
                        arr@,
                        "choices"@,
                        ctx,
                        Ok::<Vec<String>, ParseError>(v),
                    ),
                    Ok(ArgDecl::String) => arr@.len() == 0,
                    Ok(ArgDecl::Bool) => false,
                    Err(e) => scalar_list_ok(arr@, "choices"@, ctx, Err::<Vec<String>, ParseError>(e)),
                },
                Some(YamlNode::String(s)) => r matches Err(e) && is_field_err(
                    e,
                    path_text(ctx, "choices"@),
                    bare_scalar_text("choices"@, s@),
                ),
                Some(other) => r matches Err(e) && is_field_err(
                    e,
                    path_text(ctx, "choices"@),
                    type_err_text("a list"@, other),
                ),
            },
            Some(other) => r matches Err(e) && is_field_err(
                e,
                path_text(ctx, "type"@),
                type_err_text("a string"@, other),
            ),
        }
}

/// An argument declaration: null is a free string, `{ type: bool }` a
/// boolean (any other type a free string), `{ choices: [...] }` with at
/// least one choice an enumeration.
pub fn parse_arg_decl(yaml: &YamlNode, ctx: &str) -> (r: Result<ArgDecl, ParseError>)
    ensures
        arg_decl_read(*yaml, ctx@, r),
{
    match yaml {
        YamlNode::Null | YamlNode::BadValue => {
            return Ok(ArgDecl::String);
        },
        _ => {},
    }
    match yaml_string(yaml, "type", ctx) {
        Ok(Some(t)) => {
            if str_eq(t.as_str(), "bool") {
                return Ok(ArgDecl::Bool);
            }
            return Ok(ArgDecl::String);
        },
        Ok(None) => {},
        Err(e) => {
            return Err(e);
        },
    }
    let choices = match yaml_string_list(yaml, "choices", ctx) {
        Ok(v) => v,
        Err(e) => {
            return Err(e);
        },
    };
    if choices.len() > 0 {
        Ok(ArgDecl::Choices(choices))
    } else {
        Ok(ArgDecl::String)
    }
}


// ── Unknown keys ──

/// The keys of a mapping are short enough to measure against the schema.
pub open spec fn keys_measurable(doc: YamlNode) -> bool {
    doc matches YamlNode::Hash(entries) ==> forall|i: int|
        0 <= i < entries@.len() ==> ((#[trigger] entries@[i]).0 matches YamlNode::String(k)
            ==> k@.len() + 64 < usize::MAX && crate::field_table::encode_utf8_len(k@) <= usize::MAX)
}

/// Every mapping in `y`, at any depth, has measurable keys.
pub open spec fn all_measurable(y: YamlNode) -> bool
    decreases y,
{
    match y {
        YamlNode::Hash(entries) => keys_measurable(y) && forall|i: int|
            0 <= i < entries@.len() ==> all_measurable(#[trigger] entries@[i].1),
        YamlNode::Array(items) => forall|i: int| 0 <= i < items@.len() ==> all_measurable(#[trigger] items@[i]),
        _ => true,
    }
}

fn key_fits(k: &String) -> (r: bool)
    ensures
        r == (k@.len() + 64 < usize::MAX && crate::field_table::encode_utf8_len(k@) <= usize::MAX),
{
    let b = k.as_str().as_bytes();
    let _n = b.len();
    let u = k.as_str().unicode_len();
    u < usize::MAX - 64
}

/// Whether every mapping in `y`, at any depth, has measurable keys.
pub fn measurable(y: &YamlNode) -> (r: bool)
    ensures
        r == all_measurable(*y),
    decreases y,
{
    match y {
        YamlNode::Hash(entries) => {
            let mut i: usize = 0;
            while i < entries.len()
                invariant
                    i <= entries@.len(),
                    *y == YamlNode::Hash(*entries),
                    forall|j: int| 0 <= j < i ==> all_measurable(#[trigger] entries@[j].1),
                    forall|j: int| 0 <= j < i ==> ((#[trigger] entries@[j]).0 matches YamlNode::String(k)
                        ==> k@.len() + 64 < usize::MAX && crate::field_table::encode_utf8_len(k@) <= usize::MAX),
                decreases entries@.len() - i,
            {
                if let YamlNode::String(k) = &entries[i].0 {
                    if !key_fits(k) {
                        return false;
                    }
                }
                if !measurable(&entries[i].1) {
                    return false;
                }
                i += 1;
            }
            true
        },
        YamlNode::Array(items) => {
            let mut i: usize = 0;
            while i < items.len()
                invariant
                    i <= items@.len(),
                    *y == YamlNode::Array(*items),
                    forall|j: int| 0 <= j < i ==> all_measurable(#[trigger] items@[j]),
                decreases items@.len() - i,
            {
                proof {
                    let ghost v = (*y)->Array_0;
                    assert(v == *items);
                    assert(decreases_to!(*y => v));
                    assert(decreases_to!(v => v@));
                    assert(decreases_to!(v@ => v@[i as int]));
                }
                if !measurable(&items[i]) {
                    return false;
                }
                i += 1;
            }
            true
        },
        _ => true,
    }
}

/// `s` joined with `sep` between entries.
pub open spec fn joined(s: Seq<Seq<char>>, sep: Seq<char>) -> Seq<char>
    decreases s.len(),
{
    if s.len() == 0 {
        Seq::empty()
    } else if s.len() == 1 {
        s[0]
    } else {
        joined(s.drop_last(), sep) + sep + s.last()
    }
}

/// What refusing an unknown key says, given the keys offered instead.
pub open spec fn unknown_key_text(context: Context, key: Seq<char>, offered: Seq<Seq<char>>) -> Seq<char> {
    let detail = match crate::field_table::nearest_row(
        crate::field_table::field_rows(),
        context,
        key,
        crate::field_table::typo_budget(crate::field_table::encode_utf8_len(key)),
    ) {
        Some(f) => "did you mean `"@ + f.key@ + "`?"@,
        None => "accepted here: "@ + joined(offered, ", "@),
    };
    "unknown key in `"@ + crate::field_table::context_label(context) + "` — "@ + detail
        + ". An unrecognised key used to be discarded in silence, which deleted whatever it was meant to declare"@
}

/// The keys a diagnostic offers in `context`, in order: the accepted keys,
/// sorted.
pub open spec fn offered_in(context: Context, offered: Seq<Seq<char>>) -> bool {
    &&& forall|i: int, j: int| 0 <= i < j < offered.len() ==> !crate::order::seq_lt(#[trigger] offered[j], #[trigger] offered[i])
    &&& offered.to_multiset() == crate::field_table::offered_keys(crate::field_table::field_rows(), context).to_multiset()
}

/// Why `key` is refused in `context`, if it is: a removed key says how it
/// was replaced; an unknown one suggests the nearest or lists the rest.
pub open spec fn refusal(context: Context, key: Seq<char>, offered: Seq<Seq<char>>) -> Option<Seq<char>> {
    match crate::field_table::lookup_row(crate::field_table::field_rows(), context, key) {
        Some(f) => if f.status == Status::Removed {
            Some(f.doc@)
        } else {
            None
        },
        None => Some(unknown_key_text(context, key, offered)),
    }
}

/// Entry `i` of a mapping is refused.
pub open spec fn refused_at(entries: Seq<(YamlNode, YamlNode)>, context: Context, offered: Seq<Seq<char>>, i: int) -> bool {
    entries[i].0 matches YamlNode::String(k) && refusal(context, k@, offered) is Some
}

fn join_keys(keys: &Vec<&'static str>, sep: &str) -> (r: String)
    ensures
        r@ == joined(crate::field_table::key_views(keys@), sep@),
{
    let mut out = String::new();
    let mut i: usize = 0;
    while i < keys.len()
        invariant
            i <= keys@.len(),
            out@ == joined(crate::field_table::key_views(keys@).take(i as int), sep@),
        decreases keys@.len() - i,
    {
        let ghost kv = crate::field_table::key_views(keys@);
        if i > 0 {
            push_str(&mut out, sep);
        }
        push_str(&mut out, keys[i]);
        proof {
            let t = kv.take(i + 1);
            assert(t.drop_last() =~= kv.take(i as int));
            assert(t.last() == keys@[i as int]@);
            if i == 0 {
                assert(kv.take(0) =~= Seq::<Seq<char>>::empty());
                assert(out@ =~= joined(t, sep@));
            }
        }
        i += 1;
    }
    assert(crate::field_table::key_views(keys@).take(i as int) =~= crate::field_table::key_views(keys@));
    out
}

/// Refuse the first key of mapping `doc` that `context` does not define,
/// or that it removed; other nodes have no keys to check.
pub fn reject_unknown_keys(doc: &YamlNode, ctx: &str, context: Context) -> (r: Result<(), ParseError>)
    requires
        keys_measurable(*doc),
    ensures
        keys_checked(*doc, ctx@, context, r),
{
    let entries = match doc {
        YamlNode::Hash(entries) => entries,
        _ => {
            return Ok(());
        },
    };
    let offered = crate::field_table::suggestions(context);
    let ghost ov = crate::field_table::key_views(offered@);
    proof {
        assert forall|i: int, j: int| 0 <= i < j < ov.len() implies !crate::order::seq_lt(#[trigger] ov[j], #[trigger] ov[i]) by {
            assert(ov[j] == offered@[j]@ && ov[i] == offered@[i]@);
        }
    }
    let mut i: usize = 0;
    while i < entries.len()
        invariant
            i <= entries@.len(),
            *doc == YamlNode::Hash(*entries),
            keys_measurable(*doc),
            ov == crate::field_table::key_views(offered@),
            offered_in(context, ov),
            forall|j: int| 0 <= j < i ==> !refused_at(entries@, context, ov, j),
        decreases entries@.len() - i,
    {
        if let YamlNode::String(key) = &entries[i].0 {
            assert(entries@[i as int].0 matches YamlNode::String(k) && k@ == key@);
            match crate::field_table::lookup(context, key.as_str()) {
                Some(f) => {
                    if f.status == Status::Removed {
                        let e = field_err(ctx, key.as_str(), f.doc);
                        assert(refused_at(entries@, context, ov, i as int));
                        return Err(e);
                    }
                },
                None => {
                    let mut m = String::new();
                    push_str(&mut m, "unknown key in `");
                    push_str(&mut m, context.label());
                    push_str(&mut m, "` — ");
                    match crate::field_table::nearest(context, key.as_str()) {
                        Some(near) => {
                            push_str(&mut m, "did you mean `");
                            push_str(&mut m, near);
                            push_str(&mut m, "`?");
                        },
                        None => {
                            push_str(&mut m, "accepted here: ");
                            let list = join_keys(&offered, ", ");
                            push_str(&mut m, list.as_str());
                        },
                    }
                    push_str(
                        &mut m,
                        ". An unrecognised key used to be discarded in silence, which deleted whatever it was meant to declare",
                    );
                    let e = ParseError::Field { path: format_path(ctx, key.as_str()), message: m };
                    assert(refused_at(entries@, context, ov, i as int));
                    assert(m@ =~= unknown_key_text(context, key@, ov));
                    return Err(e);
                },
            }
        }
        i += 1;
    }
    Ok(())
}


// ── Drop tolerance ──

/// `doc` defines every key it uses in `context` (a non-mapping has none).
pub open spec fn accepts_keys(doc: YamlNode, context: Context) -> bool {
    doc matches YamlNode::Hash(entries) ==> forall|i: int|
        0 <= i < entries@.len() ==> !refused_at(entries@, context, Seq::empty(), i)
}

/// The count a `N / W` text gives, when it gives one.
pub open spec fn count_of(s: Seq<char>) -> Option<DropCount> {
    match drop_count_outcome(s) {
        Ok((n, w)) => Some(DropCount { n: n as u32, w: w as u32 }),
        Err(_) => None,
    }
}

/// Why the full form's `max_count` is refused, if it is.
pub open spec fn max_count_failure(section: YamlNode) -> Option<Seq<char>> {
    match field_of(section, "max_count"@) {
        None | Some(YamlNode::Null) => None,
        Some(YamlNode::String(s)) => match drop_count_outcome(s@) {
            Ok(_) => None,
            Err(m) => Some(m),
        },
        Some(other) => Some(type_err_text("a string"@, other)),
    }
}

/// Why the full form's `max_consecutive` is refused, if it is.
pub open spec fn max_consecutive_failure(section: YamlNode) -> Option<Seq<char>> {
    match field_of(section, "max_consecutive"@) {
        None | Some(YamlNode::Null) => None,
        Some(YamlNode::Integer(i)) => if 0 <= i <= u32::MAX {
            None
        } else {
            Some("expected a non-negative integer"@)
        },
        Some(other) => Some(type_err_text("a non-negative integer"@, other)),
    }
}

/// The full form `{ max_count: "N / W", max_consecutive: K }` reads cleanly.
pub open spec fn drop_block_ok(section: YamlNode) -> bool {
    &&& accepts_keys(section, Context::Drop)
    &&& max_count_failure(section) is None
    &&& max_consecutive_failure(section) is None
}

/// `e` refuses the first key of `section` that `context` does not define,
/// naming it under `here`.
pub open spec fn key_refused(section: YamlNode, context: Context, here: Seq<char>, e: ParseError) -> bool {
    section matches YamlNode::Hash(entries) && exists|offered: Seq<Seq<char>>, i: int| {
        &&& offered_in(context, offered)
        &&& 0 <= i < entries@.len()
        &&& #[trigger] refused_at(entries@, context, offered, i)
        &&& forall|j: int| 0 <= j < i ==> !refused_at(entries@, context, offered, j)
        &&& entries@[i].0 matches YamlNode::String(k)
        &&& is_field_err(e, path_text(here, k@), refusal(context, k@, offered)->0)
    }
}

/// What [`reject_unknown_keys`] returns for `doc` under `ctx`.
pub open spec fn keys_checked(doc: YamlNode, ctx: Seq<char>, context: Context, r: Result<(), ParseError>) -> bool {
    match doc {
        YamlNode::Hash(entries) => exists|offered: Seq<Seq<char>>| {
            &&& offered_in(context, offered)
            &&& match r {
                Ok(_) => forall|i: int| 0 <= i < entries@.len() ==> !refused_at(entries@, context, offered, i),
                Err(e) => exists|i: int| {
                    &&& 0 <= i < entries@.len()
                    &&& #[trigger] refused_at(entries@, context, offered, i)
                    &&& forall|j: int| 0 <= j < i ==> !refused_at(entries@, context, offered, j)
                    &&& entries@[i].0 matches YamlNode::String(k)
                    &&& is_field_err(e, path_text(ctx, k@), refusal(context, k@, offered)->0)
                },
            }
        },
        _ => r is Ok,
    }
}

proof fn lemma_refusal_any_offered(entries: Seq<(YamlNode, YamlNode)>, context: Context, a: Seq<Seq<char>>, b: Seq<Seq<char>>, i: int)
    ensures
        refused_at(entries, context, a, i) == refused_at(entries, context, b, i),
{
}

/// A key check passes exactly when the mapping uses only keys `context`
/// defines, and otherwise refuses the first one that it does not.
pub proof fn lemma_keys_checked(doc: YamlNode, ctx: Seq<char>, context: Context, r: Result<(), ParseError>)
    requires
        keys_checked(doc, ctx, context, r),
    ensures
        r is Ok <==> accepts_keys(doc, context),
        r matches Err(e) ==> key_refused(doc, context, ctx, e),
{
    if let YamlNode::Hash(entries) = doc {
        match r {
            Ok(_) => {
                assert forall|i: int| 0 <= i < entries@.len() implies !refused_at(entries@, context, Seq::empty(), i) by {
                    let offered = choose|offered: Seq<Seq<char>>| {
                        &&& offered_in(context, offered)
                        &&& forall|i: int| 0 <= i < entries@.len() ==> !refused_at(entries@, context, offered, i)
                    };
                    lemma_refusal_any_offered(entries@, context, offered, Seq::empty(), i);
                }
            },
            Err(e) => {
                let offered = choose|offered: Seq<Seq<char>>| {
                    &&& offered_in(context, offered)
                    &&& exists|i: int| {
                        &&& 0 <= i < entries@.len()
                        &&& #[trigger] refused_at(entries@, context, offered, i)
                        &&& forall|j: int| 0 <= j < i ==> !refused_at(entries@, context, offered, j)
                        &&& entries@[i].0 matches YamlNode::String(k)
                        &&& is_field_err(e, path_text(ctx, k@), refusal(context, k@, offered)->0)
                    }
                };
                let i = choose|i: int| {
                    &&& 0 <= i < entries@.len()
                    &&& #[trigger] refused_at(entries@, context, offered, i)
                    &&& forall|j: int| 0 <= j < i ==> !refused_at(entries@, context, offered, j)
                    &&& entries@[i].0 matches YamlNode::String(k)
                    &&& is_field_err(e, path_text(ctx, k@), refusal(context, k@, offered)->0)
                };
                lemma_refusal_any_offered(entries@, context, offered, Seq::empty(), i);
                assert(key_refused(doc, context, ctx, e));
            },
        }
    }
}

/// `d` is the drop tolerance the field `key` of `doc` declares: the
/// shorthand gives a count alone, the full block its count and its run.
pub open spec fn drop_value(doc: YamlNode, key: Seq<char>, d: Option<DropSpec>) -> bool {
    match field_of(doc, key) {
        None => d is None,
        Some(YamlNode::String(s)) => d matches Some(x) && x.max_count == count_of(s@) && x.max_consecutive is None,
        Some(section) => d matches Some(x) && {
            &&& x.max_count == match field_of(section, "max_count"@) {
                Some(YamlNode::String(s)) => count_of(s@),
                _ => None,
            }
            &&& x.max_consecutive == match field_of(section, "max_consecutive"@) {
                Some(YamlNode::Integer(i)) => Some(i as u32),
                _ => None,
            }
        },
    }
}

/// `drop:`: the shorthand `"N / W"`, or the full block; absent is `None`.
pub fn parse_drop_spec(doc: &YamlNode, key: &str, ctx: &str) -> (r: Result<Option<DropSpec>, ParseError>)
    requires
        match field_of(*doc, key@) {
            Some(section) => keys_measurable(section),
            None => true,
        },
    ensures
        r matches Ok(d) ==> drop_value(*doc, key@, d),
        match field_of(*doc, key@) {
            None => r matches Ok(None),
            Some(YamlNode::String(s)) => match drop_count_outcome(s@) {
                Ok(_) => r matches Ok(Some(d)) && d.max_count == count_of(s@) && d.max_consecutive is None,
                Err(m) => r matches Err(e) && is_field_err(e, path_text(path_text(ctx@, key@), key@), m),
            },
            Some(section) => {
                &&& r is Ok <==> drop_block_ok(section)
                &&& r matches Ok(Some(d)) ==> {
                    &&& d.max_count == match field_of(section, "max_count"@) {
                        Some(YamlNode::String(s)) => count_of(s@),
                        _ => None,
                    }
                    &&& d.max_consecutive == match field_of(section, "max_consecutive"@) {
                        Some(YamlNode::Integer(i)) => Some(i as u32),
                        _ => None,
                    }
                }
                &&& r matches Ok(o) ==> o is Some
                &&& !accepts_keys(section, Context::Drop) ==> (r matches Err(e) && key_refused(
                    section,
                    Context::Drop,
                    path_text(ctx@, key@),
                    e,
                ))
                &&& accepts_keys(section, Context::Drop) ==> match max_count_failure(section) {
                    Some(m) => r matches Err(e) && is_field_err(
                        e,
                        path_text(path_text(ctx@, key@), "max_count"@),
                        m,
                    ),
                    None => match max_consecutive_failure(section) {
                        Some(m) => r matches Err(e) && is_field_err(
                            e,
                            path_text(path_text(ctx@, key@), "max_consecutive"@),
                            m,
                        ),
                        None => r is Ok,
                    },
                }
            },
        },
{
    let section = match field(doc, key) {
        None => {
            return Ok(None);
        },
        Some(s) => s,
    };
    let here = format_path(ctx, key);
    if let YamlNode::String(s) = section {
        return match DropCount::parse_text(s.as_str()) {
            Ok(count) => Ok(Some(DropSpec { max_count: Some(count), max_consecutive: None })),
            Err(m) => Err(field_err(here.as_str(), key, m.as_str())),
        };
    }
    let checked = reject_unknown_keys(section, here.as_str(), Context::Drop);
    proof {
        lemma_keys_checked(*section, here@, Context::Drop, checked);
    }
    match checked {
        Ok(()) => {},
        Err(e) => {
            return Err(e);
        },
    }
    let max_count = match yaml_string(section, "max_count", here.as_str()) {
        Ok(None) => None,
        Ok(Some(t)) => match DropCount::parse_text(t.as_str()) {
            Ok(c) => Some(c),
            Err(m) => {
                return Err(field_err(here.as_str(), "max_count", m.as_str()));
            },
        },
        Err(e) => {
            return Err(e);
        },
    };
    let max_consecutive = match yaml_u32(section, "max_consecutive", here.as_str()) {
        Ok(v) => v,
        Err(e) => {
            return Err(e);
        },
    };
    Ok(Some(DropSpec { max_count, max_consecutive }))
}

} // verus!
