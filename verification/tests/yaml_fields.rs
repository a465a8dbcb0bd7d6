use launch_manifest::decls::{ArgDecl, DropCount};
use launch_manifest::field_table::Context;
use launch_manifest::manifest::{Buffer, ExternalSide, ParseError};
use launch_manifest::yaml_fields::{
    format_path, parse_arg_decl, parse_buffer, parse_drop_spec, parse_external_side,
    parse_string_or_list, reject_unknown_keys, yaml_bool, yaml_str_owned, yaml_string,
    yaml_string_list, yaml_u32, YamlNode,
};

fn s(x: &str) -> YamlNode {
    YamlNode::String(x.to_string())
}

fn map(entries: Vec<(&str, YamlNode)>) -> YamlNode {
    YamlNode::Hash(entries.into_iter().map(|(k, v)| (s(k), v)).collect())
}

fn field_error(e: ParseError) -> (String, String) {
    match e {
        ParseError::Field { path, message } => (path, message),
        other => panic!("expected a field error, got {other:?}"),
    }
}

#[test]
fn paths_join_with_a_dot_except_at_the_top() {
    assert_eq!(format_path("", "nodes"), "nodes");
    assert_eq!(format_path("nodes.talker", "pub"), "nodes.talker.pub");
}

#[test]
fn a_wrong_type_is_an_error_not_absent() {
    let doc = map(vec![("max_count", YamlNode::Integer(5)), ("name", s("x")), ("none", YamlNode::Null)]);
    let (path, message) = field_error(yaml_string(&doc, "max_count", "drop").unwrap_err());
    assert_eq!(path, "drop.max_count");
    assert!(message.starts_with("expected a string, got an integer."), "{message}");
    assert_eq!(yaml_string(&doc, "name", "").unwrap().as_deref(), Some("x"));
    assert_eq!(yaml_string(&doc, "none", "").unwrap(), None);
    assert_eq!(yaml_string(&doc, "missing", "").unwrap(), None);
}

#[test]
fn integers_and_booleans() {
    let doc = map(vec![
        ("depth", YamlNode::Integer(10)),
        ("neg", YamlNode::Integer(-1)),
        ("flag", YamlNode::Boolean(true)),
        ("quoted", s("true")),
    ]);
    assert_eq!(yaml_u32(&doc, "depth", "").unwrap(), Some(10));
    assert_eq!(field_error(yaml_u32(&doc, "neg", "q").unwrap_err()).1, "expected a non-negative integer");
    assert_eq!(yaml_bool(&doc, "flag", "").unwrap(), Some(true));
    let (_, message) = field_error(yaml_bool(&doc, "quoted", "").unwrap_err());
    assert!(message.contains("without quotes"), "{message}");
}

#[test]
fn scalars_read_as_written() {
    assert_eq!(yaml_str_owned(&YamlNode::Integer(-42)), "-42");
    assert_eq!(yaml_str_owned(&YamlNode::Real("2.5".to_string())), "2.5");
    assert_eq!(yaml_str_owned(&YamlNode::Boolean(false)), "false");
    assert_eq!(yaml_str_owned(&YamlNode::Null), "");
}

#[test]
fn a_bare_scalar_where_a_list_belongs_is_refused_with_the_fix() {
    let doc = map(vec![("output", s("chatter")), ("pub", YamlNode::Array(vec![s("a"), YamlNode::Integer(3)]))]);
    let (path, message) = field_error(yaml_string_list(&doc, "output", "paths.p").unwrap_err());
    assert_eq!(path, "paths.p.output");
    assert!(message.starts_with("expected a list, got a bare scalar — write `output: [chatter]`"), "{message}");
    assert_eq!(yaml_string_list(&doc, "pub", "").unwrap(), vec!["a".to_string(), "3".to_string()]);
    let nested = map(vec![("pub", YamlNode::Array(vec![s("a"), map(vec![])]))]);
    let (path, _) = field_error(yaml_string_list(&nested, "pub", "n").unwrap_err());
    assert_eq!(path, "n.pub[1]");
}

#[test]
fn closed_vocabularies() {
    assert_eq!(parse_buffer(&map(vec![("buffer", s("queue"))]), "").unwrap(), Some(Buffer::Queue));
    assert_eq!(parse_buffer(&map(vec![]), "").unwrap(), None);
    let (_, message) = field_error(parse_buffer(&map(vec![("buffer", s("ring"))]), "").unwrap_err());
    assert_eq!(message, "invalid buffer 'ring', expected 'latest' or 'queue'");
    assert_eq!(
        parse_external_side(&map(vec![("external", s("both"))]), "external", "").unwrap(),
        Some(ExternalSide::Both)
    );
    assert!(parse_external_side(&map(vec![("external", s("server"))]), "external", "").is_err());
}

#[test]
fn argument_declarations() {
    assert!(matches!(parse_arg_decl(&YamlNode::Null, "").unwrap(), ArgDecl::String));
    assert!(matches!(parse_arg_decl(&map(vec![("type", s("bool"))]), "").unwrap(), ArgDecl::Bool));
    assert!(matches!(parse_arg_decl(&map(vec![("type", s("string"))]), "").unwrap(), ArgDecl::String));
    match parse_arg_decl(&map(vec![("choices", YamlNode::Array(vec![s("ndt"), s("eagleye")]))]), "").unwrap() {
        ArgDecl::Choices(v) => assert_eq!(v, vec!["ndt".to_string(), "eagleye".to_string()]),
        other => panic!("expected choices, got {other:?}"),
    }
}

#[test]
fn an_unrelated_key_lists_what_is_accepted() {
    let doc = map(vec![("bogus_field", s("x"))]);
    let (_, message) = field_error(reject_unknown_keys(&doc, "", Context::Drop).unwrap_err());
    assert!(message.contains("accepted here: "), "{message}");
    assert!(message.contains("max_count"), "{message}");
    assert!(reject_unknown_keys(&map(vec![("max_count", s("1 / 2"))]), "", Context::Drop).is_ok());
    assert!(reject_unknown_keys(&YamlNode::Null, "", Context::Drop).is_ok());
}

#[test]
fn drop_block_form() {
    let doc = map(vec![("drop", map(vec![("max_count", s("2 / 10")), ("max_consecutive", YamlNode::Integer(3))]))]);
    let d = parse_drop_spec(&doc, "drop", "").unwrap().unwrap();
    assert_eq!(d.max_count, Some(DropCount { n: 2, w: 10 }));
    assert_eq!(d.max_consecutive, Some(3));
    assert!(parse_drop_spec(&map(vec![]), "drop", "").unwrap().is_none());
    let unknown = map(vec![("drop", map(vec![("max_cnt", s("2 / 10"))]))]);
    assert!(parse_drop_spec(&unknown, "drop", "").is_err());
}

#[test]
fn a_bad_window_in_the_block_form_names_max_count() {
    let doc = map(vec![("drop", map(vec![("max_count", s("5 / 0"))]))]);
    let (path, message) = field_error(parse_drop_spec(&doc, "drop", "topics.t").unwrap_err());
    assert_eq!(path, "topics.t.drop.max_count");
    assert_eq!(message, "window size must be > 0");
    let doc = map(vec![("drop", map(vec![("max_consecutive", YamlNode::Integer(-1))]))]);
    let (path, message) = field_error(parse_drop_spec(&doc, "drop", "").unwrap_err());
    assert_eq!(path, "drop.max_consecutive");
    assert_eq!(message, "expected a non-negative integer");
}
