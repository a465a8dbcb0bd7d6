use launch_manifest::decls::ArgDecl;
use launch_manifest::node_decl::NodeEndpoints;
use launch_manifest::path_decl::PathContract;
use launch_manifest::manifest::{IncludeKind, IncludeText, ManifestText, NodeText, PathText, TopicText, TopicExtras};
use launch_manifest::manifest_read::{parse_manifest_str, ManifestDoc};
use launch_manifest::subst::{resolve_args, substitute_manifest, substitute_opt, substitute_str, substitute_vec, SubstError};

fn args(pairs: &[(&str, &str)]) -> Vec<(String, String)> {
    pairs.iter().map(|(k, v)| (k.to_string(), v.to_string())).collect()
}

fn value<'a>(m: &'a [(String, String)], key: &str) -> &'a str {
    m.iter().find(|(k, _)| k == key).expect("key present").1.as_str()
}

#[test]
fn test_substitute_str_basic() {
    let a = args(&[("name", "hello")]);
    assert_eq!(substitute_str("$(var name)", &a).unwrap(), "hello");
    assert_eq!(substitute_str("prefix_$(var name)_suffix", &a).unwrap(), "prefix_hello_suffix");
}

#[test]
fn test_substitute_str_multiple() {
    let a = args(&[("a", "X"), ("b", "Y")]);
    assert_eq!(substitute_str("$(var a)/$(var b)", &a).unwrap(), "X/Y");
}

#[test]
fn test_substitute_str_no_vars() {
    let a = args(&[]);
    assert_eq!(substitute_str("plain string", &a).unwrap(), "plain string");
}

#[test]
fn test_substitute_str_unresolved() {
    let a = args(&[]);
    let err = substitute_str("$(var missing)", &a).unwrap_err();
    assert!(matches!(err, SubstError::Unresolved { .. }));
}

#[test]
fn test_substitute_str_malformed() {
    let a = args(&[]);
    let err = substitute_str("$(var unclosed", &a).unwrap_err();
    assert!(matches!(err, SubstError::Malformed { .. }));
}

#[test]
fn test_resolve_args_all_present() {
    let manifest_args = vec![("a".to_string(), ArgDecl::String), ("b".to_string(), ArgDecl::String)];
    let caller = args(&[("a", "val_a"), ("b", "val_b")]);
    let resolved = resolve_args(&manifest_args, &caller).unwrap();
    assert_eq!(value(&resolved, "a"), "val_a");
    assert_eq!(value(&resolved, "b"), "val_b");
}

#[test]
fn test_resolve_args_missing() {
    let manifest_args = vec![("req".to_string(), ArgDecl::String)];
    let caller = args(&[]);
    let err = resolve_args(&manifest_args, &caller).unwrap_err();
    assert!(matches!(err, SubstError::RequiredArgMissing { .. }));
}

#[test]
fn test_resolve_args_passthrough() {
    let manifest_args: Vec<(String, ArgDecl)> = vec![];
    let caller = args(&[("extra", "val")]);
    let resolved = resolve_args(&manifest_args, &caller).unwrap();
    assert_eq!(value(&resolved, "extra"), "val");
}

#[test]
fn test_resolve_args_bool_valid() {
    let manifest_args = vec![("flag".to_string(), ArgDecl::Bool)];
    let caller = args(&[("flag", "true")]);
    let resolved = resolve_args(&manifest_args, &caller).unwrap();
    assert_eq!(value(&resolved, "flag"), "true");
}

#[test]
fn test_resolve_args_bool_invalid() {
    let manifest_args = vec![("flag".to_string(), ArgDecl::Bool)];
    let caller = args(&[("flag", "yes")]);
    let err = resolve_args(&manifest_args, &caller).unwrap_err();
    assert!(matches!(err, SubstError::InvalidArgValue { .. }));
}

#[test]
fn test_resolve_args_choices_valid() {
    let manifest_args = vec![("mode".to_string(), ArgDecl::Choices(vec!["ndt".to_string(), "eagleye".to_string()]))];
    let caller = args(&[("mode", "ndt")]);
    let resolved = resolve_args(&manifest_args, &caller).unwrap();
    assert_eq!(value(&resolved, "mode"), "ndt");
}

#[test]
fn test_resolve_args_choices_invalid() {
    let manifest_args = vec![("mode".to_string(), ArgDecl::Choices(vec!["ndt".to_string(), "eagleye".to_string()]))];
    let caller = args(&[("mode", "gnss")]);
    let err = resolve_args(&manifest_args, &caller).unwrap_err();
    assert!(matches!(err, SubstError::InvalidArgValue { .. }));
}

fn topic(msg_type: &str) -> TopicText {
    TopicText {
        if_condition: None,
        unless_condition: None,
        msg_type: msg_type.to_string(),
        publishers: vec![],
        subscribers: vec![],
        extras: TopicExtras::none(),
    }
}

fn read(source: &str) -> ManifestDoc {
    parse_manifest_str(source).unwrap()
}

#[test]
fn test_substitute_manifest_topics() {
    // Map form: keys only.
    let manifest = read(
        "args:\n  topic_name:\n\nversion: 1\nnodes:\n  planner:\n    sub: [objects]\ntopics:\n  objects:\n    type: autoware_perception_msgs/msg/PredictedObjects\n    sub: [planner/objects]\n",
    );
    assert_eq!(manifest.args.len(), 1);
    assert!(manifest.args.iter().any(|(k, _)| k == "topic_name"));

    // List form.
    let m2 = read("args: [topic_name, other_arg]\nversion: 1\n");
    assert_eq!(m2.args.len(), 2);
    assert!(m2.args.iter().any(|(k, _)| k == "topic_name"));
    assert!(m2.args.iter().any(|(k, _)| k == "other_arg"));

    // Substitution on a manifest with $(var ...) in fields.
    let m = read("args:\n  topic_name:\n\nversion: 1\ntopics:\n  input:\n    type: $(var topic_name)\n    pub: []\n    sub: []\n");
    let a = args(&[("topic_name", "/resolved/topic")]);
    let substituted = substitute_manifest(m.text, &a).unwrap();
    assert_eq!(substituted.topics[0].0, "input");
    assert_eq!(substituted.topics[0].1.msg_type, "/resolved/topic");
}

#[test]
fn substitution_reaches_every_field_and_stops_at_the_first_failure() {
    let mut m = ManifestText::empty();
    m.nodes = vec![(
        "n".to_string(),
        NodeText {
            if_condition: Some("$(var on)".to_string()),
            unless_condition: None,
            paths: vec![(
                "p".to_string(),
                PathText {
                    if_condition: None,
                    unless_condition: None,
                    input: vec!["$(var src)".to_string()],
                    output: vec!["out".to_string()],
                    correlation: Some("$(var src)".to_string()),
                    contract: PathContract::none(),
                },
            )],
            endpoints: NodeEndpoints::none(),
        },
    )];
    m.includes = vec![(
        "inc".to_string(),
        IncludeText {
            if_condition: None,
            unless_condition: None,
            kind: IncludeKind::External { manifest: "$(var dir)/x.yaml".to_string() },
        },
    )];
    let a = args(&[("on", "true"), ("src", "cam"), ("dir", "/d")]);
    let out = substitute_manifest(m, &a).unwrap();
    assert_eq!(out.nodes[0].1.if_condition.as_deref(), Some("true"));
    assert_eq!(out.nodes[0].1.paths[0].1.input, vec!["cam".to_string()]);
    assert_eq!(out.nodes[0].1.paths[0].1.correlation.as_deref(), Some("cam"));
    match &out.includes[0].1.kind {
        IncludeKind::External { manifest } => assert_eq!(manifest, "/d/x.yaml"),
        IncludeKind::Inline(_) => panic!("external include"),
    }

    let mut bad = ManifestText::empty();
    bad.topics = vec![("t".to_string(), topic("$(var first)")), ("u".to_string(), topic("$(var second"))];
    match substitute_manifest(bad, &args(&[])).unwrap_err() {
        SubstError::Unresolved { name } => assert_eq!(name, "first"),
        other => panic!("expected the first failure, got {other:?}"),
    }
}

#[test]
fn optional_and_list_substitution() {
    let a = args(&[("x", "1")]);
    assert_eq!(substitute_opt(&None, &a).unwrap(), None);
    assert_eq!(substitute_opt(&Some("v$(var x)".to_string()), &a).unwrap(), Some("v1".to_string()));
    assert_eq!(
        substitute_vec(&vec!["$(var x)".to_string(), "y".to_string()], &a).unwrap(),
        vec!["1".to_string(), "y".to_string()]
    );
    assert!(substitute_vec(&vec!["ok".to_string(), "$(var nope)".to_string()], &a).is_err());
}
