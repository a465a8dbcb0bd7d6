use launch_manifest::manifest_read::parse_manifest_str;
use launch_manifest::cond::{evaluate, should_include};
use launch_manifest::node_decl::NodeEndpoints;
use launch_manifest::path_decl::PathContract;
use launch_manifest::manifest::{
    filter_manifest, IncludeKind, IncludeText, ManifestText, NodeText, PathText, TopicText, TopicExtras,
};

#[test]
fn test_bool_true() {
    assert!(evaluate("true"));
}

#[test]
fn test_bool_false() {
    assert!(!evaluate("false"));
}

#[test]
fn test_bool_empty() {
    assert!(!evaluate(""));
}

#[test]
fn test_bool_arbitrary() {
    assert!(!evaluate("yes"));
    assert!(!evaluate("1"));
}

#[test]
fn test_eq_true() {
    assert!(evaluate("'true' == 'true'"));
}

#[test]
fn test_eq_false() {
    assert!(!evaluate("'true' == 'false'"));
}

#[test]
fn test_neq() {
    assert!(evaluate("'a' != 'b'"));
    assert!(!evaluate("'a' != 'a'"));
}

#[test]
fn test_bare_words() {
    assert!(evaluate("true == true"));
    assert!(!evaluate("true == false"));
}

#[test]
fn test_and() {
    assert!(evaluate("true and true"));
    assert!(!evaluate("true and false"));
    assert!(!evaluate("false and true"));
}

#[test]
fn test_or() {
    assert!(evaluate("true or false"));
    assert!(evaluate("false or true"));
    assert!(!evaluate("false or false"));
}

#[test]
fn test_compound_with_comparison() {
    assert!(evaluate("'a' == 'a' and 'b' == 'b'"));
    assert!(!evaluate("'a' == 'a' and 'b' == 'c'"));
    assert!(evaluate("'a' == 'x' or 'b' == 'b'"));
}

#[test]
fn test_parentheses() {
    assert!(evaluate("(true)"));
    assert!(evaluate("(true and true)"));
    assert!(evaluate("(false or true) and true"));
    assert!(!evaluate("(false or true) and false"));
}

#[test]
fn test_include_no_conditions() {
    assert!(should_include(None, None));
}

#[test]
fn test_include_if_true() {
    assert!(should_include(Some("true"), None));
}

#[test]
fn test_include_if_false() {
    assert!(!should_include(Some("false"), None));
}

#[test]
fn test_include_unless_true() {
    assert!(!should_include(None, Some("true")));
}

#[test]
fn test_include_unless_false() {
    assert!(should_include(None, Some("false")));
}

#[test]
fn test_include_if_and_unless() {
    assert!(should_include(Some("true"), Some("false")));
    assert!(!should_include(Some("true"), Some("true")));
    assert!(!should_include(Some("false"), Some("false")));
}

// ── filter_manifest, on manifests written out entry by entry ──

fn cond(s: Option<&str>) -> Option<String> {
    s.map(|x| x.to_string())
}

fn node(name: &str, if_c: Option<&str>, unless_c: Option<&str>) -> (String, NodeText) {
    (name.to_string(), NodeText { if_condition: cond(if_c), unless_condition: cond(unless_c), paths: vec![], endpoints: NodeEndpoints::none() })
}

fn topic(name: &str, if_c: Option<&str>, publishers: &[&str], subscribers: &[&str]) -> (String, TopicText) {
    (
        name.to_string(),
        TopicText {
            if_condition: cond(if_c),
            unless_condition: None,
            msg_type: "std_msgs/msg/String".to_string(),
            publishers: publishers.iter().map(|s| s.to_string()).collect(),
            subscribers: subscribers.iter().map(|s| s.to_string()).collect(),
            extras: TopicExtras::none(),
        },
    )
}

fn scope_entry(name: &str, if_c: Option<&str>, unless_c: Option<&str>, kind: IncludeKind) -> (String, IncludeText) {
    (name.to_string(), IncludeText { if_condition: cond(if_c), unless_condition: cond(unless_c), kind })
}

fn scope() -> ManifestText {
    ManifestText::empty()
}

fn has(v: &[(String, impl Sized)], name: &str) -> bool {
    v.iter().any(|(n, _)| n == name)
}

fn get<'a, T>(v: &'a [(String, T)], name: &str) -> &'a T {
    &v.iter().find(|(n, _)| n == name).expect("entry present").1
}

#[test]
fn test_filter_manifest() {
    let yaml = r#"
version: 1
nodes:
  enabled_node:
    if: "true"
    pub: [output]
  disabled_node:
    if: "false"
    pub: [output]
  unless_enabled:
    unless: "false"
    pub: [output]
  unless_disabled:
    unless: "true"
    pub: [output]
  no_condition:
    pub: [output]
topics:
  enabled_topic:
    if: "true"
    type: std_msgs/msg/String
    pub: [enabled_node/output]
  disabled_topic:
    if: "false"
    type: std_msgs/msg/String
    pub: [disabled_node/output]
"#;
    let mut m = parse_manifest_str(yaml).unwrap().text;
    assert_eq!(m.nodes.len(), 5);
    assert_eq!(m.topics.len(), 2);
    filter_manifest(&mut m);
    assert_eq!(m.nodes.len(), 3);
    assert!(has(&m.nodes, "enabled_node"));
    assert!(has(&m.nodes, "unless_enabled"));
    assert!(has(&m.nodes, "no_condition"));
    assert!(!has(&m.nodes, "disabled_node"));
    assert!(!has(&m.nodes, "unless_disabled"));
    assert_eq!(m.topics.len(), 1);
    assert!(has(&m.topics, "enabled_topic"));
}

#[test]
fn test_conditional_ref_dropped_when_node_filtered() {
    let yaml = r#"
version: 1
nodes:
  always_node:
    pub: [output]
  conditional_node:
    if: "false"
    sub: [input]
topics:
  data:
    type: std_msgs/msg/String
    pub: [always_node/output]
    sub:
      - conditional_node/input
"#;
    let mut m = parse_manifest_str(yaml).unwrap().text;
    filter_manifest(&mut m);
    assert!(!has(&m.nodes, "conditional_node"));
    let subs = &get(&m.topics, "data").subscribers;
    assert!(subs.is_empty(), "conditional ref should be dropped: {subs:?}");
}

#[test]
fn test_conditional_ref_kept_when_node_present() {
    let yaml = r#"
version: 1
nodes:
  always_node:
    pub: [output]
  conditional_node:
    if: "true"
    sub: [input]
topics:
  data:
    type: std_msgs/msg/String
    pub: [always_node/output]
    sub:
      - conditional_node/input
"#;
    let mut m = parse_manifest_str(yaml).unwrap().text;
    filter_manifest(&mut m);
    assert!(has(&m.nodes, "conditional_node"));
    let subs = &get(&m.topics, "data").subscribers;
    assert_eq!(subs, &vec!["conditional_node/input".to_string()]);
}

#[test]
fn test_unconditional_ref_kept_even_when_node_missing() {
    let yaml = r#"
version: 1
nodes:
  always_node:
    pub: [output]
topics:
  data:
    type: std_msgs/msg/String
    pub: [always_node/output]
    sub:
      - nonexistent_node/input
"#;
    let mut m = parse_manifest_str(yaml).unwrap().text;
    filter_manifest(&mut m);
    let subs = &get(&m.topics, "data").subscribers;
    assert_eq!(subs, &vec!["nonexistent_node/input".to_string()]);
}

#[test]
fn test_mixed_conditional_and_unconditional_refs() {
    let yaml = r#"
version: 1
nodes:
  required_node:
    sub: [input]
  optional_node_a:
    if: "false"
    sub: [input]
  optional_node_b:
    if: "true"
    sub: [input]
topics:
  data:
    type: std_msgs/msg/String
    pub: []
    sub:
      - required_node/input
      - optional_node_a/input
      - optional_node_b/input
"#;
    let mut m = parse_manifest_str(yaml).unwrap().text;
    filter_manifest(&mut m);
    let subs = &get(&m.topics, "data").subscribers;
    assert_eq!(subs.len(), 2);
    assert_eq!(subs[0], "required_node/input");
    assert_eq!(subs[1], "optional_node_b/input");
}

#[test]
fn test_empty_topic_removed_after_filtering() {
    let yaml = r#"
version: 1
nodes:
  opt_pub:
    if: "false"
    pub: [out]
  opt_sub:
    if: "false"
    sub: [in_data]
topics:
  gone_topic:
    type: std_msgs/msg/String
    pub: [opt_pub/out]
    sub: [opt_sub/in_data]
  half_topic:
    type: std_msgs/msg/String
    pub: [opt_pub/out]
    sub: []
"#;
    let mut m = parse_manifest_str(yaml).unwrap().text;
    filter_manifest(&mut m);
    assert!(!has(&m.topics, "gone_topic"));
    assert!(!has(&m.topics, "half_topic"));
}

#[test]
fn test_conditions_inside_an_inline_include_are_evaluated() {
    let yaml = r#"
version: 1
includes:
  sensors:
    if: "true"
    nodes:
      lidar_driver:
        if: "false"
        pub:
          scan: {}
      camera_driver:
        if: "true"
        pub:
          image: {}
"#;
    let mut m = parse_manifest_str(yaml).unwrap().text;
    filter_manifest(&mut m);
    let inner = match &get(&m.includes, "sensors").kind {
        IncludeKind::Inline(b) => b,
        IncludeKind::External { .. } => panic!("inline include"),
    };
    assert!(!has(&inner.nodes, "lidar_driver"));
    assert!(has(&inner.nodes, "camera_driver"));
    assert!(get(&inner.nodes, "camera_driver").if_condition.is_none());
}

#[test]
fn test_conditional_include_dropped_and_refs_cleaned() {
    let yaml = r#"
version: 1
nodes:
  always_node:
    pub: [output]
    sub: [feedback]
includes:
  perception:
    manifest: perception.yaml
    if: "false"
  planning:
    unless: "true"
    nodes:
      planner:
        pub: [route]
topics:
  data:
    type: std_msgs/msg/String
    pub: [always_node/output]
    sub:
      - perception/points_in
  feedback:
    type: std_msgs/msg/String
    pub: [planning/route_out]
    sub: [always_node/feedback]
"#;
    let mut m = parse_manifest_str(yaml).unwrap().text;
    assert_eq!(m.includes.len(), 2);
    filter_manifest(&mut m);
    assert!(m.includes.is_empty(), "both includes are false");
    assert!(get(&m.topics, "data").subscribers.is_empty());
    assert!(get(&m.topics, "feedback").publishers.is_empty());
    assert_eq!(get(&m.topics, "feedback").subscribers, vec!["always_node/feedback".to_string()]);
}

#[test]
fn test_true_include_survives_with_condition_cleared() {
    let yaml = r#"
version: 1
nodes:
  always_node:
    pub: [output]
includes:
  perception:
    manifest: perception.yaml
    if: "true"
  planning:
    unless: "false"
    nodes:
      planner:
        pub: [route]
topics:
  data:
    type: std_msgs/msg/String
    pub: [always_node/output]
    sub:
      - perception/points_in
"#;
    let mut m = parse_manifest_str(yaml).unwrap().text;
    filter_manifest(&mut m);
    assert_eq!(m.includes.len(), 2);
    for (name, inc) in &m.includes {
        assert!(
            inc.if_condition.is_none() && inc.unless_condition.is_none(),
            "condition on surviving include {name} should be cleared"
        );
    }
    match &get(&m.includes, "perception").kind {
        IncludeKind::External { manifest } => assert_eq!(manifest, "perception.yaml"),
        IncludeKind::Inline(_) => panic!("the external form keeps its target"),
    }
    assert!(matches!(get(&m.includes, "planning").kind, IncludeKind::Inline(_)));
    assert_eq!(get(&m.topics, "data").subscribers, vec!["perception/points_in".to_string()]);
}

#[test]
fn test_unconditional_missing_include_ref_kept() {
    let yaml = r#"
version: 1
nodes:
  always_node:
    pub: [output]
includes:
  perception:
    manifest: perception.yaml
topics:
  data:
    type: std_msgs/msg/String
    pub: [always_node/output]
    sub:
      - percption/points_in
"#;
    let mut m = parse_manifest_str(yaml).unwrap().text;
    filter_manifest(&mut m);
    assert_eq!(m.includes.len(), 1, "unconditional include survives");
    assert_eq!(get(&m.topics, "data").subscribers, vec!["percption/points_in".to_string()]);
}

#[test]
fn filtered_node_paths_lose_their_conditions() {
    let mut m = scope();
    let path = |if_c: Option<&str>| PathText {
        if_condition: cond(if_c),
        unless_condition: None,
        input: vec!["in".to_string()],
        output: vec!["out".to_string()],
        correlation: None,
        contract: PathContract::none(),
    };
    m.nodes = vec![(
        "n".to_string(),
        NodeText {
            if_condition: None,
            unless_condition: None,
            paths: vec![("kept".to_string(), path(Some("true"))), ("dropped".to_string(), path(Some("false")))],
            endpoints: NodeEndpoints::none(),
        },
    )];
    filter_manifest(&mut m);
    let paths = &get(&m.nodes, "n").paths;
    assert_eq!(paths.len(), 1);
    assert_eq!(paths[0].0, "kept");
    assert!(paths[0].1.if_condition.is_none());
    assert_eq!(paths[0].1.input, vec!["in".to_string()]);
}

#[test]
fn a_topic_declared_with_no_references_is_dropped() {
    let mut m = scope();
    m.topics = vec![topic("lonely", None, &[], &[])];
    filter_manifest(&mut m);
    assert!(m.topics.is_empty());
}
