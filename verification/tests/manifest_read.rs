use launch_manifest::manifest::{ExternalSide, IncludeKind, ParseError};
use launch_manifest::manifest_read::{parse_manifest_str, ManifestDoc};
use launch_manifest::path_fields::ExternalEndpointSide;

fn read(source: &str) -> Result<ManifestDoc, ParseError> {
    parse_manifest_str(source)
}

fn get<'a, T>(table: &'a [(String, T)], name: &str) -> &'a T {
    &table.iter().find(|(n, _)| n == name).unwrap().1
}

#[test]
fn test_services_and_actions() {
    let yaml = r#"
version: 1
services:
  configure:
    type: std_srvs/srv/SetBool
    server: [driver/configure]
    client: [controller/configure]
actions:
  navigate:
    type: nav2_msgs/action/NavigateToPose
    server: [navigator/navigate]
    client: [planner/navigate]
"#;
    let m = read(yaml).unwrap();
    let svc = get(&m.text.services, "configure");
    assert_eq!(svc.srv_type, "std_srvs/srv/SetBool");
    assert_eq!(svc.server, vec!["driver/configure"]);
    let act = get(&m.text.actions, "navigate");
    assert_eq!(act.action_type, "nav2_msgs/action/NavigateToPose");
    assert_eq!(act.client, vec!["planner/navigate"]);
}

#[test]
fn test_external_topics_block() {
    let yaml = r#"
version: 1
external_topics:
  /tf:
    external: pub
    type: tf2_msgs/msg/TFMessage
  /vehicle/engage:
    external: pub
  /debug/marker:
    external: sub
  /passthrough/relay:
    external: both
    type: std_msgs/msg/String
    qos: { reliability: best_effort }
"#;
    let m = read(yaml).unwrap();
    assert_eq!(m.text.external_topics.len(), 4);
    let tf = get(&m.text.external_topics, "/tf");
    assert_eq!(tf.side, ExternalSide::Pub);
    assert_eq!(tf.msg_type.as_deref(), Some("tf2_msgs/msg/TFMessage"));
    let engage = get(&m.text.external_topics, "/vehicle/engage");
    assert_eq!(engage.side, ExternalSide::Pub);
    assert!(engage.msg_type.is_none());
    assert_eq!(get(&m.text.external_topics, "/debug/marker").side, ExternalSide::Sub);
    let passthrough = get(&m.text.external_topics, "/passthrough/relay");
    assert_eq!(passthrough.side, ExternalSide::Both);
    let qos = passthrough.qos.as_ref().unwrap();
    assert_eq!(qos.reliability.as_deref(), Some("best_effort"));
}

#[test]
fn test_external_invalid_side_errors() {
    let yaml = "version: 1\nexternal_topics:\n  /tf: { external: maybe }\n";
    let msg = read(yaml).unwrap_err().message();
    assert!(msg.contains("invalid external side") || msg.contains("'maybe'"), "got: {msg}");
}

#[test]
fn an_external_topic_without_a_side_is_refused() {
    let msg = read("external_topics:\n  /tf:\n    type: x\n").unwrap_err().message();
    assert!(msg.contains("must have a 'side: pub|sub|both'"), "got: {msg}");
}

#[test]
fn a_qos_lifespan_reads_in_whole_milliseconds() {
    let yaml = "external_topics:\n  /t:\n    side: sub\n    qos: { lifespan: 1500ms, depth: 5 }\n";
    let m = read(yaml).unwrap();
    let qos = get(&m.text.external_topics, "/t").qos.as_ref().unwrap();
    assert_eq!(qos.lifespan_ms, Some(1500));
    assert_eq!(qos.depth, Some(5));
}

#[test]
fn test_includes() {
    let yaml = r#"
version: 1
includes:
  lidar:
    manifest: tier4_perception_launch/lidar_perception.launch.yaml
  safety:
    nodes:
      emergency_stop:
        pub: [stop_cmd]
        sub: [diagnostics]
"#;
    let m = read(yaml).unwrap();
    assert_eq!(m.text.includes.len(), 2);
    match &get(&m.text.includes, "lidar").kind {
        IncludeKind::External { manifest } => {
            assert_eq!(manifest, "tier4_perception_launch/lidar_perception.launch.yaml")
        }
        _ => panic!("expected External"),
    }
    match &get(&m.text.includes, "safety").kind {
        IncludeKind::Inline(inner) => assert!(inner.nodes.iter().any(|(n, _)| n == "emergency_stop")),
        _ => panic!("expected Inline"),
    }
}

#[test]
fn a_path_input_reads_a_single_name_through_the_scope() {
    let m = read("nodes:\n  n:\n    sub:\n      a: {}\n    pub:\n      o: {}\n    paths:\n      p:\n        input: a\n        output: [o]\n")
        .unwrap();
    let n = get(&m.text.nodes, "n");
    assert_eq!(get(&n.paths, "p").input, vec!["a"]);
}

#[test]
fn a_chains_section_is_refused_with_its_replacement() {
    let msg = read("chains:\n  c: {}\n").unwrap_err().message();
    assert!(msg.contains("`chains:`/`segments:` were removed"), "got: {msg}");
}

#[test]
fn version_defaults_to_one_and_tables_read_by_name() {
    let m = read("topics:\n  b: std_msgs/msg/String\n  a: { type: x }\n").unwrap();
    assert_eq!(m.version, 1);
    let names: Vec<&str> = m.text.topics.iter().map(|(n, _)| n.as_str()).collect();
    assert_eq!(names, vec!["a", "b"]);
    assert_eq!(read("version: 2\n").unwrap().version, 2);
}

#[test]
fn a_nested_correlation_in_an_inline_include_is_refused() {
    let msg = read("includes:\n  s:\n    paths:\n      p:\n        correlation: timestamp\n")
        .unwrap_err()
        .message();
    assert!(msg.contains("`correlation:` was removed"), "got: {msg}");
}

#[test]
fn a_topic_with_a_quoted_rate_or_a_bad_qos_is_refused() {
    let msg = read("topics:\n  t:\n    type: x\n    rate_hz: \"10\"\n").unwrap_err().message();
    assert!(msg.contains("got a quoted string"), "got: {msg}");
    let msg = read("topics:\n  t:\n    type: x\n    qos: { depth: -1 }\n").unwrap_err().message();
    assert!(msg.contains("non-negative integer"), "got: {msg}");
    let msg = read("topics:\n  t:\n    type: x\n    external: maybe\n").unwrap_err().message();
    assert!(msg.contains("invalid external side"), "got: {msg}");
    assert!(read("topics:\n  t:\n    type: x\n    rate_hz: 10.5\n    max_transport: 2ms\n    external: pub\n").is_ok());
}

#[test]
fn a_service_external_key_is_not_in_the_schema() {
    let msg = read("services:\n  s:\n    type: t\n    external: server\n").unwrap_err().message();
    assert!(msg.contains("unknown key in `services.<name>`"), "got: {msg}");
    let m = read("services:\n  s:\n    type: t\n").unwrap();
    assert_eq!(get(&m.text.services, "s").external, None::<ExternalEndpointSide>);
}
