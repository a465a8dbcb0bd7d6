use launch_manifest::manifest::{Buffer, ExternalSide, ParseError};
use launch_manifest::decls::ArgDecl;
use launch_manifest::manifest_read::{parse_manifest_str, ManifestDoc};
use launch_manifest::node_decl::NumberText;
use launch_manifest::path_decl::{EffectiveTrigger, TimerRate};
use launch_manifest::path_fields::MissAction;

fn get<'a, T>(table: &'a [(String, T)], name: &str) -> &'a T {
    &table.iter().find(|(n, _)| n == name).unwrap_or_else(|| panic!("no entry {name}")).1
}

fn has<T>(table: &[(String, T)], name: &str) -> bool {
    table.iter().any(|(n, _)| n == name)
}

fn parse(yaml: &str) -> ManifestDoc {
    parse_manifest_str(yaml).unwrap()
}

fn err(yaml: &str) -> String {
    parse_manifest_str(yaml).unwrap_err().message()
}

#[test]
fn test_minimal_manifest() {
    let yaml = r#"
version: 1
nodes:
  talker:
    pub: [chatter]
  listener:
    sub: [chatter]
topics:
  chatter:
    type: std_msgs/msg/String
    pub: [talker/chatter]
    sub: [listener/chatter]
"#;
    let m = parse(yaml);
    assert_eq!(m.version, 1);
    assert_eq!(m.text.nodes.len(), 2);
    assert_eq!(m.text.topics.len(), 1);
    let talker = get(&m.text.nodes, "talker");
    assert!(has(&talker.endpoints.publishers, "chatter"));
    assert!(talker.endpoints.subscribers.is_empty());
    let topic = get(&m.text.topics, "chatter");
    assert_eq!(topic.msg_type, "std_msgs/msg/String");
    assert_eq!(topic.publishers, vec!["talker/chatter"]);
    assert_eq!(topic.subscribers, vec!["listener/chatter"]);
}

#[test]
fn test_endpoint_properties() {
    let yaml = r#"
version: 1
nodes:
  ndt:
    sub:
      sensor_points:
        min_rate_hz: 10
      initial_pose:
        required: true
      regularization_pose:
        state: true
    pub:
      ndt_pose:
        min_rate_hz: 10
      exe_time_ms:
    srv:
      trigger_node:
        max_response_ms: 100
"#;
    let m = parse(yaml);
    let ndt = &get(&m.text.nodes, "ndt").endpoints;
    assert_eq!(get(&ndt.subscribers, "sensor_points").min_rate_hz, Some(NumberText::Integer(10)));
    assert_eq!(get(&ndt.subscribers, "initial_pose").required, Some(true));
    assert_eq!(get(&ndt.subscribers, "regularization_pose").state, Some(true));
    assert_eq!(get(&ndt.publishers, "ndt_pose").min_rate_hz, Some(NumberText::Integer(10)));
    assert!(has(&ndt.publishers, "exe_time_ms"));
    assert_eq!(get(&ndt.srv, "trigger_node").max_response.map(|d| d.as_nanos()), Some(100_000_000));
}

#[test]
fn test_lifecycle_node() {
    let yaml = "version: 1\nnodes:\n  lidar_driver:\n    lifecycle: true\n    pub:\n      pointcloud:\n        min_rate_hz: 10\n  regular_node:\n    pub:\n      data: {}\n";
    let m = parse(yaml);
    assert_eq!(get(&m.text.nodes, "lidar_driver").endpoints.lifecycle, Some(true));
    assert_eq!(get(&m.text.nodes, "regular_node").endpoints.lifecycle, None);
}

#[test]
fn test_node_criticality() {
    let yaml = "version: 1\nnodes:\n  control_node:\n    criticality: high\n  regular_node:\n    pub:\n      data: {}\n";
    let m = parse(yaml);
    assert_eq!(get(&m.text.nodes, "control_node").endpoints.criticality.as_deref(), Some("high"));
    assert_eq!(get(&m.text.nodes, "regular_node").endpoints.criticality, None);
}

#[test]
fn test_endpoint_qos_override() {
    let yaml = r#"
version: 1
nodes:
  lidar:
    pub:
      pointcloud:
        qos:
          reliability: best_effort
          depth: 5
  perception:
    sub:
      pointcloud:
        qos: { reliability: reliable }
        max_transport_ms: 0
  remote_viz:
    sub:
      pointcloud:
        max_transport_ms: 10
"#;
    let m = parse(yaml);
    let lidar_pub = get(&get(&m.text.nodes, "lidar").endpoints.publishers, "pointcloud");
    let lidar_qos = lidar_pub.qos.as_ref().unwrap();
    assert_eq!(lidar_qos.reliability.as_deref(), Some("best_effort"));
    assert_eq!(lidar_qos.depth, Some(5));
    assert!(lidar_pub.max_transport.is_none());
    let perception_sub = get(&get(&m.text.nodes, "perception").endpoints.subscribers, "pointcloud");
    assert_eq!(perception_sub.qos.as_ref().unwrap().reliability.as_deref(), Some("reliable"));
    assert_eq!(perception_sub.max_transport.map(|d| d.as_nanos()), Some(0));
    let remote_sub = get(&get(&m.text.nodes, "remote_viz").endpoints.subscribers, "pointcloud");
    assert!(remote_sub.qos.is_none());
    assert_eq!(remote_sub.max_transport.map(|d| d.as_nanos()), Some(10_000_000));
}

#[test]
fn duplicate_endpoint_names_across_sections_are_refused() {
    let msg = err("version: 1\nnodes:\n  relay:\n    pub: [data]\n    sub: [data]\n");
    assert!(msg.contains("duplicate endpoint name"), "got: {msg}");
    let msg = err("nodes:\n  n:\n    srv: { s: {} }\n    cli: [s]\n");
    assert!(msg.contains("duplicate endpoint name"), "got: {msg}");
    assert!(parse_manifest_str("nodes:\n  n:\n    pub: [a, a]\n").is_ok());
}

#[test]
fn a_removed_key_with_a_dedicated_check_keeps_its_own_message() {
    let msg = err("chains:\n  c:\n    segments: []\n");
    assert!(msg.contains("State the same requirement as a scope path"), "got: {msg}");
    let msg = err("nodes:\n  n:\n    pub:\n      out:\n        jitter_ms: 5\n");
    assert!(msg.contains("property of a ROUTE"), "got: {msg}");
}

#[test]
fn an_unknown_endpoint_key_is_refused() {
    let msg = err("nodes:\n  n:\n    sub:\n      x: { rate: 5 }\n");
    assert!(msg.contains("unknown key"), "got: {msg}");
    let msg = err("nodes:\n  n:\n    pub: oops\n");
    assert!(msg.contains("expected list or mapping"), "got: {msg}");
    let msg = err("nodes:\n  n:\n    lifecycle: \"yes\"\n");
    assert!(msg.contains("expected a boolean"), "got: {msg}");
}

#[test]
fn buffer_without_state_is_error() {
    let msg = err("version: 1\nnodes:\n  n:\n    sub:\n      x: { buffer: queue }\n");
    assert!(msg.contains("only meaningful"), "got: {msg}");
}

#[test]
fn buffer_invalid_value_is_error() {
    let msg = err("version: 1\nnodes:\n  n:\n    sub:\n      x: { state: true, buffer: eager }\n");
    assert!(msg.contains("invalid buffer"), "got: {msg}");
}

#[test]
fn buffer_with_state_true_is_ok() {
    let m = parse("version: 1\nnodes:\n  n:\n    sub:\n      x: { state: true, buffer: queue }\n");
    assert_eq!(get(&get(&m.text.nodes, "n").endpoints.subscribers, "x").buffer, Some(Buffer::Queue));
}

#[test]
fn golden_parse_buffer_discriminator() {
    let m = parse("version: 1\nnodes:\n  ekf:\n    sub:\n      control_cmd: { state: true }\n      twist: { state: true, buffer: queue }\n");
    let ekf = &get(&m.text.nodes, "ekf").endpoints;
    assert_eq!(get(&ekf.subscribers, "control_cmd").buffer, None);
    assert_eq!(get(&ekf.subscribers, "twist").buffer, Some(Buffer::Queue));
}

#[test]
fn test_empty_manifest() {
    let m = parse("");
    assert_eq!(m.version, 1);
    assert!(m.text.nodes.is_empty());
}

#[test]
fn a_yaml_syntax_error_is_reported() {
    assert!(matches!(parse_manifest_str("nodes: [a\n"), Err(ParseError::YamlSyntax(_))));
}

#[test]
fn concurrency_reaches_the_node() {
    let m = parse("nodes:\n  n:\n    concurrency: { exclusive: [[a, b]] }\n    paths:\n      a: { output: [o] }\n");
    let c = get(&m.text.nodes, "n").endpoints.concurrency.as_ref().unwrap();
    assert_eq!(c.exclusive, vec![vec!["a".to_string(), "b".to_string()]]);
}

#[test]
fn test_topic_with_contract() {
    let yaml = r#"
version: 1
topics:
  pointcloud:
    type: sensor_msgs/msg/PointCloud2
    pub: [lidar_driver/pointcloud]
    sub: [cropbox_filter/input]
    qos:
      reliability: best_effort
      depth: 1
    rate_hz: 10
    drop: 1 / 100
  debug_output: sensor_msgs/msg/PointCloud2
"#;
    let m = parse(yaml);
    assert_eq!(m.text.topics.len(), 2);

    let pc = get(&m.text.topics, "pointcloud");
    assert_eq!(pc.msg_type, "sensor_msgs/msg/PointCloud2");
    assert_eq!(pc.extras.rate_hz, Some(NumberText::Integer(10)));
    let qos = pc.extras.qos.as_ref().unwrap();
    assert_eq!(qos.reliability.as_deref(), Some("best_effort"));
    assert_eq!(qos.depth, Some(1));
    let drop = pc.extras.drop.as_ref().unwrap();
    assert_eq!(drop.max_count.as_ref().unwrap().n, 1);
    assert_eq!(drop.max_count.as_ref().unwrap().w, 100);

    // Shorthand form
    let debug = get(&m.text.topics, "debug_output");
    assert_eq!(debug.msg_type, "sensor_msgs/msg/PointCloud2");
    assert!(debug.publishers.is_empty());
}

#[test]
fn test_topic_external_flag() {
    let yaml = r#"
version: 1
nodes:
  consumer:
    sub: [data]
topics:
  /sensor/data:
    type: std_msgs/msg/String
    external: pub
    sub: [consumer/data]
"#;
    let m = parse(yaml);
    let topic = get(&m.text.topics, "/sensor/data");
    assert_eq!(topic.extras.external, Some(ExternalSide::Pub));
}

#[test]
fn a_topic_keeps_its_transport_latency_and_drop_block() {
    let yaml = r#"
version: 1
topics:
  scan:
    type: sensor_msgs/msg/LaserScan
    rate_hz: 12.5
    max_transport: 3ms
    drop:
      max_count: 2 / 50
      max_consecutive: 1
"#;
    let m = parse(yaml);
    let scan = get(&m.text.topics, "scan");
    assert_eq!(scan.extras.rate_hz, Some(NumberText::Real("12.5".to_string())));
    assert_eq!(scan.extras.max_transport.map(|d| d.as_nanos()), Some(3_000_000));
    let drop = scan.extras.drop.as_ref().unwrap();
    assert_eq!(drop.max_count.as_ref().map(|c| (c.n, c.w)), Some((2, 50)));
    assert_eq!(drop.max_consecutive, Some(1));
    assert!(scan.extras.external.is_none());
}

#[test]
fn test_paths() {
    let yaml = r#"
version: 1
nodes:
  ndt:
    sub: [sensor_points]
    pub: [ndt_pose, exe_time_ms]
    paths:
      localization:
        input: sensor_points
        output: [ndt_pose]
        max_latency_ms: 50
        drop:
          max_count: 10 / 100
          max_consecutive: 5
      debug:
        input: sensor_points
        output: [exe_time_ms]
"#;
    let m = parse(yaml);
    let ndt = get(&m.text.nodes, "ndt");
    assert_eq!(ndt.paths.len(), 2);

    let loc = get(&ndt.paths, "localization");
    assert_eq!(loc.input, vec!["sensor_points"]);
    assert_eq!(loc.output, vec!["ndt_pose"]);
    assert_eq!(loc.contract.max_latency.map(|d| d.as_nanos()), Some(50_000_000));
    let drop = loc.contract.drop.as_ref().unwrap();
    assert_eq!(drop.max_count.as_ref().unwrap().n, 10);
    assert_eq!(drop.max_count.as_ref().unwrap().w, 100);
    assert_eq!(drop.max_consecutive, Some(5));

    let debug = get(&ndt.paths, "debug");
    assert_eq!(debug.input, vec!["sensor_points"]);
    assert!(debug.contract.max_latency.is_none());
}

#[test]
fn test_scope_paths() {
    let yaml = r#"
version: 1
paths:
  main:
    input: raw_data
    output: [detections]
    max_latency_ms: 50
"#;
    let m = parse(yaml);
    let main = get(&m.text.paths, "main");
    assert_eq!(main.input, vec!["raw_data"]);
    assert_eq!(main.output, vec!["detections"]);
    assert_eq!(main.contract.max_latency.map(|d| d.as_nanos()), Some(50_000_000));
}

#[test]
fn test_multi_input_path() {
    let yaml = r#"
version: 1
nodes:
  fusion:
    sub: [lidar_objects, camera_objects]
    pub: [fused]
    paths:
      fusion:
        input: [lidar_objects, camera_objects]
        output: [fused]
        tolerance_ms: 50
        max_latency_ms: 20
"#;
    let m = parse(yaml);
    let path = get(&get(&m.text.nodes, "fusion").paths, "fusion");
    assert_eq!(path.input, vec!["lidar_objects", "camera_objects"]);
    assert_eq!(path.contract.tolerance.map(|d| d.as_nanos()), Some(50_000_000));
}

#[test]
fn a_wrong_type_is_rejected_not_read_as_absent() {
    let cases: &[(&str, &str)] = &[
        // an integer where a "N / W" string is expected
        (
            "nodes:\n  n:\n    paths:\n      p:\n        output: [o]\n        drop: { max_count: 5 }\n",
            "expected a string, got an integer",
        ),
        // a quoted number
        ("topics:\n  t:\n    type: T\n    rate_hz: \"100\"\n", "remove the quotes"),
        // a quoted boolean
        ("nodes:\n  n:\n    lifecycle: \"true\"\n", "without quotes"),
        // a bare scalar where a list is expected
        ("nodes:\n  n:\n    paths:\n      p:\n        output: o\n", "write `output: [o]`"),
        // a mapping where a string is expected
        ("nodes:\n  n:\n    criticality: { level: high }\n", "got a mapping"),
        // a negative depth
        ("topics:\n  t:\n    type: T\n    qos: { depth: -1 }\n", "non-negative"),
    ];
    for (yaml, needle) in cases {
        let err = parse_manifest_str(yaml)
            .err()
            .unwrap_or_else(|| panic!("must not parse:\n{yaml}"))
            .message();
        assert!(err.contains(needle), "for:\n{yaml}\ngot: {err}");
    }
}

#[test]
fn a_removed_correlation_names_sync_as_the_replacement() {
    let e = err("nodes:\n  n:\n    paths:\n      p:\n        output: [o]\n        correlation: timestamp\n");
    assert!(e.contains("sync:"), "got: {e}");
    let e = err("exclude_patterns: [/rosout]\n");
    assert!(e.contains("Removed in phase 70"), "got: {e}");
}

#[test]
fn author_chosen_keys_are_not_measured_against_the_schema() {
    let m = parse("nodes:\n  max_latency:\n    pub: [out]\ntopics:\n  bogus_field:\n    type: std_msgs/msg/String\n");
    assert!(has(&m.text.nodes, "max_latency"));
    assert!(has(&m.text.topics, "bogus_field"));
}

#[test]
fn path_with_no_trigger_and_no_input_is_unclassified_never_assumed_timer() {
    let yaml = r#"
version: 1
nodes:
  n:
    pub: [out]
    paths:
      p:
        output: [out]
"#;
    let m = parse(yaml);
    let path = get(&get(&m.text.nodes, "n").paths, "p");
    assert!(path.contract.trigger.is_none());
    assert_eq!(path.effective_trigger(), EffectiveTrigger::Unclassified);
}

#[test]
fn the_trigger_in_effect_follows_the_declared_trigger_then_the_input_list() {
    let yaml = r#"
version: 1
nodes:
  gate:
    sub: [cmd_in, a, b]
    pub: [cmd_out, status, map, ext]
    paths:
      forward:
        trigger: { input: [cmd_in] }
        output: [cmd_out]
      tick:
        trigger: { timer: { rate_hz: 10 } }
        output: [status]
      legacy:
        input: [a, b]
        sync: { policy: exact, max_interval: 10ms }
        output: [cmd_out]
      once:
        trigger: once
        output: [map]
      outside:
        trigger: spontaneous
        output: [ext]
"#;
    let m = parse(yaml);
    let paths = &get(&m.text.nodes, "gate").paths;
    assert_eq!(get(paths, "forward").effective_trigger(), EffectiveTrigger::Input(vec!["cmd_in".to_string()]));
    assert_eq!(get(paths, "tick").effective_trigger(), EffectiveTrigger::Timer { rate: TimerRate::Integer(10) });
    let legacy = get(paths, "legacy");
    assert_eq!(legacy.effective_trigger(), EffectiveTrigger::Input(vec!["a".to_string(), "b".to_string()]));
    assert_eq!(legacy.contract.sync.as_ref().and_then(|s| s.max_interval).map(|d| d.as_nanos()), Some(10_000_000));
    assert_eq!(get(paths, "once").effective_trigger(), EffectiveTrigger::Once);
    assert_eq!(get(paths, "outside").effective_trigger(), EffectiveTrigger::Spontaneous);
}

#[test]
fn a_path_keeps_its_miss_tolerance_and_timing() {
    let yaml = r#"
version: 1
nodes:
  detector:
    sub: [image]
    pub: [boxes, masks]
    paths:
      to_boxes:
        trigger: { input: [image] }
        output: [boxes]
        max_latency: 20ms
        min_latency: 6ms
        max_jitter: 4ms
        miss:
          tolerate: 2 / 100
          consecutive: 1
          action: skip_next
      to_masks:
        trigger: { input: [image] }
        output: [masks]
        miss: 1 / 10
"#;
    let m = parse(yaml);
    let paths = &get(&m.text.nodes, "detector").paths;
    let boxes = &get(paths, "to_boxes").contract;
    assert_eq!(boxes.max_jitter.map(|d| d.as_nanos()), Some(4_000_000));
    assert_eq!(boxes.min_latency.map(|d| d.as_nanos()), Some(6_000_000));
    let miss = boxes.miss.as_ref().unwrap();
    assert_eq!(miss.tolerate.map(|c| (c.n, c.w)), Some((2, 100)));
    assert_eq!(miss.consecutive, Some(1));
    assert_eq!(miss.action, Some(MissAction::SkipNext));
    let masks = &get(paths, "to_masks").contract;
    assert!(masks.max_jitter.is_none() && masks.min_latency.is_none());
    let miss = masks.miss.as_ref().unwrap();
    assert_eq!(miss.tolerate.map(|c| (c.n, c.w)), Some((1, 10)));
    assert!(miss.consecutive.is_none() && miss.action.is_none());
}

#[test]
fn the_first_repeated_endpoint_name_in_sorted_section_order_is_named() {
    // Each section is taken sorted: pub [a, z], then sub [a, z]; `a` recurs first.
    let msg = err("nodes:\n  n:\n    pub: [z, a]\n    sub: [z, a]\n");
    assert_eq!(msg, "at 'nodes.n.a': duplicate endpoint name across pub/sub/srv/cli");
}

#[test]
fn test_parse_typed_args() {
    let yaml = r#"
args:
  free_arg:
  bool_arg:
    type: bool
  enum_arg:
    choices: [ndt, eagleye, gnss]
version: 1
"#;
    let m = parse(yaml);
    assert_eq!(m.args.len(), 3);
    assert!(matches!(get(&m.args, "free_arg"), ArgDecl::String));
    assert!(matches!(get(&m.args, "bool_arg"), ArgDecl::Bool));
    match get(&m.args, "enum_arg") {
        ArgDecl::Choices(v) => assert_eq!(v, &vec!["ndt", "eagleye", "gnss"]),
        _ => panic!("expected Choices"),
    }
}

const P67: &str = r#"
version: 1
nodes:
  detector:
    sub: { image: { min_rate_hz: 30 } }
    pub: { boxes: {}, masks: {} }
    concurrency:
      exclusive:
        - [to_boxes, to_masks]
    paths:
      to_boxes:
        trigger: { input: [image] }
        output: [boxes]
        max_latency: 20ms
        min_latency: 6ms
        max_jitter: 4ms
        miss:
          tolerate: 2 / 100
          consecutive: 1
          action: skip_next
      to_masks:
        trigger: { input: [image] }
        output: [masks]
        max_latency: 35ms
topics:
  /image:
    type: sensor_msgs/msg/Image
    qos:
      reliability: reliable
      deadline: 33ms
      liveliness: automatic
      lease_duration: 200ms
"#;

#[test]
fn phase67_fields_reach_the_model_through_the_real_parser() {
    let m = parse(P67);
    let d = get(&m.text.nodes, "detector");

    let boxes = &get(&d.paths, "to_boxes").contract;
    assert_eq!(boxes.max_jitter.unwrap().as_nanos(), 4_000_000);
    assert_eq!(boxes.min_latency.unwrap().as_nanos(), 6_000_000);

    let miss = boxes.miss.as_ref().expect("miss: parsed");
    let tol = miss.tolerate.as_ref().expect("tolerate: parsed");
    assert_eq!((tol.n, tol.w), (2, 100));
    assert_eq!(miss.consecutive, Some(1));
    assert_eq!(miss.action, Some(MissAction::SkipNext));

    let ex = &d.endpoints.concurrency.as_ref().expect("concurrency: parsed").exclusive;
    assert_eq!(ex, &vec![vec!["to_boxes".to_string(), "to_masks".to_string()]]);

    let qos = get(&m.text.topics, "/image").extras.qos.as_ref().expect("qos parsed");
    assert_eq!(qos.deadline.unwrap().as_nanos(), 33_000_000);
    assert_eq!(qos.lease_duration.unwrap().as_nanos(), 200_000_000);

    // A path that declares none of it stays absent, not defaulted.
    let masks = &get(&d.paths, "to_masks").contract;
    assert!(masks.max_jitter.is_none() && masks.min_latency.is_none());
    assert!(masks.miss.is_none());
}

#[test]
fn a_qos_deadline_needs_its_unit() {
    let e = err("topics:\n  t:\n    type: T\n    qos: { deadline: 33 }\n");
    assert!(e.contains("deadline"), "got: {e}");
}

#[test]
fn yaml_infinity_and_nan_are_not_numbers() {
    let e = err("topics:\n  t:\n    type: T\n    rate_hz: .inf\n");
    assert!(e.contains("expected a number, got a float"), "got: {e}");
    let e = err("nodes:\n  n:\n    sub: { a: { min_rate_hz: -.inf } }\n");
    assert!(e.contains("expected a number, got a float"), "got: {e}");
    let e = err("nodes:\n  n:\n    pub: [o]\n    paths:\n      p:\n        trigger: { timer: { rate_hz: .nan } }\n        output: [o]\n");
    assert!(e.contains("expected a number, got a float"), "got: {e}");
    let e = err("nodes:\n  n:\n    pub: [o]\n    paths:\n      p:\n        trigger: { timer: { rate_hz: 0.0 } }\n        output: [o]\n");
    assert!(e.contains("must be > 0"), "got: {e}");
    assert!(parse_manifest_str("nodes:\n  n:\n    pub: [o]\n    paths:\n      p:\n        trigger: { timer: { rate_hz: 2.5 } }\n        output: [o]\n").is_ok());
}
