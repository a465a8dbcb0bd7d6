use launch_manifest::manifest::{ParseError, PathText};
use launch_manifest::manifest_read::{parse_manifest_str, ManifestDoc};
use launch_manifest::path_decl::{TimerRate, TriggerDecl};

fn read(source: &str) -> Result<ManifestDoc, ParseError> {
    parse_manifest_str(source)
}

fn err(source: &str) -> String {
    read(source).unwrap_err().message()
}

fn entry<'a, T>(table: &'a [(String, T)], name: &str) -> &'a T {
    &table.iter().find(|(n, _)| n == name).unwrap_or_else(|| panic!("no entry {name}")).1
}

/// The declaration of path `p` of node `node` in `source`.
fn path_of(source: &str, node: &str, p: &str) -> PathText {
    let m = read(source).unwrap();
    entry(&entry(&m.text.nodes, node).paths, p).clone()
}

const GATE: &str = r#"
version: 1
nodes:
  vehicle_cmd_gate:
    sub: [control_cmd_in]
    pub: [control_cmd_out, gate_status]
    paths:
      forward:
        trigger: { input: [control_cmd_in] }
        output: [control_cmd_out]
        max_latency_ms: 5
      status_tick:
        trigger: { timer: { rate_hz: 10 } }
        output: [gate_status]
  map_loader:
    pub: [map]
    paths:
      publish_map:
        trigger: once
        output: [map]
  remote_interface:
    pub: [external_cmd]
    paths:
      operator_cmd:
        trigger: spontaneous
        output: [external_cmd]
"#;

#[test]
fn golden_parse_trigger_forms_vehicle_cmd_gate_style() {
    assert!(read(GATE).is_ok());
    assert_eq!(
        path_of(GATE, "vehicle_cmd_gate", "forward").contract.trigger,
        Some(TriggerDecl::Input(vec!["control_cmd_in".into()]))
    );
    assert_eq!(
        path_of(GATE, "vehicle_cmd_gate", "status_tick").contract.trigger,
        Some(TriggerDecl::Timer { rate: TimerRate::Integer(10) })
    );
    assert_eq!(path_of(GATE, "map_loader", "publish_map").contract.trigger, Some(TriggerDecl::Once));
    assert_eq!(path_of(GATE, "remote_interface", "operator_cmd").contract.trigger, Some(TriggerDecl::Spontaneous));
    assert_eq!(
        path_of(GATE, "vehicle_cmd_gate", "forward").contract.max_latency.map(|d| d.as_nanos()),
        Some(5_000_000)
    );
}

#[test]
fn legacy_input_list_derives_input_trigger_without_explicit_trigger() {
    let yaml = "version: 1\nnodes:\n  ndt:\n    sub: [sensor_points]\n    pub: [ndt_pose]\n    paths:\n      localization:\n        input: sensor_points\n        output: [ndt_pose]\n        max_latency_ms: 50\n";
    let p = path_of(yaml, "ndt", "localization");
    assert_eq!(p.contract.trigger, None);
    assert_eq!(p.input, vec!["sensor_points".to_string()]);
}

#[test]
fn explicit_trigger_wins_over_legacy_input_when_agreeing() {
    let yaml = "version: 1\nnodes:\n  n:\n    sub: [a]\n    pub: [out]\n    paths:\n      p:\n        input: a\n        trigger: { input: [a] }\n        output: [out]\n";
    let p = path_of(yaml, "n", "p");
    assert_eq!(p.contract.trigger, Some(TriggerDecl::Input(vec!["a".into()])));
    assert_eq!(p.input, vec!["a".to_string()]);
}

#[test]
fn trigger_input_disagreeing_with_legacy_input_is_error() {
    let yaml = "nodes:\n  n:\n    sub: [a, b]\n    pub: [out]\n    paths:\n      p:\n        input: [a]\n        trigger: { input: [b] }\n        output: [out]\n";
    let msg = err(yaml);
    assert!(msg.contains("disagrees"), "got: {msg}");
}

#[test]
fn trigger_input_redundant_with_legacy_input_is_ok() {
    let yaml = "nodes:\n  n:\n    sub: [a, b]\n    pub: [out]\n    paths:\n      p:\n        input: [a, b]\n        trigger: { input: [b, a] }\n        output: [out]\n";
    assert!(read(yaml).is_ok());
    assert_eq!(path_of(yaml, "n", "p").contract.trigger, Some(TriggerDecl::Input(vec!["b".into(), "a".into()])));
}

#[test]
fn a_repeated_trigger_input_does_not_agree_with_one_legacy_name() {
    let yaml = "nodes:\n  n:\n    paths:\n      p:\n        input: [a]\n        trigger: { input: [a, a] }\n";
    assert!(err(yaml).contains("disagrees"));
}

#[test]
fn trigger_timer_requires_rate_hz() {
    let msg = err("nodes:\n  n:\n    pub: [out]\n    paths:\n      p:\n        trigger: { timer: {} }\n        output: [out]\n");
    assert!(msg.contains("rate_hz"), "got: {msg}");
}

#[test]
fn trigger_timer_rate_hz_must_be_positive() {
    let msg = err("version: 1\nnodes:\n  n:\n    pub: [out]\n    paths:\n      p:\n        trigger: { timer: { rate_hz: 0 } }\n        output: [out]\n");
    assert!(msg.contains("> 0"), "got: {msg}");
    assert!(read("version: 1\nnodes:\n  n:\n    pub: [out]\n    paths:\n      p:\n        trigger: { timer: { rate_hz: -5 } }\n        output: [out]\n").is_err());
    assert!(read("nodes:\n  n:\n    paths:\n      p:\n        trigger: { timer: { rate_hz: -2.5 } }\n").is_err());
    assert!(read("nodes:\n  n:\n    paths:\n      p:\n        trigger: { timer: { rate_hz: 0.25 } }\n").is_ok());
}

#[test]
fn trigger_invalid_bare_string_is_error() {
    let msg = err("version: 1\nnodes:\n  n:\n    pub: [out]\n    paths:\n      p:\n        trigger: periodic\n        output: [out]\n");
    assert!(msg.contains("invalid trigger"), "got: {msg}");
}

#[test]
fn trigger_unknown_map_key_is_error() {
    let msg = err("version: 1\nnodes:\n  n:\n    pub: [out]\n    paths:\n      p:\n        trigger: { bogus: 1 }\n        output: [out]\n");
    assert!(msg.contains("invalid trigger key"), "got: {msg}");
}

#[test]
fn trigger_multiple_map_keys_is_error() {
    let msg = err("version: 1\nnodes:\n  n:\n    pub: [out]\n    paths:\n      p:\n        trigger: { timer: { rate_hz: 10 }, input: [a] }\n        output: [out]\n");
    assert!(msg.contains("exactly one of 'timer' or 'input'"), "got: {msg}");
}

#[test]
fn sync_requires_input_trigger_with_at_least_two_endpoints_no_trigger() {
    let msg = err("version: 1\nnodes:\n  n:\n    pub: [out]\n    paths:\n      p:\n        sync: { policy: exact, max_interval_ms: 10 }\n        output: [out]\n");
    assert!(msg.contains("input trigger with at least 2 endpoints"), "got: {msg}");
}

#[test]
fn sync_requires_input_trigger_with_at_least_two_endpoints_single_input() {
    let msg = err("version: 1\nnodes:\n  n:\n    sub: [a]\n    pub: [out]\n    paths:\n      p:\n        trigger: { input: [a] }\n        sync: { policy: exact, max_interval_ms: 10 }\n        output: [out]\n");
    assert!(msg.contains("input trigger with at least 2 endpoints"), "got: {msg}");
}

#[test]
fn sync_requires_input_trigger_not_timer() {
    let msg = err("version: 1\nnodes:\n  n:\n    pub: [out]\n    paths:\n      p:\n        trigger: { timer: { rate_hz: 10 } }\n        sync: { policy: exact, max_interval_ms: 10 }\n        output: [out]\n");
    assert!(msg.contains("input trigger with at least 2 endpoints"), "got: {msg}");
}

#[test]
fn sync_with_legacy_multi_input_and_no_explicit_trigger_is_ok() {
    let yaml = "version: 1\nnodes:\n  n:\n    sub: [a, b]\n    pub: [out]\n    paths:\n      p:\n        input: [a, b]\n        sync: { policy: exact, max_interval_ms: 10 }\n        output: [out]\n";
    assert!(read(yaml).is_ok());
    assert!(path_of(yaml, "n", "p").contract.sync.is_some());
}

#[test]
fn a_scope_path_with_timing_reads() {
    let yaml = "paths:\n  main:\n    input: raw_data\n    output: [detections]\n    max_latency_ms: 50\n";
    let m = read(yaml).unwrap();
    let p = entry(&m.text.paths, "main");
    assert_eq!(p.input, vec!["raw_data".to_string()]);
    assert_eq!(p.contract.max_latency.map(|d| d.as_nanos()), Some(50_000_000));
}
