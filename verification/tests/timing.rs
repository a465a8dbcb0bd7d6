use launch_manifest::duration::Duration;
use launch_manifest::manifest::{ParseError, SyncPolicy};
use launch_manifest::timing::{parse_sync, yaml_duration, yaml_duration_new, Sync};
use launch_manifest::yaml_fields::YamlNode;
use launch_manifest::manifest_read::parse_manifest_str;

fn s(x: &str) -> YamlNode {
    YamlNode::String(x.to_string())
}

fn map(entries: Vec<(&str, YamlNode)>) -> YamlNode {
    YamlNode::Hash(entries.into_iter().map(|(k, v)| (s(k), v)).collect())
}

fn ms(n: i64) -> Duration {
    Duration::from_nanos(n * 1_000_000)
}

#[test]
fn duration_field_accepts_both_spellings_and_refuses_bare_numbers() {
    let old = yaml_duration(&map(vec![("max_latency_ms", YamlNode::Integer(12))]), "max_latency", "max_latency_ms")
        .unwrap()
        .unwrap();
    let new = yaml_duration(&map(vec![("max_latency", s("12ms"))]), "max_latency", "max_latency_ms").unwrap().unwrap();
    assert_eq!(old, new, "both spellings must mean the same duration");
    assert_eq!(new.as_nanos(), 12_000_000);

    let err = yaml_duration(&map(vec![("max_latency", YamlNode::Integer(12))]), "max_latency", "max_latency_ms")
        .unwrap_err()
        .message();
    assert!(err.contains("has no unit"), "{err}");
    assert!(err.contains("max_latency: 12ms"), "{err}");

    assert!(yaml_duration(&map(vec![("other", YamlNode::Integer(1))]), "max_latency", "max_latency_ms")
        .unwrap()
        .is_none());
}

#[test]
fn the_new_spelling_wins_over_the_deprecated_one() {
    let doc = map(vec![("max_latency", s("5ms")), ("max_latency_ms", YamlNode::Integer(99))]);
    let v = yaml_duration(&doc, "max_latency", "max_latency_ms").unwrap().unwrap();
    assert_eq!(v, ms(5));
}

#[test]
fn a_deprecated_fraction_of_a_millisecond_is_kept_exactly() {
    let doc = map(vec![("tolerance_ms", YamlNode::Real("0.25".to_string()))]);
    let v = yaml_duration(&doc, "tolerance", "tolerance_ms").unwrap().unwrap();
    assert_eq!(v.as_nanos(), 250_000);
    let quoted = map(vec![("tolerance_ms", s("5"))]);
    match yaml_duration(&quoted, "tolerance", "tolerance_ms").unwrap_err() {
        ParseError::Field { path, message } => {
            assert_eq!(path, "tolerance_ms");
            assert!(message.contains("remove the quotes"), "{message}");
        }
        other => panic!("expected a field error, got {other:?}"),
    }
}

#[test]
fn a_new_duration_field_rejects_a_bare_number() {
    for field in ["max_jitter", "min_latency"] {
        let yaml = format!("version: 1\nnodes:\n  n:\n    paths:\n      p:\n        output: [o]\n        {field}: 4\n");
        let err = parse_manifest_str(&yaml).unwrap_err().message();
        assert!(err.contains("no unit") && err.contains(field), "{field} should demand a unit, got: {err}");
    }
}

#[test]
fn a_new_duration_field_reads_text_with_a_unit() {
    let err = yaml_duration_new(&map(vec![("max_jitter", YamlNode::Real("4.5".to_string()))]), "max_jitter")
        .unwrap_err()
        .message();
    assert!(err.contains("max_jitter: 4.5ms"), "{err}");
    assert_eq!(yaml_duration_new(&map(vec![("max_jitter", s("4ms"))]), "max_jitter").unwrap(), Some(ms(4)));
    assert_eq!(yaml_duration_new(&map(vec![]), "max_jitter").unwrap(), None);
}

fn path_with_sync(sync: YamlNode) -> YamlNode {
    map(vec![
        ("trigger", map(vec![("input", YamlNode::Array(vec![s("a"), s("b")]))])),
        ("sync", sync),
        ("output", YamlNode::Array(vec![s("out")])),
    ])
}

#[test]
fn golden_parse_sync_fusion_example() {
    let yaml = r#"
version: 1
nodes:
  fuse:
    sub: [cloud_top, cloud_left, cloud_right]
    pub: [cloud_fused]
    paths:
      fuse:
        trigger: { input: [cloud_top, cloud_left, cloud_right] }
        sync:
          policy: approximate
          max_interval_ms: 50
          timeout_ms: 100
        output: [cloud_fused]
        max_latency_ms: 30
"#;
    let m = parse_manifest_str(yaml).unwrap();
    let node = &m.text.nodes.iter().find(|(n, _)| n == "fuse").unwrap().1;
    let fuse = &node.paths.iter().find(|(n, _)| n == "fuse").unwrap().1;
    assert_eq!(
        fuse.contract.sync,
        Some(Sync { policy: SyncPolicy::Approximate, max_interval: Some(ms(50)), timeout: Some(ms(100)) })
    );
}

#[test]
fn sync_timeout_any_requires_timeout_ms() {
    let yaml = r#"
version: 1
nodes:
  n:
    sub: [a, b]
    pub: [out]
    paths:
      p:
        trigger: { input: [a, b] }
        sync: { policy: timeout_any }
        output: [out]
"#;
    let err = parse_manifest_str(yaml).unwrap_err().message();
    assert!(err.contains("timeout_ms"), "got: {err}");
}

#[test]
fn sync_exact_requires_max_interval_ms() {
    let yaml = r#"
version: 1
nodes:
  n:
    sub: [a, b]
    pub: [out]
    paths:
      p:
        trigger: { input: [a, b] }
        sync: { policy: exact }
        output: [out]
"#;
    let err = parse_manifest_str(yaml).unwrap_err().message();
    assert!(err.contains("max_interval_ms"), "got: {err}");
}

#[test]
fn sync_approximate_requires_max_interval_ms() {
    let yaml = r#"
version: 1
nodes:
  n:
    sub: [a, b]
    pub: [out]
    paths:
      p:
        trigger: { input: [a, b] }
        sync: { policy: approximate }
        output: [out]
"#;
    let err = parse_manifest_str(yaml).unwrap_err().message();
    assert!(err.contains("max_interval_ms"), "got: {err}");
}

#[test]
fn sync_errors_name_the_block() {
    let p = path_with_sync(map(vec![("policy", s("latest"))]));
    match parse_sync(&p, "nodes.n.paths.p").unwrap_err() {
        ParseError::Field { path, message } => {
            assert_eq!(path, "nodes.n.paths.p.sync.policy");
            assert_eq!(message, "invalid policy 'latest', expected 'exact', 'approximate', or 'timeout_any'");
        }
        other => panic!("expected a field error, got {other:?}"),
    }
    let p = path_with_sync(map(vec![("policy", s("exact")), ("window", s("5ms"))]));
    match parse_sync(&p, "").unwrap_err() {
        ParseError::Field { path, .. } => assert_eq!(path, "sync.window"),
        other => panic!("expected a field error, got {other:?}"),
    }
    assert!(parse_sync(&map(vec![]), "").unwrap().is_none());
    let ok = parse_sync(&path_with_sync(map(vec![("policy", s("timeout_any")), ("timeout", s("20ms"))])), "")
        .unwrap()
        .unwrap();
    assert_eq!(ok.policy, SyncPolicy::TimeoutAny);
    assert_eq!(ok.timeout, Some(ms(20)));
    assert_eq!(ok.max_interval, None);
}
