use launch_manifest::manifest_read::{parse_manifest_str, ManifestDoc};

fn get<'a, T>(table: &'a [(String, T)], name: &str) -> &'a T {
    &table.iter().find(|(n, _)| n == name).unwrap_or_else(|| panic!("no entry {name}")).1
}

fn parse(yaml: &str) -> ManifestDoc {
    parse_manifest_str(yaml).unwrap()
}

fn err(yaml: &str) -> String {
    parse_manifest_str(yaml).unwrap_err().message()
}

#[test]
fn input_still_accepts_a_single_name() {
    let m = parse("nodes:\n  n:\n    sub:\n      a: {}\n    pub:\n      o: {}\n    paths:\n      p:\n        input: a\n        output: [o]\n");
    assert_eq!(get(&get(&m.text.nodes, "n").paths, "p").input, vec!["a"]);
}

#[test]
fn a_typo_is_an_error_and_names_the_key_it_meant() {
    let cases = [
        ("nodes:\n  n:\n    paths:\n      p:\n        max_latencyy: 5ms\n", "max_latency"),
        ("topics:\n  /t:\n    type: std_msgs/msg/String\n    rate_hzz: 100\n", "rate_hz"),
        ("nodes:\n  n:\n    lifecycl: true\n", "lifecycle"),
    ];
    for (yaml, expected) in cases {
        let e = err(yaml);
        assert!(e.contains("unknown key") && e.contains(expected), "expected a suggestion of `{expected}`, got: {e}");
    }
}

#[test]
fn test_drop_shorthand() {
    let yaml = r#"
version: 1
topics:
  pointcloud:
    type: sensor_msgs/msg/PointCloud2
    drop: 5 / 100
"#;
    let m = parse(yaml);
    let drop = get(&m.text.topics, "pointcloud").extras.drop.as_ref().unwrap();
    assert_eq!(drop.max_count.as_ref().unwrap().n, 5);
    assert_eq!(drop.max_count.as_ref().unwrap().w, 100);
    assert!(drop.max_consecutive.is_none());
}

#[test]
fn an_unrelated_key_is_rejected_without_a_misleading_suggestion() {
    let e = err("nodes:\n  n:\n    bogus_field: 1\n");
    assert!(e.contains("accepted here"), "got: {e}");
    assert!(!e.contains("did you mean"), "got: {e}");
}

#[test]
fn a_removed_key_with_no_dedicated_check_is_still_rejected() {
    let e = err("paths:\n  p:\n    output: [/b]\n    segments: [a, b]\n");
    assert!(e.contains("Removed in phase 68"), "got: {e}");
}

#[test]
fn a_type_error_carries_its_path() {
    let e = err("nodes:\n  filter:\n    paths:\n      clean:\n        output: [o]\n        drop: { max_count: 5 }\n");
    assert!(e.contains("nodes.filter.paths.clean.drop.max_count"), "got: {e}");
}

#[test]
fn an_unknown_miss_action_is_rejected() {
    let e = err("version: 1\nnodes:\n  n:\n    paths:\n      p:\n        output: [o]\n        miss: { action: kill_it }\n");
    assert!(e.contains("kill_it") && e.contains("skip_next"), "got: {e}");
}

#[test]
fn miss_accepts_the_drop_shorthand() {
    let m = parse("version: 1\nnodes:\n  n:\n    paths:\n      p:\n        output: [o]\n        miss: 3 / 50\n");
    let miss = get(&get(&m.text.nodes, "n").paths, "p").contract.miss.as_ref().unwrap();
    let tol = miss.tolerate.as_ref().unwrap();
    assert_eq!((tol.n, tol.w), (3, 50));
    assert_eq!(miss.action, None, "shorthand states tolerance only");
}

#[test]
fn absent_concurrency_differs_from_an_empty_exclusive_list() {
    let absent = parse("version: 1\nnodes:\n  n:\n    paths:\n      p: { output: [o] }\n");
    assert!(get(&absent.text.nodes, "n").endpoints.concurrency.is_none());

    let empty = parse("version: 1\nnodes:\n  n:\n    concurrency: { exclusive: [] }\n    paths:\n      p: { output: [o] }\n");
    let c = get(&empty.text.nodes, "n").endpoints.concurrency.as_ref().expect("present");
    assert!(c.exclusive.is_empty());
}

#[test]
fn test_endpoint_uniqueness_violation() {
    let yaml = r#"
version: 1
nodes:
  relay:
    pub: [data]
    sub: [data]
"#;
    let result = parse_manifest_str(yaml);
    assert!(result.is_err());
    let e = result.unwrap_err().message();
    assert!(e.contains("duplicate endpoint name"), "got: {e}");
}

#[test]
fn an_include_entry_takes_a_condition_and_the_top_of_a_manifest_does_not() {
    let m = parse("includes:\n  cam:\n    manifest: cam.yaml\n    if: $(var use_cam)\n  inner:\n    unless: \"false\"\n    nodes:\n      n: {}\n");
    let cam = get(&m.text.includes, "cam");
    assert_eq!(cam.if_condition.as_deref(), Some("$(var use_cam)"));
    let inner = get(&m.text.includes, "inner");
    assert_eq!(inner.unless_condition.as_deref(), Some("false"));
    let e = err("includes:\n  cam:\n    manifest: cam.yaml\n    if: [a]\n");
    assert!(e.starts_with("at 'includes.cam.if'"), "got: {e}");
    let e = err("if: \"true\"\nnodes:\n  n: {}\n");
    assert!(e.contains("belongs on an `includes:` entry"), "got: {e}");
}
