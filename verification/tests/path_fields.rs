use launch_manifest::manifest::ParseError;
use launch_manifest::path_fields::{
    parse_concurrency, parse_external_endpoint_side, parse_miss_spec, validate_endpoint_uniqueness,
    ExternalEndpointSide, MissAction,
};
use launch_manifest::timing::yaml_duration_new;
use launch_manifest::yaml_fields::YamlNode;

fn s(x: &str) -> YamlNode {
    YamlNode::String(x.to_string())
}

fn list(xs: &[&str]) -> YamlNode {
    YamlNode::Array(xs.iter().map(|x| s(x)).collect())
}

fn map(entries: Vec<(&str, YamlNode)>) -> YamlNode {
    YamlNode::Hash(entries.into_iter().map(|(k, v)| (s(k), v)).collect())
}

#[test]
fn path_jitter_miss_and_concurrency_fields_read_through() {
    // nodes.detector: the to_boxes path and the node's concurrency block.
    let to_boxes = map(vec![
        ("trigger", map(vec![("input", list(&["image"]))])),
        ("output", list(&["boxes"])),
        ("max_latency", s("20ms")),
        ("min_latency", s("6ms")),
        ("max_jitter", s("4ms")),
        (
            "miss",
            map(vec![("tolerate", s("2 / 100")), ("consecutive", YamlNode::Integer(1)), ("action", s("skip_next"))]),
        ),
    ]);
    assert_eq!(yaml_duration_new(&to_boxes, "max_jitter").unwrap().unwrap().as_nanos(), 4_000_000);
    assert_eq!(yaml_duration_new(&to_boxes, "min_latency").unwrap().unwrap().as_nanos(), 6_000_000);
    let miss = parse_miss_spec(&to_boxes, "nodes.detector.paths.to_boxes").unwrap().expect("miss: parsed");
    let tol = miss.tolerate.as_ref().expect("tolerate: parsed");
    assert_eq!((tol.n, tol.w), (2, 100));
    assert_eq!(miss.consecutive, Some(1));
    assert_eq!(miss.action, Some(MissAction::SkipNext));

    let detector = map(vec![(
        "concurrency",
        map(vec![("exclusive", YamlNode::Array(vec![list(&["to_boxes", "to_masks"])]))]),
    )]);
    let ex = parse_concurrency(&detector, "nodes.detector").unwrap().expect("concurrency: parsed").exclusive;
    assert_eq!(ex, vec![vec!["to_boxes".to_string(), "to_masks".to_string()]]);

    // A path that declares none of it stays absent, not defaulted.
    let to_masks = map(vec![
        ("trigger", map(vec![("input", list(&["image"]))])),
        ("output", list(&["masks"])),
        ("max_latency", s("35ms")),
    ]);
    assert!(yaml_duration_new(&to_masks, "max_jitter").unwrap().is_none());
    assert!(yaml_duration_new(&to_masks, "min_latency").unwrap().is_none());
    assert!(parse_miss_spec(&to_masks, "nodes.detector.paths.to_masks").unwrap().is_none());
}

#[test]
fn a_group_that_is_not_a_list_is_named_by_its_index() {
    let node = map(vec![("concurrency", map(vec![("exclusive", YamlNode::Array(vec![list(&["a"]), s("b")]))]))]);
    match parse_concurrency(&node, "nodes.n").unwrap_err() {
        ParseError::Field { path, message } => {
            assert_eq!(path, "nodes.n.concurrency.exclusive[1]");
            assert_eq!(message, "expected a list of path names, e.g. `- [to_boxes, to_masks]`");
        }
        other => panic!("expected a field error, got {other:?}"),
    }
}

#[test]
fn a_service_side_uses_server_and_client() {
    let svc = map(vec![("external", s("server"))]);
    assert_eq!(parse_external_endpoint_side(&svc, "external", "services.s").unwrap(), Some(ExternalEndpointSide::Server));
    let wrong = map(vec![("external", s("pub"))]);
    match parse_external_endpoint_side(&wrong, "external", "services.s").unwrap_err() {
        ParseError::Field { path, message } => {
            assert_eq!(path, "services.s.external");
            assert_eq!(message, "invalid external side 'pub', expected 'server', 'client', or 'both'");
        }
        other => panic!("expected a field error, got {other:?}"),
    }
    assert_eq!(parse_external_endpoint_side(&map(vec![]), "external", "").unwrap(), None);
}

fn names(xs: &[&str]) -> Vec<String> {
    xs.iter().map(|x| x.to_string()).collect()
}

#[test]
fn distinct_endpoint_names_pass_and_the_first_repeat_is_named() {
    assert!(validate_endpoint_uniqueness(&names(&["a", "b"]), &names(&["c"]), &names(&["d"]), &names(&["e"]), "")
        .is_ok());
    let err = validate_endpoint_uniqueness(&names(&["a"]), &names(&["b"]), &names(&["b"]), &names(&["a"]), "n")
        .unwrap_err();
    match err {
        ParseError::Field { path, .. } => assert_eq!(path, "n.b"),
        other => panic!("expected a field error, got {other:?}"),
    }
}
