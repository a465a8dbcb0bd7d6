use launch_manifest::span::{line_col_to_offset, line_starts, SpanIndex};
use launch_manifest::manifest_read::parse_manifest_str_with_spans;

#[test]
fn test_line_starts() {
    let src = "abc\ndef\nghi";
    let starts = line_starts(src);
    assert_eq!(starts, vec![0, 4, 8]);
}

#[test]
fn test_line_col_to_offset() {
    let starts = vec![0, 4, 8];
    assert_eq!(line_col_to_offset(&starts, 0, 0), 0);
    assert_eq!(line_col_to_offset(&starts, 0, 2), 2);
    assert_eq!(line_col_to_offset(&starts, 1, 0), 4);
    assert_eq!(line_col_to_offset(&starts, 2, 1), 9);
}

#[test]
fn line_starts_count_bytes_not_chars() {
    assert_eq!(line_starts("é\nx"), vec![0, 3]);
    assert_eq!(line_starts(""), vec![0]);
    assert_eq!(line_starts("a\n"), vec![0, 2]);
}

#[test]
fn test_span_index_simple() {
    let yaml = "version: 1\nnodes:\n  talker:\n    pub: [chatter]\n";
    let idx = SpanIndex::build(yaml);

    assert!(idx.get("version").is_some(), "spans: {:?}", idx.spans.iter().map(|(k, _)| k).collect::<Vec<_>>());
    assert!(idx.get("nodes").is_some());
    assert!(idx.get("nodes.talker").is_some());
    assert!(idx.get("nodes.talker.pub").is_some());
}

#[test]
fn test_span_index_topics() {
    let yaml = "topics:\n  chatter:\n    type: std_msgs/msg/String\n    rate_hz: 10\n";
    let idx = SpanIndex::build(yaml);

    assert!(idx.get("topics").is_some());
    assert!(idx.get("topics.chatter").is_some());
    assert!(idx.get("topics.chatter.type").is_some());
    assert!(idx.get("topics.chatter.rate_hz").is_some());
}

#[test]
fn test_span_index_byte_offset() {
    let yaml = "topics:\n  chatter:\n    type: std_msgs/msg/String\n";
    let idx = SpanIndex::build(yaml);

    let span = idx.get("topics.chatter").unwrap();
    assert_eq!(&yaml[span.clone()], "chatter");

    let span = idx.get("topics.chatter.type").unwrap();
    assert_eq!(&yaml[span.clone()], "type");
}

#[test]
fn test_span_index_qos_nested() {
    let yaml = "topics:\n  pc:\n    qos:\n      reliability: best_effort\n      durability: volatile\n";
    let idx = SpanIndex::build(yaml);

    assert!(idx.get("topics.pc.qos").is_some());
    assert!(idx.get("topics.pc.qos.reliability").is_some());
    assert!(idx.get("topics.pc.qos.durability").is_some());

    let span = idx.get("topics.pc.qos.reliability").unwrap();
    assert_eq!(&yaml[span.clone()], "reliability");
}

#[test]
fn test_span_index_endpoint_qos_nested() {
    let yaml = r#"
nodes:
  perception:
    sub:
      pointcloud:
        qos:
          reliability: reliable
        max_transport_ms: 0
"#;
    let idx = SpanIndex::build(yaml);

    assert!(idx.get("nodes.perception.sub.pointcloud.qos").is_some(), "missing endpoint qos span");
    assert!(
        idx.get("nodes.perception.sub.pointcloud.qos.reliability").is_some(),
        "missing endpoint qos.reliability span"
    );
    assert!(
        idx.get("nodes.perception.sub.pointcloud.max_transport_ms").is_some(),
        "missing per-sub max_transport_ms span"
    );

    let span = idx.get("nodes.perception.sub.pointcloud.qos.reliability").unwrap();
    assert_eq!(&yaml[span.clone()], "reliability");
}

#[test]
fn test_span_index_paths() {
    let yaml = "nodes:\n  a:\n    paths:\n      main:\n        max_latency_ms: 50\n";
    let idx = SpanIndex::build(yaml);

    assert!(idx.get("nodes.a.paths.main.max_latency_ms").is_some());
}

#[test]
fn test_span_index_empty() {
    let idx = SpanIndex::build("");
    assert!(idx.spans.is_empty());
}

#[test]
fn a_list_item_mapping_keeps_its_index_out_of_the_path_and_a_syntax_error_keeps_earlier_spans() {
    let yaml = "a:\n  - b: 1\n    c: 2\nd: [1, 2]\n";
    let idx = SpanIndex::build(yaml);
    assert_eq!(&yaml[idx.get("a.b").unwrap()], "b");
    assert_eq!(&yaml[idx.get("a.c").unwrap()], "c");
    assert_eq!(&yaml[idx.get("d").unwrap()], "d");
    let broken = "first: 1\nsecond: [unclosed\n";
    let idx = SpanIndex::build(broken);
    assert_eq!(&broken[idx.get("first").unwrap()], "first");
}

#[test]
fn parsing_with_spans_keeps_the_manifest_and_indexes_its_text() {
    let yaml = "version: 1\ntopics:\n  chatter: std_msgs/msg/String\n";
    let p = parse_manifest_str_with_spans(yaml).unwrap();
    assert_eq!(p.source, yaml);
    assert_eq!(p.manifest.text.topics.len(), 1);
    assert_eq!(&yaml[p.spans.get("topics.chatter").unwrap()], "chatter");
    assert!(parse_manifest_str_with_spans("nodes: [").is_err());
}
