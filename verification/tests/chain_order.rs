use launch_manifest::chain_order::{chain_item_order, non_chain_item_order, uncovered_facts, ChainElementKey, NonChainFact};
use launch_manifest::chain_rank::{assign_priorities_compressed, BandOverflow, Criticality, RankItem, SegmentNode};
use launch_manifest::platform::PriorityBand;

fn seg(nodes: &[(&str, &str)]) -> ChainElementKey {
    ChainElementKey::Segment {
        nodes: nodes
            .iter()
            .map(|(n, p)| SegmentNode { node: n.to_string(), path: p.to_string() })
            .collect(),
    }
}

fn boundary(node: &str, path: &str, period_ms: f64) -> ChainElementKey {
    ChainElementKey::Boundary {
        node: node.to_string(),
        path: path.to_string(),
        period_key: period_ms.to_bits(),
        period_text: format!("{period_ms}"),
    }
}

fn fact(node: &str, criticality: Option<Criticality>, budget_ms: f64) -> NonChainFact {
    NonChainFact {
        node: node.to_string(),
        path: "p".to_string(),
        criticality,
        budget_key: budget_ms.to_bits(),
        budget_text: format!("{budget_ms}"),
    }
}

/// The ranked items of the worked example: the sensing-to-actuation chain,
/// then the Medium-criticality 40 Hz sim timer outside it.
fn worked_example_items() -> Vec<RankItem> {
    let elements = vec![
        seg(&[("/preproc", "p_preproc"), ("/concat", "p_concat"), ("/detector", "p_detector")]),
        boundary("/ekf", "p_ekf", 20.0),
        boundary("/planning", "p_planning", 100.0),
        seg(&[("/follower", "p_follower"), ("/gate", "p_gate")]),
    ];
    let (mut items, next) = chain_item_order(&elements, &"sensing_to_actuation".to_string(), 0);
    let facts = vec![NonChainFact {
        node: "/sim_timer".to_string(),
        path: "p_sim".to_string(),
        criticality: Some(Criticality::Medium),
        budget_key: 25.0f64.to_bits(),
        budget_text: "25".to_string(),
    }];
    let (rest, _) = non_chain_item_order(&facts, next);
    items.extend(rest);
    items
}

fn prio_of(items: &[RankItem], prios: &[i64], node: &str) -> i64 {
    prios[items.iter().position(|it| it.node == node).unwrap()]
}

#[test]
fn worked_example_chain_order_is_sink_first() {
    let items = worked_example_items();
    let nodes: Vec<&str> = items.iter().map(|it| it.node.as_str()).collect();
    assert_eq!(
        nodes,
        vec!["/gate", "/follower", "/ekf", "/planning", "/detector", "/concat", "/preproc", "/sim_timer"]
    );
    let groups: Vec<usize> = items.iter().map(|it| it.fine_group).collect();
    assert_eq!(groups, vec![0, 0, 1, 1, 2, 2, 2, 3]);
    assert_eq!(items[0].provenance, "derived(chain_aware: sensing_to_actuation segment drain 1/2)");
    assert_eq!(items[2].provenance, "derived(chain_aware: sensing_to_actuation boundary RM period=20ms)");
    assert_eq!(items[7].provenance, "derived(chain_aware: non-chain criticality=Some(Medium) budget_ms=25)");
    assert_eq!(items[7].tie_group, Some(3));
    assert_eq!(items[0].coarse_group.as_deref(), Some("sensing_to_actuation"));
}

#[test]
fn chain_item_order_returns_next_group() {
    let elements = vec![
        boundary("/b", "p", 50.0),
        boundary("/a", "p", 50.0),
        boundary("/c", "p", 10.0),
        seg(&[("/x", "px")]),
    ];
    let (items, next) = chain_item_order(&elements, &"c".to_string(), 5);
    let nodes: Vec<&str> = items.iter().map(|it| it.node.as_str()).collect();
    assert_eq!(nodes, vec!["/x", "/c", "/a", "/b"]);
    assert_eq!(next, 7);
    assert_eq!(items[0].fine_group, 5);
    assert_eq!(items[1].fine_group, 6);
}

#[test]
fn non_chain_order_by_criticality_budget_then_name_with_ties() {
    let facts = vec![
        fact("/slow", Some(Criticality::High), 100.0),
        fact("/b", None, 10.0),
        fact("/fast_b", Some(Criticality::High), 10.0),
        fact("/fast_a", Some(Criticality::High), 10.0),
        fact("/mid", Some(Criticality::Medium), 5.0),
    ];
    let (items, next) = non_chain_item_order(&facts, 2);
    let nodes: Vec<&str> = items.iter().map(|it| it.node.as_str()).collect();
    assert_eq!(nodes, vec!["/fast_a", "/fast_b", "/slow", "/mid", "/b"]);
    let ties: Vec<Option<usize>> = items.iter().map(|it| it.tie_group).collect();
    assert_eq!(ties, vec![Some(2), Some(2), Some(3), Some(4), Some(5)]);
    assert_eq!(next, 6);
    assert_eq!(non_chain_item_order(&[], 4), (vec![], 4));
}

#[test]
fn band_narrower_than_ranks_collapses_within_segment_first() {
    let items = worked_example_items();
    let band = PriorityBand { min: 39, max: 45 };
    let (prios, overflow) = assign_priorities_compressed(&items, &band);
    assert_eq!(overflow, None);
    for p in &prios {
        assert!((39..=45).contains(p), "priority {p} escaped band 39..=45");
    }
    let preproc = prio_of(&items, &prios, "/preproc");
    let concat = prio_of(&items, &prios, "/concat");
    let detector = prio_of(&items, &prios, "/detector");
    let mut s1 = vec![preproc, concat, detector];
    s1.sort();
    s1.dedup();
    assert_eq!(s1.len(), 2, "S1's 3 members must collapse to exactly 2 priorities");
    assert_ne!(prio_of(&items, &prios, "/gate"), prio_of(&items, &prios, "/follower"));
    assert_ne!(prio_of(&items, &prios, "/ekf"), prio_of(&items, &prios, "/planning"));
}

#[test]
fn pathologically_narrow_band_warns_and_never_inverts_order() {
    let items = worked_example_items();
    let band = PriorityBand { min: 45, max: 45 };
    let (prios, overflow) = assign_priorities_compressed(&items, &band);
    assert_eq!(
        overflow,
        Some(BandOverflow {
            distinct_classes: 2,
            band_width: 1,
            clamped: vec!["non-chain bucket".to_string()],
        })
    );
    assert_eq!(prios, vec![45; 8]);
    assert!(prios.windows(2).all(|w| w[0] >= w[1]));
}

#[test]
fn paths_a_chain_covers_are_left_out_of_the_non_chain_ranking() {
    let facts = vec![fact("/a", None, 10.0), fact("/b", None, 20.0), fact("/c", None, 30.0)];
    let covered = vec![("/b".to_string(), "p".to_string()), ("/a".to_string(), "other".to_string())];
    let kept: Vec<String> = uncovered_facts(facts, &covered).into_iter().map(|f| f.node).collect();
    assert_eq!(kept, vec!["/a".to_string(), "/c".to_string()]);
}
