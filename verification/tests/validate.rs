use launch_manifest::platform::PriorityBand;
use launch_manifest::posix::{PosixAffinity, PosixPlacement, PosixSched};
use launch_manifest::resolve::{ResolvedTier, ResolvedTierTable, DEFAULT_TIER};
use launch_manifest::validate::{band_violations, deadline_priority_contradictions, priority_of_node};

fn tier(name: &str, priority: i64, members: &[&str]) -> ResolvedTier {
    let mut t = ResolvedTier::default_tier(members.iter().map(|s| s.to_string()).collect());
    t.name = name.to_string();
    t.priority = priority;
    t
}

fn deadlines(pairs: &[(&str, Option<u64>)]) -> Vec<(String, Option<u64>)> {
    pairs.iter().map(|(n, d)| (n.to_string(), *d)).collect()
}

#[test]
fn band_violations_flags_out_of_band_tiers() {
    let plan = ResolvedTierTable { tiers: vec![tier("/a", 50, &["/a"]), tier("/b", 20, &["/b"])] };
    let band = PriorityBand { min: 10, max: 40 };
    let violations = band_violations(&plan, &band);
    assert_eq!(violations.len(), 1);
    assert_eq!(violations[0].tier, "/a");
    assert_eq!(violations[0].priority, 50);
}

#[test]
fn band_violations_ignores_default_tier() {
    let plan = ResolvedTierTable { tiers: vec![tier(DEFAULT_TIER, 0, &["/bg"])] };
    let band = PriorityBand { min: 10, max: 40 };
    assert!(band_violations(&plan, &band).is_empty());
}

#[test]
fn band_violations_skip_tiers_without_a_priority() {
    let mut dl = tier("/dl", 0, &["/dl"]);
    dl.posix = Some(
        PosixPlacement::new(
            PosixSched::Deadline { runtime_ns: 1, deadline_ns: 2, period_ns: 3, overrun: false },
            PosixAffinity::Inherit,
        )
        .unwrap(),
    );
    let plan = ResolvedTierTable { tiers: vec![dl, tier("/low", 5, &["/low"])] };
    let band = PriorityBand { min: 10, max: 40 };
    let v = band_violations(&plan, &band);
    assert_eq!(v.len(), 1);
    assert_eq!(v[0].tier, "/low");
    assert_eq!(v[0].band, band);
}

#[test]
fn deadline_contradiction_detected_when_priority_order_reversed() {
    let plan = ResolvedTierTable { tiers: vec![tier("/tight", 10, &["/tight"]), tier("/loose", 40, &["/loose"])] };
    let nodes = deadlines(&[("/tight", Some(1_000)), ("/loose", Some(100_000))]);
    let violations = deadline_priority_contradictions(&nodes, &plan);
    assert_eq!(violations.len(), 1);
    assert_eq!(violations[0].node_a, "/tight");
    assert_eq!(violations[0].node_b, "/loose");
    assert_eq!(violations[0].kind, "deadline_us");
}

#[test]
fn no_deadline_contradiction_when_priorities_tie() {
    let plan = ResolvedTierTable { tiers: vec![tier("/both", 20, &["/a", "/b"])] };
    let nodes = deadlines(&[("/a", Some(1_000)), ("/b", Some(100_000))]);
    assert!(deadline_priority_contradictions(&nodes, &plan).is_empty());
}

#[test]
fn no_deadline_contradiction_for_nodes_missing_from_plan() {
    let plan = ResolvedTierTable { tiers: vec![] };
    let nodes = deadlines(&[("/a", Some(1_000)), ("/b", Some(100_000))]);
    assert!(deadline_priority_contradictions(&nodes, &plan).is_empty());
}

#[test]
fn the_last_tier_listing_a_node_gives_its_priority() {
    let plan = ResolvedTierTable { tiers: vec![tier("x", 30, &["/a"]), tier("y", 10, &["/a", "/b"])] };
    assert_eq!(priority_of_node(&plan, "/a"), Some(10));
    assert_eq!(priority_of_node(&plan, "/b"), Some(10));
    assert_eq!(priority_of_node(&plan, "/c"), None);
}
