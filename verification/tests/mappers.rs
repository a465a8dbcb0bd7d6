use launch_manifest::mappers::{
    build_ranked_plan, DeadlineMonotonicMapper, ManualMapper, RankGroup, RateMonotonicMapper,
};
use launch_manifest::platform::{PlatformResources, PosixResources, PriorityBand};
use launch_manifest::realize::{spread_priority, MapError};
use launch_manifest::resolve::{SchedNode, DEFAULT_TIER};
use launch_manifest::validate::deadline_priority_contradictions;

fn posix_facts(band: Option<(i64, i64)>) -> PlatformResources {
    PlatformResources::Posix(PosixResources {
        rt_priority_band: band.map(|(min, max)| PriorityBand { min, max }),
        isolated_cpus: vec![],
        rr_timeslice_us: None,
    })
}

fn posix_facts_rr(band: Option<(i64, i64)>, slice_us: u64) -> PlatformResources {
    PlatformResources::Posix(PosixResources {
        rt_priority_band: band.map(|(min, max)| PriorityBand { min, max }),
        isolated_cpus: vec![],
        rr_timeslice_us: Some(slice_us),
    })
}

fn deadlines(pairs: &[(&str, Option<u64>)]) -> Vec<(String, Option<u64>)> {
    pairs.iter().map(|(n, d)| (n.to_string(), *d)).collect()
}

fn singleton(label: &str, node: &str) -> RankGroup {
    RankGroup { label: label.to_string(), nodes: vec![node.to_string()] }
}

fn five_rates() -> Vec<RankGroup> {
    vec![
        singleton("rate_hz=100", "/n100"),
        singleton("rate_hz=80", "/n80"),
        singleton("rate_hz=60", "/n60"),
        singleton("rate_hz=40", "/n40"),
        singleton("rate_hz=20", "/n20"),
    ]
}

fn rate_periods(pairs: &[(&str, u64)]) -> Vec<(String, Option<u64>)> {
    pairs.iter().map(|(n, p)| (n.to_string(), Some(*p))).collect()
}

#[test]
fn deadline_monotonic_more_nodes_than_band_width_stays_in_band_and_ordered() {
    let nodes = deadlines(&[
        ("/d1", Some(1_000)),
        ("/d2", Some(2_000)),
        ("/d3", Some(3_000)),
        ("/d4", Some(4_000)),
        ("/d5", Some(5_000)),
    ]);
    let out = DeadlineMonotonicMapper.map_deadlines(&nodes, &posix_facts(Some((10, 12)))).expect("maps");
    let plan = out.table;
    for t in &plan.tiers {
        assert!((10..=12).contains(&t.priority));
    }
    assert!(deadline_priority_contradictions(&nodes, &plan).is_empty());
    let prio = |name: &str| plan.tiers.iter().find(|t| t.name == name).map(|t| t.priority).unwrap();
    assert_eq!(prio("/d1"), 12);
    assert_eq!(prio("/d5"), 10);
}

#[test]
fn deadline_monotonic_orders_by_deadline_asc() {
    let nodes = deadlines(&[("/loose", Some(100_000)), ("/tight", Some(5_000)), ("/mid", Some(50_000))]);
    let plan = DeadlineMonotonicMapper.map_deadlines(&nodes, &posix_facts(Some((10, 40)))).expect("maps").table;
    assert_eq!(plan.tiers[0].name, "/tight");
    assert_eq!(plan.tiers[0].priority, 40);
    assert_eq!(plan.tiers[1].name, "/mid");
    assert_eq!(plan.tiers[2].name, "/loose");
    assert_eq!(plan.tiers[2].priority, 10);
}

#[test]
fn deadline_monotonic_missing_deadline_goes_to_default_non_rt() {
    let nodes = deadlines(&[("/rt", Some(1_000)), ("/bg", None)]);
    let plan = DeadlineMonotonicMapper.map_deadlines(&nodes, &posix_facts(Some((10, 40)))).expect("maps").table;
    let default_tier = plan.tiers.iter().find(|t| t.name == DEFAULT_TIER).unwrap();
    assert_eq!(default_tier.members, vec!["/bg".to_string()]);
}

#[test]
fn deadline_monotonic_equal_deadlines_share_one_tier_and_priority() {
    let nodes = deadlines(&[("/b", Some(5_000)), ("/a", Some(5_000))]);
    let out = DeadlineMonotonicMapper.map_deadlines(&nodes, &posix_facts(Some((10, 40)))).expect("maps");
    let plan = out.table;
    assert_eq!(plan.tiers.len(), 1, "{:?}", plan.tiers);
    let tier = &plan.tiers[0];
    assert_eq!(tier.members, vec!["/a".to_string(), "/b".to_string()]);
    assert_eq!(tier.priority, 40);
    assert_eq!(tier.name, "deadline_us=5000");
    assert_eq!(tier.sched_class.as_deref(), Some("SCHED_FIFO"));
    assert_eq!(out.ties.len(), 1);
    assert_eq!(out.ties[0].priority, 40);
    assert_eq!(out.ties[0].nodes, vec!["/a".to_string(), "/b".to_string()]);
    assert_eq!(out.ties[0].shortest_period_us, Some(5_000));
}

#[test]
fn deadline_monotonic_tie_takes_sched_rr_when_the_slice_fits() {
    let nodes = deadlines(&[("/b", Some(5_000)), ("/a", Some(5_000))]);
    let out = DeadlineMonotonicMapper.map_deadlines(&nodes, &posix_facts_rr(Some((10, 40)), 1_000)).expect("maps");
    assert_eq!(out.table.tiers[0].sched_class.as_deref(), Some("SCHED_RR"));
    assert!(out.ties.is_empty());
}

#[test]
fn manual_mapper_requires_legacy_spec() {
    let nodes = vec![SchedNode { name: "/a".to_string(), scope: "/".to_string() }];
    let err = ManualMapper.map(&None, &nodes).unwrap_err();
    assert!(matches!(err, MapError::MissingLegacySpec));
}

#[test]
fn rate_monotonic_missing_band_errors() {
    let groups = vec![singleton("rate_hz=10", "/a")];
    let err = RateMonotonicMapper
        .map_ranked(&groups, &vec![], &posix_facts(None), &rate_periods(&[("/a", 100_000)]))
        .unwrap_err();
    assert!(matches!(err, MapError::MissingPriorityBand { .. }));
}

#[test]
fn rate_monotonic_non_posix_facts_errors() {
    let groups = vec![singleton("rate_hz=10", "/a")];
    let facts = PlatformResources::Raw(serde_yaml_ng::Value::Null);
    let err = RateMonotonicMapper.map_ranked(&groups, &vec![], &facts, &vec![]).unwrap_err();
    assert!(matches!(err, MapError::MissingPriorityBand { .. }));
}

#[test]
fn rate_monotonic_band_outside_posix_rt_range_errors() {
    let groups = vec![singleton("rate_hz=10", "/a")];
    let err = RateMonotonicMapper.map_ranked(&groups, &vec![], &posix_facts(Some((0, 40))), &vec![]).unwrap_err();
    let MapError::InvalidPriorityBand { reason, .. } = &err else {
        panic!("expected InvalidPriorityBand, got: {err:?}");
    };
    assert!(reason.contains("1..=99"), "got: {reason}");
    let err = RateMonotonicMapper.map_ranked(&groups, &vec![], &posix_facts(Some((10, 200))), &vec![]).unwrap_err();
    assert!(matches!(err, MapError::InvalidPriorityBand { .. }));
}

#[test]
fn rate_monotonic_invalid_band_errors() {
    let groups = vec![singleton("rate_hz=10", "/a")];
    let err = RateMonotonicMapper.map_ranked(&groups, &vec![], &posix_facts(Some((40, 10))), &vec![]).unwrap_err();
    assert!(matches!(err, MapError::InvalidPriorityBand { .. }));
}

#[test]
fn rate_monotonic_more_nodes_than_band_width_stays_in_band_and_ordered() {
    let out = RateMonotonicMapper
        .map_ranked(&five_rates(), &vec![], &posix_facts(Some((10, 12))), &vec![])
        .expect("maps");
    let got: Vec<(String, i64)> = out.table.tiers.iter().map(|t| (t.name.clone(), t.priority)).collect();
    assert_eq!(
        got,
        vec![
            ("/n100".to_string(), 12),
            ("/n60".to_string(), 11),
            ("/n80".to_string(), 11),
            ("/n20".to_string(), 10),
            ("/n40".to_string(), 10),
        ]
    );
}

#[test]
fn rate_monotonic_band_compression_ties_are_ties_too() {
    let periods = rate_periods(&[
        ("/n100", 10_000),
        ("/n80", 12_500),
        ("/n60", 16_667),
        ("/n40", 25_000),
        ("/n20", 50_000),
    ]);
    let out = RateMonotonicMapper
        .map_ranked(&five_rates(), &vec![], &posix_facts_rr(Some((10, 12)), 1_000), &periods)
        .expect("maps");
    let sched = |name: &str| {
        out.table.tiers.iter().find(|t| t.name == name).and_then(|t| t.sched_class.clone()).unwrap()
    };
    assert_eq!(sched("/n100"), "SCHED_FIFO");
    assert_eq!(sched("/n80"), "SCHED_RR");
    assert_eq!(sched("/n60"), "SCHED_RR");
    assert_eq!(sched("/n40"), "SCHED_RR");
    assert_eq!(sched("/n20"), "SCHED_RR");
    assert!(out.ties.is_empty(), "the slice fits both tie sets");
}

#[test]
fn spreading_puts_the_first_rank_on_top_and_the_last_on_the_bottom() {
    let band = PriorityBand { min: 10, max: 40 };
    assert_eq!(spread_priority(0, 1, &band), 40);
    assert_eq!(spread_priority(0, 4, &band), 40);
    assert_eq!(spread_priority(1, 4, &band), 30);
    assert_eq!(spread_priority(2, 4, &band), 20);
    assert_eq!(spread_priority(3, 4, &band), 10);
    let narrow = PriorityBand { min: 10, max: 12 };
    let got: Vec<i64> = (0..5).map(|i| spread_priority(i, 5, &narrow)).collect();
    assert_eq!(got, vec![12, 11, 11, 10, 10]);
}

#[test]
fn a_tied_rank_is_named_after_its_fact_and_the_rest_go_to_default() {
    let groups = vec![RankGroup { label: "rate_hz=30".to_string(), nodes: vec!["/y".to_string(), "/x".to_string()] }];
    let band = PriorityBand { min: 10, max: 40 };
    let out = build_ranked_plan(&groups, &vec!["/z".to_string(), "/w".to_string()], &band, None, &vec![]);
    assert_eq!(out.table.tiers.len(), 2);
    assert_eq!(out.table.tiers[0].name, "rate_hz=30");
    assert_eq!(out.table.tiers[0].members, vec!["/x".to_string(), "/y".to_string()]);
    assert_eq!(out.table.tiers[1].name, DEFAULT_TIER);
    assert_eq!(out.table.tiers[1].members, vec!["/w".to_string(), "/z".to_string()]);
    assert_eq!(out.table.tiers[1].priority, 0);
    assert_eq!(out.ties.len(), 1);
    assert_eq!(out.ties[0].shortest_period_us, None);
}

// The rate-monotonic ranking groups nodes by rate; these cases write each
// ranking out as the groups it yields (highest rate first, ties by name)
// and hand the library the periods those rates give.

fn group(label: &str, nodes: &[&str]) -> RankGroup {
    RankGroup { label: label.to_string(), nodes: nodes.iter().map(|n| n.to_string()).collect() }
}

#[test]
fn rate_monotonic_orders_by_rate_desc() {
    // /slow 10 Hz, /fast 100 Hz, /mid 50 Hz.
    let groups = vec![
        group("rate_hz=100", &["/fast"]),
        group("rate_hz=50", &["/mid"]),
        group("rate_hz=10", &["/slow"]),
    ];
    let periods = rate_periods(&[("/slow", 100_000), ("/fast", 10_000), ("/mid", 20_000)]);
    let out = RateMonotonicMapper.map_ranked(&groups, &vec![], &posix_facts(Some((10, 40))), &periods).expect("maps");
    let plan = out.table;
    assert_eq!(plan.tiers[0].name, "/fast");
    assert_eq!(plan.tiers[0].priority, 40);
    assert_eq!(plan.tiers[1].name, "/mid");
    assert_eq!(plan.tiers[2].name, "/slow");
    assert_eq!(plan.tiers[2].priority, 10);
}

#[test]
fn rate_monotonic_equal_rates_share_one_tier_and_priority() {
    // /b and /a, both 50 Hz.
    let groups = vec![group("rate_hz=50", &["/a", "/b"])];
    let periods = rate_periods(&[("/b", 20_000), ("/a", 20_000)]);
    let out = RateMonotonicMapper.map_ranked(&groups, &vec![], &posix_facts(Some((10, 40))), &periods).expect("maps");
    let plan = out.table;
    assert_eq!(plan.tiers.len(), 1, "one rate is one rank: {:?}", plan.tiers);
    let tier = &plan.tiers[0];
    assert_eq!(tier.members, vec!["/a".to_string(), "/b".to_string()]);
    assert_eq!(tier.priority, 40);
    assert_eq!(tier.name, "rate_hz=50");
    assert_eq!(tier.sched_class.as_deref(), Some("SCHED_FIFO"));
    assert_eq!(out.ties.len(), 1);
    assert_eq!(out.ties[0].priority, 40);
    assert_eq!(out.ties[0].nodes, vec!["/a".to_string(), "/b".to_string()]);
    assert_eq!(out.ties[0].shortest_period_us, Some(20_000));
}

#[test]
fn rate_monotonic_tie_takes_sched_rr_when_the_slice_fits() {
    let groups = vec![group("rate_hz=50", &["/a", "/b"])];
    let periods = rate_periods(&[("/b", 20_000), ("/a", 20_000)]);
    let out = RateMonotonicMapper
        .map_ranked(&groups, &vec![], &posix_facts_rr(Some((10, 40)), 1_000), &periods)
        .expect("maps");
    assert_eq!(out.table.tiers[0].sched_class.as_deref(), Some("SCHED_RR"));
    assert!(out.ties.is_empty(), "no tie left unmitigated: {:?}", out.ties);
}

#[test]
fn rate_monotonic_tie_keeps_fifo_when_the_slice_is_as_long_as_the_period() {
    let groups = vec![group("rate_hz=10", &["/a", "/b"])];
    let periods = rate_periods(&[("/b", 100_000), ("/a", 100_000)]);
    let out = RateMonotonicMapper
        .map_ranked(&groups, &vec![], &posix_facts_rr(Some((10, 40)), 100_000), &periods)
        .expect("maps");
    assert_eq!(out.table.tiers[0].sched_class.as_deref(), Some("SCHED_FIFO"));
    assert_eq!(out.ties.len(), 1);
    assert_eq!(out.ties[0].shortest_period_us, Some(100_000));
}

#[test]
fn rate_monotonic_spreads_over_distinct_rates_not_nodes() {
    // /fast_b 30, /slow_b 10, /fast_a 30, /slow_a 10.
    let groups = vec![group("rate_hz=30", &["/fast_a", "/fast_b"]), group("rate_hz=10", &["/slow_a", "/slow_b"])];
    let out = RateMonotonicMapper.map_ranked(&groups, &vec![], &posix_facts(Some((10, 40))), &vec![]).expect("maps");
    let got: Vec<(String, i64, Vec<String>)> =
        out.table.tiers.iter().map(|t| (t.name.clone(), t.priority, t.members.clone())).collect();
    assert_eq!(
        got,
        vec![
            ("rate_hz=30".to_string(), 40, vec!["/fast_a".to_string(), "/fast_b".to_string()]),
            ("rate_hz=10".to_string(), 10, vec!["/slow_a".to_string(), "/slow_b".to_string()]),
        ],
        "two rates take two levels of the band, not four"
    );
}

#[test]
fn rate_monotonic_missing_rate_goes_to_default_non_rt() {
    let groups = vec![group("rate_hz=100", &["/rt"])];
    let out = RateMonotonicMapper
        .map_ranked(&groups, &vec!["/bg".to_string()], &posix_facts(Some((10, 40))), &vec![])
        .expect("maps");
    let default_tier = out.table.tiers.iter().find(|t| t.name == DEFAULT_TIER).expect("default tier present");
    assert_eq!(default_tier.members, vec!["/bg".to_string()]);
    assert_eq!(default_tier.priority, 0);
    assert!(default_tier.sched_class.is_none());
}

#[test]
fn rate_monotonic_single_node_gets_band_max() {
    let groups = vec![group("rate_hz=10", &["/only"])];
    let out = RateMonotonicMapper.map_ranked(&groups, &vec![], &posix_facts(Some((10, 40))), &vec![]).expect("maps");
    assert_eq!(out.table.tiers[0].priority, 40);
}

#[test]
fn a_shorter_deadline_never_ranks_lower() {
    let nodes = deadlines(&[
        ("/c", Some(30_000)),
        ("/a", Some(10_000)),
        ("/idle", None),
        ("/b", Some(20_000)),
        ("/b2", Some(20_000)),
    ]);
    let out = DeadlineMonotonicMapper.map_deadlines(&nodes, &posix_facts(Some((10, 40)))).expect("maps");
    let prio = |n: &str| out.node_priority.iter().find(|(m, _)| m == n).map(|(_, p)| *p).unwrap();
    assert!(prio("/a") > prio("/b"));
    assert_eq!(prio("/b"), prio("/b2"));
    assert!(prio("/b") > prio("/c"));
    assert!(out.node_priority.iter().all(|(n, _)| n != "/idle"));
    assert!(deadline_priority_contradictions(&nodes, &out.table).is_empty());
}
