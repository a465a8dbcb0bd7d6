use launch_manifest::chain_rank::{assign_priorities_compressed, RankItem};
use launch_manifest::mappers::ChainAwareMapper;
use launch_manifest::platform::{PlatformResources, PosixResources, PriorityBand};
use launch_manifest::posix::PosixSched;
use launch_manifest::realize::{realize_posix, require_posix_band, rr_policy_for_ties, MapError};
use launch_manifest::resolve::DEFAULT_TIER;

fn item(node: &str, path: &str, fine: usize, chain: Option<&str>, tie: Option<usize>) -> RankItem {
    RankItem {
        node: node.to_string(),
        path: path.to_string(),
        fine_group: fine,
        coarse_group: chain.map(|c| c.to_string()),
        tie_group: tie,
        provenance: format!("{node}:{path}"),
    }
}

fn facts(band: Option<(i64, i64)>, slice: Option<u64>) -> PlatformResources {
    PlatformResources::Posix(PosixResources {
        rt_priority_band: band.map(|(min, max)| PriorityBand { min, max }),
        isolated_cpus: vec![],
        rr_timeslice_us: slice,
    })
}

#[test]
fn each_ranked_node_gets_its_own_fifo_tier_and_the_rest_the_default() {
    let items = vec![
        item("/a", "p1", 0, Some("c"), None),
        item("/b", "p2", 1, Some("c"), None),
        item("/c", "p3", 2, None, None),
    ];
    let names = vec!["/a".to_string(), "/b".to_string(), "/c".to_string(), "/d".to_string()];
    let plan = realize_posix(&items, &names, &facts(Some((10, 40)), None), &vec![]).expect("band");
    let got: Vec<(String, i64)> = plan.table.tiers.iter().map(|t| (t.name.clone(), t.priority)).collect();
    assert_eq!(
        got,
        vec![
            ("/a".to_string(), 40),
            ("/b".to_string(), 39),
            ("/c".to_string(), 38),
            (DEFAULT_TIER.to_string(), 0),
        ]
    );
    assert_eq!(plan.table.tiers[0].sched_class.as_deref(), Some("SCHED_FIFO"));
    assert_eq!(plan.table.tiers[0].posix.as_ref().unwrap().sched, PosixSched::Fifo { priority: 40 });
    assert_eq!(plan.table.tiers[3].members, vec!["/d".to_string()]);
    assert_eq!(plan.details.len(), 3);
    assert_eq!(plan.details[1].provenance, "/b:p2 -> prio 39");
    assert!(plan.overflow.is_none());
    assert!(plan.ties.is_empty());
}

#[test]
fn a_node_takes_the_highest_priority_of_its_paths() {
    let items = vec![item("/a", "p1", 0, Some("c"), None), item("/b", "p2", 1, Some("c"), None), item("/a", "p3", 2, None, None)];
    let names = vec!["/a".to_string(), "/b".to_string()];
    let plan = realize_posix(&items, &names, &facts(Some((10, 40)), None), &vec![]).expect("band");
    assert_eq!(plan.node_priority, vec![("/a".to_string(), 40), ("/b".to_string(), 39)]);
    assert_eq!(plan.table.tiers.len(), 2);
}

#[test]
fn equal_facts_tie_and_rr_needs_a_short_enough_slice() {
    let items = vec![item("/x", "p", 0, None, Some(7)), item("/y", "p", 0, None, Some(7))];
    let names = vec!["/x".to_string(), "/y".to_string()];
    let periods = vec![("/x".to_string(), Some(10_000)), ("/y".to_string(), Some(20_000))];
    let fifo = realize_posix(&items, &names, &facts(Some((10, 40)), Some(100_000)), &periods).expect("band");
    assert_eq!(fifo.node_priority, vec![("/x".to_string(), 40), ("/y".to_string(), 40)]);
    assert_eq!(fifo.table.tiers[0].sched_class.as_deref(), Some("SCHED_FIFO"));
    assert_eq!(fifo.ties.len(), 1);
    assert_eq!(fifo.ties[0].shortest_period_us, Some(10_000));
    assert_eq!(fifo.ties[0].rr_timeslice_us, Some(100_000));
    let rr = realize_posix(&items, &names, &facts(Some((10, 40)), Some(1_000)), &periods).expect("band");
    assert_eq!(rr.table.tiers[0].sched_class.as_deref(), Some("SCHED_RR"));
    assert!(rr.ties.is_empty());
    let unknown = realize_posix(&items, &names, &facts(Some((10, 40)), None), &periods).expect("band");
    assert_eq!(unknown.ties.len(), 1);
}

#[test]
fn the_realizer_needs_a_usable_band() {
    let items = vec![item("/a", "p", 0, None, None)];
    let names = vec!["/a".to_string()];
    assert!(matches!(
        realize_posix(&items, &names, &facts(None, None), &vec![]).unwrap_err(),
        MapError::MissingPriorityBand { .. }
    ));
    assert!(matches!(
        ChainAwareMapper.realize(&items, &names, &facts(Some((50, 10)), None), &vec![]).unwrap_err(),
        MapError::InvalidPriorityBand { .. }
    ));
    let raw = PlatformResources::Raw(serde_yaml_ng::Value::Null);
    let err = require_posix_band(&raw, "chain_aware").unwrap_err();
    assert_eq!(err.message(), "mapper `chain_aware` requires `resources.rt_priority_band` (target must be `posix`)");
}

#[test]
fn a_band_too_narrow_clamps_into_its_bottom_and_reports_it() {
    let items = vec![
        item("/a", "p", 0, Some("c1"), None),
        item("/b", "p", 1, Some("c2"), None),
        item("/c", "p", 2, Some("c3"), None),
    ];
    let band = PriorityBand { min: 10, max: 11 };
    let (p, overflow) = assign_priorities_compressed(&items, &band);
    assert_eq!(p, vec![11, 10, 10]);
    let o = overflow.expect("three classes cannot fit two priorities");
    assert_eq!(o.band_width, 2);
    assert!(o.distinct_classes > 2);
}

#[test]
fn ties_are_reported_in_ascending_priority_order() {
    let np = vec![
        ("/a".to_string(), 20),
        ("/b".to_string(), 10),
        ("/c".to_string(), 20),
        ("/d".to_string(), 10),
        ("/e".to_string(), 30),
    ];
    let (rr, ties) = rr_policy_for_ties(&np, &vec![], None);
    assert!(rr.is_empty());
    assert_eq!(ties.len(), 2);
    assert_eq!(ties[0].priority, 10);
    assert_eq!(ties[0].nodes, vec!["/b".to_string(), "/d".to_string()]);
    assert_eq!(ties[1].priority, 20);
}

// Two nodes at 10 Hz: each has a 100 ms (100 000 us) timer path, the shortest
// budget the tie is judged by.

fn tied_priorities() -> Vec<(String, i64)> {
    vec![("/a".to_string(), 30), ("/b".to_string(), 30)]
}

fn ten_hz_periods() -> Vec<(String, Option<u64>)> {
    vec![("/a".to_string(), Some(100_000)), ("/b".to_string(), Some(100_000))]
}

#[test]
fn rr_is_derived_only_when_the_slice_is_shorter_than_the_period() {
    let (rr, warns) = rr_policy_for_ties(&tied_priorities(), &ten_hz_periods(), Some(1_000));
    assert_eq!(rr.len(), 2, "both tied nodes should get SCHED_RR");
    assert!(warns.is_empty(), "no tie left unmitigated: {warns:?}");
}

#[test]
fn a_slice_as_long_as_the_period_derives_fifo_and_warns() {
    let (rr, warns) = rr_policy_for_ties(&tied_priorities(), &ten_hz_periods(), Some(100_000));
    assert!(rr.is_empty(), "RR must not be derived when it changes nothing");
    assert_eq!(warns.len(), 1);
    assert_eq!(warns[0].priority, 30);
    assert_eq!(warns[0].nodes, vec!["/a".to_string(), "/b".to_string()]);
    assert_eq!(warns[0].rr_timeslice_us, Some(100_000));
    assert_eq!(warns[0].shortest_period_us, Some(100_000));
}

#[test]
fn an_unknown_slice_never_assumes_the_default() {
    let (rr, warns) = rr_policy_for_ties(&tied_priorities(), &ten_hz_periods(), None);
    assert!(rr.is_empty());
    assert_eq!(warns.len(), 1);
    assert_eq!(warns[0].rr_timeslice_us, None);
}

#[test]
fn distinct_priorities_are_not_ties() {
    let prios = vec![("/a".to_string(), 30), ("/b".to_string(), 31)];
    let (rr, warns) = rr_policy_for_ties(&prios, &ten_hz_periods(), Some(1_000));
    assert!(rr.is_empty(), "no tie, so nothing to time-slice");
    assert!(warns.is_empty());
}

#[test]
fn a_tie_with_no_timing_fact_cannot_be_judged_and_warns() {
    // Paths triggered once have no budget.
    let periods = vec![("/a".to_string(), None), ("/b".to_string(), None)];
    let (rr, warns) = rr_policy_for_ties(&tied_priorities(), &periods, Some(1_000));
    assert!(rr.is_empty());
    assert_eq!(warns.len(), 1);
    assert_eq!(warns[0].shortest_period_us, None);
}
