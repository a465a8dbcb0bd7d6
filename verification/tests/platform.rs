//! Platform files as the YAML reader hands them over: each case writes the
//! document out as the blocks the reader delivers.

use launch_manifest::platform::{
    platform_file_from_raw, PlatformError, PlatformFile, PlatformOverrideEntry, PlatformResources,
    PosixOverride, PosixResources, PriorityBand, RawOverrideEntry, RawOverrides, RawPlatformFile,
    RawResources, ReservationMode,
};

fn no_override() -> PosixOverride {
    PosixOverride {
        priority: None,
        core: None,
        sched_class: None,
        cpus: vec![],
        nice: None,
        uclamp_min: None,
        uclamp_max: None,
        budget_us: None,
    }
}

fn resources(band: Option<(i64, i64)>, cpus: Vec<u32>, slice: Option<u64>) -> PosixResources {
    PosixResources {
        rt_priority_band: band.map(|(min, max)| PriorityBand { min, max }),
        isolated_cpus: cpus,
        rr_timeslice_us: slice,
    }
}

fn posix_raw(mapper: &str, res: PosixResources, overrides: Vec<(&str, PosixOverride)>) -> RawPlatformFile {
    RawPlatformFile {
        target: "posix".to_string(),
        mapper: mapper.to_string(),
        reservations: ReservationMode::Off,
        resources: RawResources::Posix(Ok(res)),
        overrides: if overrides.is_empty() {
            RawOverrides::Absent
        } else {
            RawOverrides::Entries(
                overrides
                    .into_iter()
                    .map(|(k, o)| (Some(k.to_string()), RawOverrideEntry::Posix(Ok(o))))
                    .collect(),
            )
        },
    }
}

fn posix_override<'a>(file: &'a PlatformFile, node: &str) -> &'a PosixOverride {
    match file.override_for(node) {
        Some(PlatformOverrideEntry::Posix(o)) => o,
        other => panic!("expected a posix override for {node}, got {other:?}"),
    }
}

/// The message refusing a one-override file, so each rejection below reads
/// as the override that causes it.
fn override_err(ov: PosixOverride) -> String {
    platform_file_from_raw(posix_raw("chain_aware", resources(None, vec![], None), vec![("n", ov)]))
        .expect_err("expected this override to be rejected")
        .message()
}

#[test]
fn parses_valid_posix_platform_file() {
    let ov = PosixOverride { priority: Some(20), core: Some(0), ..no_override() };
    let raw = posix_raw("rate_monotonic", resources(Some((10, 40)), vec![0], None), vec![("control_node", ov)]);
    let file = platform_file_from_raw(raw).expect("must parse");
    assert_eq!(file.target, "posix");
    assert_eq!(file.mapper, "rate_monotonic");
    let PlatformResources::Posix(res) = &file.resources else {
        panic!("expected posix resources");
    };
    assert_eq!(res.rt_priority_band, Some(PriorityBand { min: 10, max: 40 }));
    assert_eq!(res.isolated_cpus, vec![0]);
    let ov = posix_override(&file, "control_node");
    assert_eq!(ov.priority, Some(20));
    assert_eq!(ov.core, Some(0));
    assert!(file.legacy.is_none());
}

#[test]
fn override_vocabulary_parses() {
    let mut raw = posix_raw(
        "chain_aware",
        resources(Some((10, 40)), vec![2, 3], Some(100_000)),
        vec![
            ("obstacle_detector", PosixOverride { budget_us: Some(8000), uclamp_max: Some(800), ..no_override() }),
            (
                "telemetry_logger",
                PosixOverride {
                    sched_class: Some("SCHED_BATCH".to_string()),
                    nice: Some(10),
                    uclamp_min: Some(256),
                    ..no_override()
                },
            ),
            ("planner", PosixOverride { cpus: vec![4, 5], ..no_override() }),
        ],
    );
    raw.reservations = ReservationMode::Required;
    let file = platform_file_from_raw(raw).expect("must parse");
    assert_eq!(file.reservations, ReservationMode::Required);
    let PlatformResources::Posix(res) = &file.resources else {
        panic!("expected posix resources");
    };
    assert_eq!(res.rr_timeslice_us, Some(100_000));
    let det = posix_override(&file, "obstacle_detector");
    assert_eq!(det.budget_us, Some(8000));
    assert_eq!(det.uclamp_max, Some(800));
    let log = posix_override(&file, "telemetry_logger");
    assert_eq!(log.sched_class.as_deref(), Some("SCHED_BATCH"));
    assert_eq!(log.nice, Some(10));
    let pl = posix_override(&file, "planner");
    assert_eq!(pl.cpus, vec![4, 5]);
}

#[test]
fn reservations_defaults_to_off() {
    let file = platform_file_from_raw(posix_raw("chain_aware", resources(None, vec![], None), vec![])).unwrap();
    assert_eq!(file.reservations, ReservationMode::Off);
}

#[test]
fn unknown_sched_class_is_an_error_not_a_silent_sched_other() {
    let e = override_err(PosixOverride { sched_class: Some("SCHED_FIF0".to_string()), ..no_override() });
    assert!(e.contains("SCHED_FIF0"), "{e}");
    assert!(e.contains("SCHED_FIFO"), "should list the legal values: {e}");
}

#[test]
fn priority_and_nice_must_match_the_policy() {
    let e = override_err(PosixOverride {
        sched_class: Some("SCHED_OTHER".to_string()),
        priority: Some(20),
        ..no_override()
    });
    assert!(e.contains("priority"), "{e}");
    assert!(e.contains("SCHED_OTHER"), "{e}");

    let e = override_err(PosixOverride { sched_class: Some("SCHED_FIFO".to_string()), nice: Some(5), ..no_override() });
    assert!(e.contains("nice"), "{e}");
    assert!(e.contains("SCHED_FIFO"), "{e}");
}

#[test]
fn deadline_override_cannot_pin_cpus() {
    let e = override_err(PosixOverride {
        sched_class: Some("SCHED_DEADLINE".to_string()),
        core: Some(2),
        ..no_override()
    });
    assert!(e.contains("EPERM") || e.contains("cpuset"), "{e}");
}

#[test]
fn out_of_range_values_are_rejected() {
    assert!(override_err(PosixOverride {
        sched_class: Some("SCHED_FIFO".to_string()),
        priority: Some(0),
        ..no_override()
    })
    .contains("1..=99"));
    assert!(override_err(PosixOverride {
        sched_class: Some("SCHED_BATCH".to_string()),
        nice: Some(20),
        ..no_override()
    })
    .contains("-20..=19"));
    assert!(override_err(PosixOverride { uclamp_min: Some(2000), ..no_override() }).contains("0..=1024"));
    assert!(override_err(PosixOverride { uclamp_min: Some(900), uclamp_max: Some(100), ..no_override() })
        .contains("exceeds"));
}

#[test]
fn core_and_cpus_are_mutually_exclusive() {
    let e = override_err(PosixOverride { core: Some(1), cpus: vec![2, 3], ..no_override() });
    assert!(e.contains("mutually exclusive"), "{e}");
}

#[test]
fn zero_budget_is_rejected_because_absent_and_zero_differ() {
    let e = override_err(PosixOverride { budget_us: Some(0), ..no_override() });
    assert!(e.contains("Absent and zero"), "{e}");
}

#[test]
fn empty_target_is_rejected() {
    let mut raw = posix_raw("manual", resources(None, vec![], None), vec![]);
    raw.target = String::new();
    raw.resources = RawResources::Raw(serde_yaml_ng::Value::Null);
    assert_eq!(platform_file_from_raw(raw).unwrap_err(), PlatformError::EmptyTarget);
}

#[test]
fn empty_mapper_is_rejected() {
    let raw = posix_raw("", resources(None, vec![], None), vec![]);
    assert_eq!(platform_file_from_raw(raw).unwrap_err(), PlatformError::EmptyMapper);
}

#[test]
fn posix_band_outside_rt_range_is_rejected() {
    let err = platform_file_from_raw(posix_raw("rate_monotonic", resources(Some((10, 200)), vec![], None), vec![]))
        .unwrap_err();
    let PlatformError::InvalidPriorityBand { min, max, reason } = &err else {
        panic!("expected InvalidPriorityBand, got: {err:?}");
    };
    assert_eq!((*min, *max), (10, 200));
    assert!(reason.contains("1..=99"), "reason should cite the range: {reason}");

    let err = platform_file_from_raw(posix_raw("rate_monotonic", resources(Some((0, 40)), vec![], None), vec![]))
        .unwrap_err();
    assert!(matches!(err, PlatformError::InvalidPriorityBand { .. }));
}

#[test]
fn posix_band_min_above_max_is_rejected_at_parse() {
    let err = platform_file_from_raw(posix_raw("rate_monotonic", resources(Some((40, 10)), vec![], None), vec![]))
        .unwrap_err();
    let PlatformError::InvalidPriorityBand { reason, .. } = &err else {
        panic!("expected InvalidPriorityBand, got: {err:?}");
    };
    assert!(reason.contains("min") && reason.contains("max"), "got: {reason}");
}

#[test]
fn posix_band_at_full_rt_range_is_accepted() {
    let file = platform_file_from_raw(posix_raw("rate_monotonic", resources(Some((1, 99)), vec![], None), vec![]))
        .expect("full 1..=99 band is legal");
    let PlatformResources::Posix(res) = &file.resources else {
        panic!("expected posix resources");
    };
    assert_eq!(res.rt_priority_band, Some(PriorityBand { min: 1, max: 99 }));
}

fn zephyr_raw(mapper: &str, resources: serde_yaml_ng::Value, overrides: RawOverrides) -> RawPlatformFile {
    RawPlatformFile {
        target: "zephyr".to_string(),
        mapper: mapper.to_string(),
        reservations: ReservationMode::Off,
        resources: RawResources::Raw(resources),
        overrides,
    }
}

#[test]
fn unknown_target_band_is_not_range_validated() {
    let res: serde_yaml_ng::Value =
        serde_yaml_ng::from_str("rt_priority_band: { min: -16, max: 200 }").unwrap();
    let file = platform_file_from_raw(zephyr_raw("rate_monotonic", res, RawOverrides::Absent))
        .expect("unknown target is never range-validated");
    assert!(matches!(file.resources, PlatformResources::Raw(_)));
}

#[test]
fn unknown_target_keeps_raw_passthrough() {
    let res: serde_yaml_ng::Value = serde_yaml_ng::from_str("stack_bytes: 8192\ncustom_key: [1, 2, 3]").unwrap();
    let ov: serde_yaml_ng::Value = serde_yaml_ng::from_str("{ anything: \"goes\" }").unwrap();
    let overrides = RawOverrides::Entries(vec![(Some("control_node".to_string()), RawOverrideEntry::Raw(ov))]);
    let file = platform_file_from_raw(zephyr_raw("manual", res, overrides)).expect("must parse");
    assert_eq!(file.target, "zephyr");
    assert!(matches!(file.resources, PlatformResources::Raw(_)));
    assert!(matches!(file.override_for("control_node"), Some(PlatformOverrideEntry::Raw(_))));
}

#[test]
fn minimal_posix_file_with_no_resources_or_overrides_parses() {
    let file = platform_file_from_raw(posix_raw("manual", resources(None, vec![], None), vec![])).expect("must parse");
    let PlatformResources::Posix(res) = &file.resources else {
        panic!("expected posix resources");
    };
    assert_eq!(res.rt_priority_band, None);
    assert!(file.overrides.is_empty());
}

#[test]
fn unknown_field_in_posix_resources_is_rejected() {
    // The reader's complaint about `bogus_field`, carried as the shape error.
    let mut raw = posix_raw("manual", resources(None, vec![], None), vec![]);
    raw.resources = RawResources::Posix(Err("unknown field `bogus_field`".to_string()));
    let err = platform_file_from_raw(raw).unwrap_err();
    assert!(matches!(err, PlatformError::TargetShape { .. }));
}

#[test]
fn overrides_that_are_not_a_mapping_are_refused() {
    let mut raw = posix_raw("manual", resources(None, vec![], None), vec![]);
    raw.overrides = RawOverrides::NotMapping;
    let err = platform_file_from_raw(raw).unwrap_err();
    assert_eq!(
        err,
        PlatformError::TargetShape { target: "posix".to_string(), reason: "`overrides` must be a mapping".to_string() }
    );
}

#[test]
fn the_first_bad_override_in_document_order_is_the_one_reported() {
    let raw = posix_raw(
        "manual",
        resources(None, vec![], None),
        vec![
            ("fine", PosixOverride { priority: Some(5), ..no_override() }),
            ("first", PosixOverride { budget_us: Some(0), ..no_override() }),
            ("second", PosixOverride { uclamp_min: Some(2000), ..no_override() }),
        ],
    );
    let err = platform_file_from_raw(raw).unwrap_err();
    let PlatformError::InvalidOverride { node, .. } = &err else {
        panic!("expected InvalidOverride, got {err:?}");
    };
    assert_eq!(node, "first");
}

#[test]
fn overrides_are_kept_by_selector_and_a_later_pin_wins() {
    let raw = posix_raw(
        "chain_aware",
        resources(Some((10, 40)), vec![], None),
        vec![
            ("zeta", PosixOverride { priority: Some(11), ..no_override() }),
            ("alpha", PosixOverride { priority: Some(12), ..no_override() }),
            ("zeta", PosixOverride { priority: Some(13), ..no_override() }),
        ],
    );
    let file = platform_file_from_raw(raw).expect("must parse");
    let names: Vec<&str> = file.overrides.iter().map(|(n, _)| n.as_str()).collect();
    assert_eq!(names, vec!["alpha", "zeta"]);
    assert_eq!(posix_override(&file, "zeta").priority, Some(13));
    assert_eq!(posix_override(&file, "alpha").priority, Some(12));
}
