use launch_manifest::posix::{PosixAffinity, PosixError, PosixPlacement, PosixPolicyKind, PosixSched};

#[test]
fn sched_class_parsing_fails_closed() {
    assert_eq!(PosixPolicyKind::parse("SCHED_FIFO").unwrap(), PosixPolicyKind::Fifo);
    assert_eq!(PosixPolicyKind::parse(" SCHED_DEADLINE ").unwrap(), PosixPolicyKind::Deadline);
    let err = PosixPolicyKind::parse("SCHED_FIF0").unwrap_err();
    assert_eq!(err, PosixError::UnknownSchedClass { value: "SCHED_FIF0".to_string() });
    assert!(err.message().contains("SCHED_FIFO"), "{}", err.message());
}

#[test]
fn every_policy_round_trips_through_its_canonical_spelling() {
    for kind in [
        PosixPolicyKind::Other,
        PosixPolicyKind::Batch,
        PosixPolicyKind::Idle,
        PosixPolicyKind::Fifo,
        PosixPolicyKind::Rr,
        PosixPolicyKind::Deadline,
    ] {
        assert_eq!(PosixPolicyKind::parse(kind.as_str()).unwrap(), kind);
    }
}

#[test]
fn deadline_has_no_priority_and_is_real_time() {
    let dl = PosixSched::Deadline { runtime_ns: 1, deadline_ns: 2, period_ns: 3, overrun: false };
    assert_eq!(dl.priority(), None);
    assert!(dl.is_real_time());
    assert_eq!(PosixSched::Fifo { priority: 40 }.priority(), Some(40));
    assert_eq!(PosixSched::Batch { nice: 10 }.priority(), None);
    assert!(!PosixSched::Batch { nice: 10 }.is_real_time());
    assert!(!PosixSched::Idle.is_real_time());
}

#[test]
fn only_deadline_requires_reset_on_fork() {
    assert!(PosixSched::Deadline { runtime_ns: 1, deadline_ns: 2, period_ns: 3, overrun: false }
        .requires_reset_on_fork());
    assert!(!PosixSched::Fifo { priority: 40 }.requires_reset_on_fork());
    assert!(!PosixSched::Rr { priority: 40 }.requires_reset_on_fork());
    assert!(!PosixSched::Other { nice: 0 }.requires_reset_on_fork());
}

#[test]
fn deadline_with_a_cpu_mask_is_rejected() {
    let err = PosixPlacement::new(
        PosixSched::Deadline {
            runtime_ns: 1_000_000,
            deadline_ns: 10_000_000,
            period_ns: 10_000_000,
            overrun: true,
        },
        PosixAffinity::Cpus { cpus: vec![2, 3] },
    )
    .unwrap_err();
    assert_eq!(err, PosixError::DeadlineWithCpuMask);
    assert!(err.message().contains("EPERM"), "{}", err.message());
}

#[test]
fn deadline_in_a_cpuset_is_accepted() {
    PosixPlacement::new(
        PosixSched::Deadline {
            runtime_ns: 8_000_000,
            deadline_ns: 100_000_000,
            period_ns: 100_000_000,
            overrun: true,
        },
        PosixAffinity::Cpuset { path: "/sys/fs/cgroup/play_launch.slice/rt-1".to_string() },
    )
    .expect("a cpuset is the legal way to give a deadline task a CPU subset");
}

#[test]
fn deadline_params_must_be_ordered() {
    let err = PosixPlacement::new(
        PosixSched::Deadline {
            runtime_ns: 20_000_000,
            deadline_ns: 10_000_000,
            period_ns: 10_000_000,
            overrun: false,
        },
        PosixAffinity::Inherit,
    )
    .unwrap_err();
    assert!(matches!(err, PosixError::DeadlineParamsUnordered { .. }));
}

#[test]
fn out_of_range_priority_nice_and_uclamp_are_rejected() {
    assert!(matches!(
        PosixPlacement::new(PosixSched::Fifo { priority: 0 }, PosixAffinity::Inherit).unwrap_err(),
        PosixError::PriorityOutOfRange { .. }
    ));
    assert!(matches!(
        PosixPlacement::new(PosixSched::Rr { priority: 100 }, PosixAffinity::Inherit).unwrap_err(),
        PosixError::PriorityOutOfRange { .. }
    ));
    assert!(matches!(
        PosixPlacement::new(PosixSched::Batch { nice: 20 }, PosixAffinity::Inherit).unwrap_err(),
        PosixError::NiceOutOfRange { .. }
    ));
    assert!(matches!(
        PosixPlacement::new(PosixSched::Other { nice: 0 }, PosixAffinity::Inherit)
            .unwrap()
            .with_uclamp(0, 2000)
            .unwrap_err(),
        PosixError::UclampOutOfRange { .. }
    ));
    assert!(matches!(
        PosixPlacement::new(PosixSched::Other { nice: 0 }, PosixAffinity::Inherit)
            .unwrap()
            .with_uclamp(900, 100)
            .unwrap_err(),
        PosixError::UclampOutOfRange { .. }
    ));
}

#[test]
fn empty_cpu_mask_is_rejected() {
    assert_eq!(
        PosixPlacement::new(PosixSched::Fifo { priority: 40 }, PosixAffinity::Cpus { cpus: vec![] })
            .unwrap_err(),
        PosixError::EmptyCpuMask
    );
}

#[test]
fn placement_with_uclamp_keeps_its_settings() {
    let p = PosixPlacement::new(PosixSched::Fifo { priority: 40 }, PosixAffinity::Cpus { cpus: vec![2, 3] })
        .unwrap()
        .with_uclamp(0, 1024)
        .unwrap();
    assert_eq!(p.sched, PosixSched::Fifo { priority: 40 });
    assert_eq!(p.uclamp, Some((0, 1024)));
    assert!(p.validate().is_ok());
}

#[test]
fn an_unknown_class_is_quoted_as_debug_formatting_quotes_it() {
    for value in ["FIFO", "say \"hi\"\n", "esc\u{1b}", "caf\u{e9}", "tab\tend", "del\u{7f}"] {
        let err = PosixError::UnknownSchedClass { value: value.to_string() };
        let expected = format!(
            "unknown POSIX scheduling class {value:?}; expected one of SCHED_OTHER, SCHED_BATCH, SCHED_IDLE, SCHED_FIFO, SCHED_RR, SCHED_DEADLINE"
        );
        assert_eq!(err.message(), expected);
    }
}
