use launch_manifest::resolve::{bind_nodes, resolve, SchedError, SchedNode, DEFAULT_TIER};
use launch_manifest::sched_types::{AssignRule, TierDef, TierPlatformSpec};

fn node(name: &str, scope: &str) -> SchedNode {
    SchedNode { name: name.to_string(), scope: scope.to_string() }
}

fn rule_nodes(tier: &str, names: &[&str]) -> AssignRule {
    AssignRule { tier: tier.to_string(), nodes: names.iter().map(|s| s.to_string()).collect(), scope: None }
}

fn rule_scope(tier: &str, scope: &str) -> AssignRule {
    AssignRule { tier: tier.to_string(), nodes: vec![], scope: Some(scope.to_string()) }
}

fn group<'a>(m: &'a [(String, Vec<String>)], tier: &str) -> &'a Vec<String> {
    &m.iter().find(|(t, _)| t == tier).expect("tier present").1
}

fn head() -> TierDef {
    TierDef {
        class: None,
        deadline_us: None,
        period_us: None,
        budget_us: None,
        deadline_policy: None,
        spin_period_us: None,
        posix: None,
        freertos: None,
        zephyr: None,
        threadx: None,
        nuttx: None,
    }
}

fn spec(priority: i64) -> TierPlatformSpec {
    TierPlatformSpec {
        priority,
        stack_bytes: None,
        core: None,
        sched_class: None,
        preempt_threshold: None,
        deadline_us: None,
        budget_us: None,
        period_us: None,
        time_slice_us: None,
    }
}

fn posix_tier(priority: i64) -> TierDef {
    TierDef { posix: Some(spec(priority)), ..head() }
}

#[test]
fn unmatched_nodes_go_to_default() {
    let nodes = vec![node("/a", "/"), node("/b", "/")];
    let m = bind_nodes(&[], &nodes).unwrap();
    assert_eq!(m.len(), 1);
    assert_eq!(group(&m, DEFAULT_TIER), &vec!["/a".to_string(), "/b".to_string()]);
}

#[test]
fn explicit_node_selector_by_bare_name() {
    let nodes = vec![node("/ns/ndt_localizer", "/ns"), node("/ns/other", "/ns")];
    let m = bind_nodes(&[rule_nodes("control", &["ndt_localizer"])], &nodes).unwrap();
    assert_eq!(group(&m, "control"), &vec!["/ns/ndt_localizer".to_string()]);
    assert_eq!(group(&m, DEFAULT_TIER), &vec!["/ns/other".to_string()]);
}

#[test]
fn scope_selector_matches_subtree() {
    let nodes = vec![
        node("/perception/lidar/a", "/perception/lidar"),
        node("/perception/lidar/deep/b", "/perception/lidar/deep"),
        node("/control/c", "/control"),
    ];
    let m = bind_nodes(&[rule_scope("perception", "/perception/lidar")], &nodes).unwrap();
    assert_eq!(
        group(&m, "perception"),
        &vec!["/perception/lidar/a".to_string(), "/perception/lidar/deep/b".to_string()]
    );
    assert_eq!(group(&m, DEFAULT_TIER), &vec!["/control/c".to_string()]);
}

#[test]
fn explicit_node_wins_over_scope() {
    let nodes = vec![node("/p/a", "/p"), node("/p/b", "/p")];
    let assigns = vec![rule_scope("bg", "/p"), rule_nodes("control", &["/p/a"])];
    let m = bind_nodes(&assigns, &nodes).unwrap();
    assert_eq!(group(&m, "control"), &vec!["/p/a".to_string()]);
    assert_eq!(group(&m, "bg"), &vec!["/p/b".to_string()]);
}

#[test]
fn conflicting_node_rules_error() {
    let nodes = vec![node("/a", "/")];
    let assigns = vec![rule_nodes("hi", &["/a"]), rule_nodes("lo", &["/a"])];
    let err = bind_nodes(&assigns, &nodes).unwrap_err();
    assert!(matches!(err, SchedError::NodeMatchedByMultipleTiers { .. }));
}

#[test]
fn scope_scope_conflict_errors() {
    let nodes = vec![node("/p/a", "/p"), node("/p/b", "/p")];
    let assigns = vec![rule_scope("hi", "/p"), rule_scope("lo", "/p")];
    let err = bind_nodes(&assigns, &nodes).unwrap_err();
    assert!(matches!(err, SchedError::NodeMatchedByMultipleTiers { .. }));
}

#[test]
fn scope_selector_false_prefix_excluded() {
    let nodes = vec![node("/perception/a", "/perception")];
    let err = bind_nodes(&[rule_scope("hi", "/per")], &nodes).unwrap_err();
    assert!(matches!(err, SchedError::UnknownScopeSelector { .. }));
}

#[test]
fn unknown_node_selector_errors() {
    let nodes = vec![node("/a", "/")];
    let err = bind_nodes(&[rule_nodes("hi", &["ghost"])], &nodes).unwrap_err();
    assert!(matches!(err, SchedError::UnknownNodeSelector { .. }));
}

#[test]
fn unknown_scope_selector_errors() {
    let nodes = vec![node("/a", "/")];
    let err = bind_nodes(&[rule_scope("hi", "/nowhere")], &nodes).unwrap_err();
    assert!(matches!(err, SchedError::UnknownScopeSelector { .. }));
}

#[test]
fn no_assigns_degenerates_to_single_default_tier() {
    let tiers: Vec<(String, TierDef)> = vec![];
    let table = resolve(&tiers, &[], &[node("/a", "/")], "posix").unwrap();
    assert!(table.is_single_tier());
    assert_eq!(table.tiers[0].members, vec!["/a".to_string()]);
    assert_eq!(table.tiers[0].priority, 0);
}

#[test]
fn resolves_platform_numbers_and_effective_deadline() {
    let control = TierDef {
        class: Some("real_time".to_string()),
        deadline_us: Some(50000),
        posix: Some(TierPlatformSpec {
            sched_class: Some("SCHED_FIFO".to_string()),
            core: Some(1),
            deadline_us: Some(40000),
            ..spec(80)
        }),
        ..head()
    };
    let tiers = vec![("control".to_string(), control)];
    let table = resolve(&tiers, &[rule_nodes("control", &["/a"])], &[node("/a", "/")], "posix").unwrap();
    let t = table.tiers.iter().find(|t| t.name == "control").unwrap();
    assert_eq!(t.priority, 80);
    assert_eq!(t.core, Some(1));
    assert_eq!(t.class.as_deref(), Some("real_time"));
    assert_eq!(t.deadline_us, Some(40000));
    assert_eq!(t.members, vec!["/a".to_string()]);
}

#[test]
fn orders_tiers_highest_priority_first() {
    let tiers = vec![("hi".to_string(), posix_tier(80)), ("lo".to_string(), posix_tier(10))];
    let assigns = vec![rule_nodes("hi", &["/a"]), rule_nodes("lo", &["/b"])];
    let nodes = vec![node("/a", "/"), node("/b", "/")];
    let table = resolve(&tiers, &assigns, &nodes, "posix").unwrap();
    assert_eq!(table.tiers[0].name, "hi");
    assert_eq!(table.tiers[0].priority, 80);
    assert_eq!(table.tiers[1].name, "lo");
}

#[test]
fn unknown_tier_in_assign_errors() {
    let tiers: Vec<(String, TierDef)> = vec![];
    let err = resolve(&tiers, &[rule_nodes("ghost", &["/a"])], &[node("/a", "/")], "posix").unwrap_err();
    assert!(matches!(err, SchedError::UnknownTier { .. }));
}

#[test]
fn missing_platform_spec_errors() {
    let tiers = vec![("hi".to_string(), TierDef { freertos: Some(spec(5)), ..head() })];
    let err = resolve(&tiers, &[rule_nodes("hi", &["/a"])], &[node("/a", "/")], "posix").unwrap_err();
    assert!(matches!(err, SchedError::MissingPlatformSpec { .. }));
}

#[test]
fn deadline_falls_back_to_generic_head_when_platform_omits_it() {
    let tiers = vec![("rt".to_string(), TierDef { deadline_us: Some(50000), posix: Some(spec(40)), ..head() })];
    let table = resolve(&tiers, &[rule_nodes("rt", &["/a"])], &[node("/a", "/")], "posix").unwrap();
    let t = table.tiers.iter().find(|t| t.name == "rt").unwrap();
    assert_eq!(t.deadline_us, Some(50000));
}

#[test]
fn ties_broken_by_name() {
    let tiers = vec![("a".to_string(), posix_tier(50)), ("b".to_string(), posix_tier(50))];
    let assigns = vec![rule_nodes("b", &["/b_node"]), rule_nodes("a", &["/a_node"])];
    let nodes = vec![node("/a_node", "/"), node("/b_node", "/")];
    let table = resolve(&tiers, &assigns, &nodes, "posix").unwrap();
    assert_eq!(table.tiers[0].name, "a");
    assert_eq!(table.tiers[1].name, "b");
}

#[test]
fn the_first_defect_in_rule_order_is_the_one_reported() {
    let nodes = vec![node("/a/x", "/a"), node("/a/y", "/a"), node("/b/z", "/b")];
    // Rule order decides: the clash on `x` comes before the dead selector.
    let assigns = vec![rule_nodes("fast", &["x"]), rule_nodes("slow", &["x"]), rule_nodes("slow", &["ghost"])];
    assert_eq!(
        bind_nodes(&assigns, &nodes).unwrap_err(),
        SchedError::NodeMatchedByMultipleTiers {
            node: "/a/x".to_string(),
            tier_a: "fast".to_string(),
            tier_b: "slow".to_string(),
        }
    );
    // The explicit pass fails before any scope selector is looked at.
    let assigns = vec![rule_scope("fast", "/nowhere"), rule_nodes("slow", &["ghost"])];
    assert_eq!(
        bind_nodes(&assigns, &nodes).unwrap_err(),
        SchedError::UnknownNodeSelector { selector: "ghost".to_string() }
    );
    // Within the scope pass, the first rule's dead selector wins over a later clash.
    let assigns = vec![rule_scope("fast", "/nowhere"), rule_scope("fast", "/a"), rule_scope("slow", "/a")];
    assert_eq!(
        bind_nodes(&assigns, &nodes).unwrap_err(),
        SchedError::UnknownScopeSelector { selector: "/nowhere".to_string() }
    );
}
