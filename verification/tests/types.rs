use launch_manifest::decls::{ArgDecl, DropCount, QosDecl};
use launch_manifest::node_decl::no_properties;

#[test]
fn test_drop_count_display() {
    let dc = DropCount { n: 3, w: 50 };
    assert_eq!(dc.to_text(), "3 / 50");
}

#[test]
fn test_drop_count_invalid() {
    assert!("abc".parse::<DropCount>().is_err());
    assert!("5".parse::<DropCount>().is_err());
    assert!("5 / 0".parse::<DropCount>().is_err());
}

#[test]
fn drop_count_parses_its_own_text() {
    let dc: DropCount = "5 / 100".parse().unwrap();
    assert_eq!(dc.n, 5);
    assert_eq!(dc.w, 100);
    assert_eq!(DropCount::parse_text(&dc.to_text()).unwrap(), dc);
    assert_eq!(DropCount::parse_text(" 7/9 ").unwrap(), DropCount { n: 7, w: 9 });
    assert!(DropCount::parse_text("4294967296 / 1").is_err());
}

#[test]
fn arg_types_list_their_valid_values() {
    assert_eq!(ArgDecl::String.valid_values(), None);
    assert_eq!(ArgDecl::Bool.valid_values(), Some(vec!["true", "false"]));
    assert_eq!(
        ArgDecl::Choices(vec!["a".to_string(), "b".to_string()]).valid_values(),
        Some(vec!["a", "b"])
    );
}

#[test]
fn endpoint_qos_overrides_field_by_field() {
    let topic = QosDecl {
        reliability: Some("reliable".to_string()),
        durability: Some("volatile".to_string()),
        depth: Some(10),
        history: None,
        lifespan_ms: None,
        liveliness: None,
        deadline: None,
        lease_duration: None,
    };
    let endpoint = QosDecl {
        reliability: Some("best_effort".to_string()),
        durability: None,
        depth: None,
        history: None,
        lifespan_ms: Some(5),
        liveliness: None,
        deadline: None,
        lease_duration: None,
    };
    let q = QosDecl::effective(Some(&topic), Some(&endpoint));
    assert_eq!(q.reliability.as_deref(), Some("best_effort"));
    assert_eq!(q.durability.as_deref(), Some("volatile"));
    assert_eq!(q.depth, Some(10));
    assert_eq!(q.lifespan_ms, Some(5));
    assert_eq!(q.history, None);
    assert_eq!(QosDecl::effective(None, None), QosDecl {
        reliability: None,
        durability: None,
        depth: None,
        history: None,
        lifespan_ms: None,
        liveliness: None,
        deadline: None,
        lease_duration: None,
    });
}

fn qos_none() -> QosDecl {
    QosDecl {
        reliability: None,
        durability: None,
        depth: None,
        history: None,
        lifespan_ms: None,
        liveliness: None,
        deadline: None,
        lease_duration: None,
    }
}

#[test]
fn test_endpoint_effective_qos_overlay() {
    let topic = QosDecl {
        reliability: Some("reliable".into()),
        durability: Some("transient_local".into()),
        depth: Some(10),
        ..qos_none()
    };
    let endpoint = QosDecl { reliability: Some("best_effort".into()), ..qos_none() };
    let eff = QosDecl::effective(Some(&topic), Some(&endpoint));
    // Endpoint override wins for reliability.
    assert_eq!(eff.reliability.as_deref(), Some("best_effort"));
    // Topic-level fields are inherited.
    assert_eq!(eff.durability.as_deref(), Some("transient_local"));
    assert_eq!(eff.depth, Some(10));

    // Empty endpoint qos = full inherit.
    let eff = QosDecl::effective(Some(&topic), Some(&qos_none()));
    assert_eq!(eff.reliability.as_deref(), Some("reliable"));

    // No topic-level: endpoint stands alone.
    let eff = QosDecl::effective(None, Some(&endpoint));
    assert_eq!(eff.reliability.as_deref(), Some("best_effort"));
    assert_eq!(eff.durability, None);

    // Neither side: all None.
    let eff = QosDecl::effective(None, None);
    assert_eq!(eff.reliability, None);
    assert_eq!(eff.durability, None);
}

#[test]
fn test_endpoint_props_default() {
    let ep = no_properties();
    assert!(ep.min_rate_hz.is_none());
    assert!(ep.state.is_none());
    assert!(ep.required.is_none());
}
