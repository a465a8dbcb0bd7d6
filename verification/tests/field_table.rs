use launch_manifest::field_table::{allowed, edit_distance, fields, lookup, nearest, render_markdown, suggestions, Context, Status};

#[test]
fn no_key_is_declared_twice_in_one_context() {
    let mut seen = std::collections::BTreeSet::new();
    for f in fields() {
        assert!(seen.insert((f.context, f.key)), "`{}` is declared twice in {}", f.key, f.context.label());
    }
}

#[test]
fn every_alias_names_a_live_key_in_the_same_context() {
    for f in fields().iter().filter(|f| f.status == Status::DeprecatedAlias) {
        assert!(!f.canonical.is_empty(), "alias `{}` names no canonical key", f.key);
        assert!(
            allowed(f.context).iter().any(|c| c.key == f.canonical && c.status == Status::Live),
            "alias `{}` in {} names `{}`, which is not a live key there",
            f.key,
            f.context.label(),
            f.canonical
        );
    }
}

#[test]
fn a_one_character_typo_gets_a_suggestion() {
    assert_eq!(nearest(Context::Path, "max_latencyy"), Some("max_latency"));
    assert_eq!(nearest(Context::Topic, "rate_hzz"), Some("rate_hz"));
    assert_eq!(nearest(Context::Path, "bogus_field"), None);
}

#[test]
fn rows_are_grouped_by_context() {
    let mut seen: Vec<Context> = Vec::new();
    let mut last: Option<Context> = None;
    for f in fields() {
        if last != Some(f.context) {
            assert!(!seen.contains(&f.context), "{} rows are split across the table", f.context.label());
            seen.push(f.context);
            last = Some(f.context);
        }
    }
}

#[test]
fn every_field_is_documented() {
    for f in fields() {
        assert!(!f.doc.is_empty(), "`{}` in {} has no doc line", f.key, f.context.label());
    }
}

#[test]
fn edit_distance_is_levenshtein() {
    assert_eq!(edit_distance("", ""), 0);
    assert_eq!(edit_distance("abc", ""), 3);
    assert_eq!(edit_distance("kitten", "sitting"), 3);
    assert_eq!(edit_distance("rate_hz", "rate_hzz"), 1);
    assert_eq!(edit_distance("flaw", "lawn"), 2);
}

#[test]
fn lookup_finds_live_keys_and_nothing_else() {
    let f = lookup(Context::Topic, "rate_hz").expect("rate_hz is a topic key");
    assert_eq!(f.key, "rate_hz");
    assert_eq!(f.context, Context::Topic);
    assert!(lookup(Context::Topic, "bogus_field").is_none());
}

#[test]
fn suggestions_are_sorted_and_offered_keys_only() {
    let s = suggestions(Context::Topic);
    assert!(s.contains(&"rate_hz"));
    let mut sorted = s.clone();
    sorted.sort();
    assert_eq!(s, sorted);
}

#[test]
fn the_rendered_reference_has_one_section_per_context() {
    let text = render_markdown();
    for f in fields() {
        assert!(text.contains(f.key), "`{}` is missing from the reference", f.key);
    }
}

#[test]
fn every_context_has_its_own_label() {
    let all = [
        Context::Manifest, Context::Node, Context::Endpoint, Context::SrvEndpoint, Context::Topic,
        Context::ExternalTopic, Context::Service, Context::Action, Context::IncludeExternal, Context::Arg,
        Context::Path, Context::Trigger, Context::TriggerTimer, Context::Sync, Context::Drop, Context::Qos,
        Context::Miss, Context::Concurrency,
    ];
    let labels: std::collections::BTreeSet<&str> = all.iter().map(|c| c.label()).collect();
    assert_eq!(labels.len(), all.len());
    assert_eq!(Context::TriggerTimer.label(), "trigger.timer");
    assert_eq!(Context::Endpoint.label(), "pub/sub/cli.<endpoint>");
}
