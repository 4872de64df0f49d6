use lib::contracts::{valid_kind, Actor, EventEnvelope, PRODUCT};

fn envelope(id: &str, kind: &str, occurred_at: &str) -> EventEnvelope {
    EventEnvelope {
        id: id.to_string(),
        kind: kind.to_string(),
        occurred_at: occurred_at.to_string(),
        actor: Some(Actor {
            id: "actor_1".to_string(),
            tenant_id: "tenant_medellin".to_string(),
        }),
    }
}

#[test]
fn validates_namespaced_kinds() {
    assert!(valid_kind("case.created"));
    assert!(!valid_kind("CaseCreated"));
    assert!(!valid_kind("created"));
}

#[test]
fn kind_edge_cases() {
    assert!(!valid_kind(""));
    assert!(valid_kind("."));
    assert!(valid_kind(".created"));
    assert!(valid_kind("case.created_v2-beta"));
    assert!(!valid_kind("1case.created"));
    assert!(!valid_kind("_case.created"));
    assert!(!valid_kind("case.Created"));
    assert!(!valid_kind("case created."));
    assert!(!valid_kind("case.créé"));
}

#[test]
fn validate_accepts_complete_envelope() {
    assert_eq!(envelope("evt_1", "case.created", "2024-01-01T00:00:00Z").validate(), Ok(()));
}

#[test]
fn validate_reports_first_failing_field() {
    assert_eq!(
        envelope("  \t", "bad", "").validate(),
        Err("event id is required")
    );
    assert_eq!(
        envelope("evt_1", "Bad.Kind", "").validate(),
        Err("event kind must be lowercase and namespaced")
    );
    assert_eq!(
        envelope("evt_1", "case.created", " \u{3000} ").validate(),
        Err("occurred_at is required")
    );
    assert_eq!(
        envelope("\u{a0}", "case.created", "now").validate(),
        Err("event id is required")
    );
}

#[test]
fn product_name_is_stable() {
    assert_eq!(PRODUCT, "hacker-house-medellin");
}
