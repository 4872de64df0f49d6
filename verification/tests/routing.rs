use lib::contracts::EventEnvelope;
use lib::routing::{classify, partition, Priority};

fn event(id: &str) -> EventEnvelope {
    EventEnvelope {
        id: id.to_string(),
        kind: "case.created".to_string(),
        occurred_at: "2024-01-01T00:00:00Z".to_string(),
        actor: None,
    }
}

#[test]
fn classifies_severity() {
    assert_eq!(classify("sev1"), Priority::Urgent);
}

#[test]
fn classification_ignores_case_and_surrounding_whitespace() {
    assert_eq!(classify("  CRITICAL \n"), Priority::Urgent);
    assert_eq!(classify("P0"), Priority::Urgent);
    assert_eq!(classify("sev0"), Priority::Urgent);
    assert_eq!(classify("High"), Priority::High);
    assert_eq!(classify("p1"), Priority::High);
    assert_eq!(classify("\tsev2"), Priority::High);
    assert_eq!(classify("medium"), Priority::Normal);
    assert_eq!(classify("p2"), Priority::Normal);
    assert_eq!(classify("WARN"), Priority::Normal);
    assert_eq!(classify("warning"), Priority::Normal);
    assert_eq!(classify(""), Priority::Low);
    assert_eq!(classify("sev 1"), Priority::Low);
    assert_eq!(classify("low"), Priority::Low);
    assert_eq!(classify("\u{3000}sev1\u{2003}"), Priority::Urgent);
}

#[test]
fn priorities_are_ordered() {
    assert!(Priority::Low < Priority::Normal);
    assert!(Priority::Normal < Priority::High);
    assert!(Priority::High < Priority::Urgent);
}

#[test]
fn partition_rejects_zero_partitions() {
    assert_eq!(partition(&event("evt_1"), 0), Err("partitions must be non-zero"));
}

#[test]
fn partition_hashes_the_id_bytes() {
    // The empty id hashes to the seed; each byte is XORed in, then multiplied
    // by the FNV prime modulo 2^64.
    assert_eq!(partition(&event(""), u64::MAX), Ok(1469598103934665603 % u64::MAX));
    assert_eq!(partition(&event("a"), u64::MAX), Ok(0x44bd8ad473cd9906 % u64::MAX));
    assert_eq!(partition(&event("a"), 7), Ok(0x44bd8ad473cd9906 % 7));
    assert_eq!(partition(&event("foobar"), u64::MAX), Ok(0x88fad7c0a8ff07f2 % u64::MAX));
}

#[test]
fn partition_is_deterministic_and_in_range() {
    for partitions in 1..20u64 {
        let first = partition(&event("evt_42"), partitions).unwrap();
        let second = partition(&event("evt_42"), partitions).unwrap();
        assert_eq!(first, second);
        assert!(first < partitions);
    }
    assert_eq!(partition(&event("evt_42"), 1), Ok(0));
}
