use tx_ledger::ident::{canonical_id, fresh_id, is_well_formed_id};
use tx_ledger::text::push_decimal;
use tx_ledger::transaction::{text_is, Status};

#[test]
fn hyphenated_text_is_well_formed() {
    assert!(is_well_formed_id("550e8400-e29b-41d4-a716-446655440000"));
}

#[test]
fn other_spellings_are_well_formed() {
    assert!(is_well_formed_id("550e8400e29b41d4a716446655440000"));
    assert!(is_well_formed_id("{550e8400-e29b-41d4-a716-446655440000}"));
    assert!(is_well_formed_id("urn:uuid:550e8400-e29b-41d4-a716-446655440000"));
    assert!(is_well_formed_id("550E8400-E29B-41D4-A716-446655440000"));
}

#[test]
fn malformed_text_is_rejected() {
    assert!(!is_well_formed_id(""));
    assert!(!is_well_formed_id("not-an-id"));
    assert!(!is_well_formed_id("550e8400-e29b-41d4-a716-44665544000"));
    assert!(!is_well_formed_id("550e8400-e29b-41d4-a716-44665544000g"));
    assert!(!is_well_formed_id("550e8400_e29b_41d4_a716_446655440000"));
}

#[test]
fn canonical_spelling_is_hyphenated_lower_case() {
    let want = Some("550e8400-e29b-41d4-a716-446655440000".to_string());
    assert_eq!(canonical_id("550E8400-E29B-41D4-A716-446655440000"), want);
    assert_eq!(canonical_id("550e8400e29b41d4a716446655440000"), want);
    assert_eq!(canonical_id("{550e8400-e29b-41d4-a716-446655440000}"), want);
    assert_eq!(canonical_id("urn:uuid:550e8400-e29b-41d4-a716-446655440000"), want);
    assert_eq!(canonical_id("550e8400-e29b-41d4-a716-446655440000"), want);
}

#[test]
fn canonical_spelling_keeps_every_digit_in_place() {
    assert_eq!(
        canonical_id("0123456789ABCDEFFEDCBA9876543210"),
        Some("01234567-89ab-cdef-fedc-ba9876543210".to_string())
    );
    assert_eq!(
        canonical_id("00000000000000000000000000000000"),
        Some("00000000-0000-0000-0000-000000000000".to_string())
    );
}

#[test]
fn malformed_text_has_no_canonical_spelling() {
    assert_eq!(canonical_id("xyz"), None);
    assert_eq!(canonical_id(""), None);
}

#[test]
fn fresh_ids_are_canonical() {
    let id = fresh_id();
    assert_eq!(id.len(), 36);
    assert_eq!(canonical_id(&id), Some(id.clone()));
    assert_ne!(fresh_id(), id);
}

#[test]
fn decimal_digits_are_appended() {
    let mut text = "n=".to_string();
    push_decimal(&mut text, 0);
    assert_eq!(text, "n=0");
    push_decimal(&mut text, 7);
    assert_eq!(text, "n=07");
    push_decimal(&mut text, 1_203_450);
    assert_eq!(text, "n=071203450");
    let mut big = String::new();
    push_decimal(&mut big, u64::MAX);
    assert_eq!(big, "18446744073709551615");
}

#[test]
fn status_labels_round_trip() {
    for status in [Status::Pending, Status::Confirmed, Status::Failed] {
        assert_eq!(Status::from_label(&status.label()), Some(status));
    }
    assert_eq!(Status::Pending.label(), "pending");
    assert_eq!(Status::Confirmed.label(), "confirmed");
    assert_eq!(Status::Failed.label(), "failed");
    assert_eq!(Status::from_label(&"Pending".to_string()), None);
    assert_eq!(Status::from_label(&"".to_string()), None);
}

#[test]
fn text_is_compares_whole_texts() {
    assert!(text_is(&"join".to_string(), "join"));
    assert!(!text_is(&"join".to_string(), "joined"));
    assert!(!text_is(&"".to_string(), "join"));
}
