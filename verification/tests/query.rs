use tx_ledger::log::{ListFilter, DEFAULT_LIMIT};
use tx_ledger::query::{endpoint_from_search, parse_limit};

#[test]
fn limit_is_read_from_digits() {
    assert_eq!(parse_limit("0"), Some(0));
    assert_eq!(parse_limit("25"), Some(25));
    assert_eq!(parse_limit("007"), Some(7));
    assert_eq!(parse_limit("+12"), Some(12));
    assert_eq!(parse_limit("4294967295"), Some(u32::MAX));
}

#[test]
fn limit_rejects_what_is_no_number() {
    assert_eq!(parse_limit(""), None);
    assert_eq!(parse_limit("+"), None);
    assert_eq!(parse_limit("-3"), None);
    assert_eq!(parse_limit("12a"), None);
    assert_eq!(parse_limit(" 12"), None);
    assert_eq!(parse_limit("1.5"), None);
    assert_eq!(parse_limit("++1"), None);
    assert_eq!(parse_limit("١٢"), None);
}

#[test]
fn limit_rejects_what_does_not_fit() {
    assert_eq!(parse_limit("4294967296"), None);
    assert_eq!(parse_limit("99999999999999999999999999"), None);
}

#[test]
fn filter_defaults_the_limit() {
    assert_eq!(DEFAULT_LIMIT, 100);
    assert_eq!(ListFilter::from_query(None, None), ListFilter { endpoint: None, limit: 100 });
    assert_eq!(
        ListFilter::from_query(Some("A".to_string()), Some("abc")),
        ListFilter { endpoint: Some("A".to_string()), limit: 100 }
    );
    assert_eq!(
        ListFilter::from_query(Some("A".to_string()), Some("3")),
        ListFilter { endpoint: Some("A".to_string()), limit: 3 }
    );
}

#[test]
fn endpoint_is_read_from_the_query() {
    assert_eq!(endpoint_from_search("?id=alice"), "alice");
    assert_eq!(endpoint_from_search("?id="), "");
    assert_eq!(endpoint_from_search("?id=a&b=c"), "a&b=c");
    assert_eq!(endpoint_from_search("?id=zoë"), "zoë");
}

#[test]
fn endpoint_defaults_without_the_parameter() {
    assert_eq!(endpoint_from_search(""), "endpoint-1");
    assert_eq!(endpoint_from_search("?x=1"), "endpoint-1");
    assert_eq!(endpoint_from_search("?id"), "endpoint-1");
    assert_eq!(endpoint_from_search("id=alice"), "endpoint-1");
}
