use clacheless::config::address_template;
use clacheless::config::cache_item_time_to_live_micros;
use clacheless::config::local_node_id;
use clacheless::util::extract_ordinal_from_string;

#[test]
fn test_happy_ordinal_extraction() {
    let ordinal = extract_ordinal_from_string("clacheless-1");
    assert_eq!(ordinal, Some(1));
    let ordinal = extract_ordinal_from_string("clacheless-123");
    assert_eq!(ordinal, Some(123));
}

#[test]
fn ordinal_after_last_dash_only() {
    assert_eq!(extract_ordinal_from_string("a-b-7"), Some(7));
    assert_eq!(extract_ordinal_from_string("a-7-b"), None);
    assert_eq!(extract_ordinal_from_string("no_dash"), None);
    assert_eq!(extract_ordinal_from_string("trailing-"), None);
    assert_eq!(extract_ordinal_from_string("plus-+5"), Some(5));
    assert_eq!(extract_ordinal_from_string("big-4294967295"), Some(u32::MAX));
    assert_eq!(extract_ordinal_from_string("big-4294967296"), None);
    assert_eq!(extract_ordinal_from_string("neg--1"), Some(1));
    assert_eq!(extract_ordinal_from_string("neg-"), None);
}

#[test]
fn config_defaults_and_values() {
    assert_eq!(
        address_template(None),
        "statefulsetname-ORDINAL.headlessservicename.namespace.svc:9090"
    );
    assert_eq!(address_template(Some("x-ORDINAL:1")), "x-ORDINAL:1");
    assert_eq!(local_node_id(Some("clacheless-3")), 3);
    assert_eq!(local_node_id(Some("clacheless")), 0);
    assert_eq!(local_node_id(None), 0);
    assert_eq!(cache_item_time_to_live_micros(None), 3_600_000_000);
    assert_eq!(cache_item_time_to_live_micros(Some("30")), 30_000_000);
    assert_eq!(cache_item_time_to_live_micros(Some("thirty")), 3_600_000_000);
    assert_eq!(cache_item_time_to_live_micros(Some("18446744073709551615")), u64::MAX);
}
