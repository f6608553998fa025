use clacheless::cluster_view::ClusterStateView;
use clacheless::local_cache::LocalCache;
use clacheless::local_sequence::LocalSequence;
use clacheless::node_view::NodeView;
use clacheless::ClachelessErrorKind;
use std::collections::HashMap;

#[test]
fn sequence_values_strictly_increase() {
    let mut s = LocalSequence::new(42);
    assert_eq!(s.node_id(), 42);
    assert!(!s.has_been_pulled());
    assert_eq!(s.current(), 0);
    let mut last = 0;
    for _ in 0..5 {
        let v = s.generate_next();
        assert!(v > last);
        last = v;
    }
    assert_eq!(last, 5);
    assert_eq!(s.current(), 5);
    assert!(s.has_been_pulled());
}

#[test]
fn later_write_wins_in_either_order() {
    let mut c = LocalCache::new();
    c.put("k".to_string(), b"v1".to_vec(), 10, 1, 1, 1_000).unwrap();
    c.put("k".to_string(), b"v2".to_vec(), 20, 1, 2, 1_000).unwrap();
    assert_eq!(*c.get("k", 0).unwrap(), b"v2".to_vec());
    let mut c = LocalCache::new();
    c.put("k".to_string(), b"v2".to_vec(), 20, 1, 2, 1_000).unwrap();
    c.put("k".to_string(), b"v1".to_vec(), 10, 1, 1, 1_000).unwrap();
    assert_eq!(*c.get("k", 0).unwrap(), b"v2".to_vec());
    // An equal timestamp keeps the incumbent.
    c.put("k".to_string(), b"v3".to_vec(), 20, 1, 3, 1_000).unwrap();
    assert_eq!(*c.get("k", 0).unwrap(), b"v2".to_vec());
}

#[test]
fn expired_entry_is_not_returned_before_purge() {
    let mut c = LocalCache::new();
    c.put("k".to_string(), b"v".to_vec(), 10, 1, 1, 100).unwrap();
    assert!(c.get("k", 99).is_ok());
    let err = c.get("k", 100).unwrap_err();
    assert_eq!(err.kind, ClachelessErrorKind::NotFound);
    assert!(c.get("missing", 0).is_err());
    // Purge removes what expired strictly before `now`.
    assert_eq!(c.purge_expired(100), 0);
    c.put("j".to_string(), b"w".to_vec(), 10, 1, 2, 500).unwrap();
    assert_eq!(c.purge_expired(101), 1);
    assert!(c.get("j", 101).is_ok());
    c.put("k".to_string(), b"again".to_vec(), 5, 1, 3, 1_000).unwrap();
    assert_eq!(*c.get("k", 101).unwrap(), b"again".to_vec());
}

#[test]
fn redelivered_put_changes_nothing() {
    let mut c = LocalCache::new();
    c.put("k".to_string(), b"v".to_vec(), 10, 7, 1, 1_000).unwrap();
    c.put("k".to_string(), b"other".to_vec(), 10, 7, 1, 1_000).unwrap();
    assert_eq!(*c.get("k", 0).unwrap(), b"v".to_vec());
}

#[test]
fn transfer_batch_filters_and_orders() {
    let mut c = LocalCache::new();
    c.put("z".to_string(), b"1".to_vec(), 50, 1, 3, 1_000).unwrap();
    c.put("a".to_string(), b"2".to_vec(), 60, 1, 1, 1_000).unwrap();
    c.put("m".to_string(), b"3".to_vec(), 70, 1, 2, 1_000).unwrap();
    c.put("old".to_string(), b"4".to_vec(), 5, 1, 9, 1_000).unwrap();
    c.put("gone".to_string(), b"5".to_vec(), 80, 1, 4, 90).unwrap();
    c.put("other".to_string(), b"6".to_vec(), 90, 2, 1, 1_000).unwrap();
    let mut baselines = HashMap::new();
    baselines.insert(1u64, 10u64);
    let batch = c.iter(&baselines, 100);
    let keys: Vec<&str> = batch.iter().map(|e| e.key.as_str()).collect();
    assert_eq!(keys, vec!["a", "m", "z"]);
    let seqs: Vec<u64> = batch.iter().map(|e| e.ce.origin_node_update_seq).collect();
    assert_eq!(seqs, vec![1, 2, 3]);
    assert!(c.iter(&HashMap::new(), 100).is_empty());
}

#[test]
fn node_view_closes_gaps_out_of_order() {
    let mut v = NodeView::new();
    assert_eq!(v.get_baseline_sequence(), 0);
    assert!(v.update(1));
    assert!(!v.update(3));
    assert_eq!(v.get_baseline_sequence(), 1);
    assert_eq!(v.get_latest_sequence(), 3);
    assert!(v.update(2));
    assert_eq!(v.get_baseline_sequence(), 3);
    assert_eq!(v.get_latest_sequence(), 3);
    // Repeating a number already covered changes nothing.
    assert!(!v.update(2));
    assert_eq!(v.get_baseline_sequence(), 3);
    assert_eq!(v.get_latest_sequence(), 3);
    assert!(!v.update(0));
    assert!(v.get_baseline_sequence() <= v.get_latest_sequence());
}

#[test]
fn gap_skips_local_node_and_caught_up_origins() {
    let mut cv = ClusterStateView::new(100);
    cv.on_recieved_cache_entry_from_other(7, 1);
    cv.on_recieved_cache_entry_from_other(7, 2);
    cv.on_recieved_cache_entry_from_other(8, 1);
    let mut pushed = HashMap::new();
    pushed.insert(100u64, 50u64);
    pushed.insert(7u64, 2u64);
    pushed.insert(8u64, 4u64);
    pushed.insert(9u64, 1u64);
    let gap = cv.get_out_of_sync_node_id_and_baselines(&pushed);
    let mut expected = HashMap::new();
    expected.insert(8u64, 1u64);
    expected.insert(9u64, 0u64);
    assert_eq!(gap, expected);
}

#[test]
fn own_state_view_yields_empty_gap() {
    let mut cv = ClusterStateView::new(100);
    assert!(cv.as_map().is_empty());
    assert_eq!(cv.next_local_update_seq(), 1);
    assert_eq!(cv.next_local_update_seq(), 2);
    assert!(cv.on_recieved_cache_entry_from_other(7, 1));
    assert!(!cv.on_recieved_cache_entry_from_other(7, 3));
    let view = cv.as_map();
    let mut expected = HashMap::new();
    expected.insert(100u64, 2u64);
    expected.insert(7u64, 1u64);
    assert_eq!(view, expected);
    assert!(cv.get_out_of_sync_node_id_and_baselines(&view).is_empty());
}
