use clacheless::distributed_cache::DistributedCache;
use clacheless::ApiErrorMapper;
use clacheless::ClachelessErrorKind;
use std::collections::HashMap;

const T0: u64 = 1_700_000_000_000_000;

#[test]
fn run_local_instance() {
    let mut dc = DistributedCache::new("clacheless-ORDINAL.local:9000", 0, 30_000_000, T0);
    let cache_key = "cache_key";
    let cache_value = "cache_value";
    dc.put_string(cache_key, cache_value, T0)
        .expect("Failed to update local-only cache.");
    let read_result = dc
        .get_string(&cache_key, T0)
        .expect("Locally cached item should always be available.");
    assert_eq!(read_result, cache_value);
}

#[test]
fn single_replica_put_get_and_expiry() {
    let mut dc = DistributedCache::new("clacheless-ORDINAL.local:9000", 0, 30_000_000, T0);
    let update = dc.put_string("k", "v", T0).unwrap();
    assert_eq!(update.key, "k");
    assert_eq!(update.ce.origin_node_update_seq, 1);
    assert_eq!(update.ce.this_update_micros, T0);
    assert_eq!(update.ce.expires_micros, T0 + 30_000_000);
    assert_eq!(dc.get_string("k", T0).unwrap(), "v");
    let err = dc.get_string("k", T0 + 31_000_000).unwrap_err();
    assert_eq!(*err.kind(), ClachelessErrorKind::NotFound);
    assert_eq!(ApiErrorMapper::status_code(&err), 404);
}

#[test]
fn node_id_combines_start_seconds_and_ordinal() {
    let dc = DistributedCache::new("x-ORDINAL:1", 7, 1, 5_000_000);
    assert_eq!(dc.local_node_id(), (5u64 << 32) | 7);
    let dc = DistributedCache::new("x-ORDINAL:1", 1, 1, (0x1_0000_0003u64) * 1_000_000);
    assert_eq!(dc.local_node_id(), (3u64 << 32) | 1);
}

#[test]
fn addresses_and_port_from_template() {
    let dc = DistributedCache::new("clacheless-ORDINAL.local:9000", 0, 1, T0);
    assert_eq!(dc.get_address_for_node_ordinal(12), "clacheless-12.local:9000");
    assert_eq!(dc.get_address_template_port(), 9000);
    let dc = DistributedCache::new("a-ORDINAL-ORDINAL:8123", 0, 1, T0);
    assert_eq!(dc.get_address_for_node_ordinal(0), "a-0-ORDINAL:8123");
    assert_eq!(dc.get_address_template_port(), 8123);
    let dc = DistributedCache::new("no-placeholder", 0, 1, T0);
    assert_eq!(dc.get_address_for_node_ordinal(4), "no-placeholder");
    assert_eq!(dc.get_address_template_port(), 9000);
    let dc = DistributedCache::new("host:99999", 0, 1, T0);
    assert_eq!(dc.get_address_template_port(), 9000);
    let dc = DistributedCache::new("host:abc", 0, 1, T0);
    assert_eq!(dc.get_address_template_port(), 9000);
}

#[test]
fn malformed_text_is_reported() {
    let mut dc = DistributedCache::new("x-ORDINAL:1", 0, 1_000_000, T0);
    dc.put_bytes("bin", &[0xff, 0xfe], T0).unwrap();
    let bytes = dc.get_bytes("bin", T0).unwrap();
    assert_eq!(*bytes, vec![0xff, 0xfe]);
    let err = dc.get_string("bin", T0).unwrap_err();
    assert_eq!(*err.kind(), ClachelessErrorKind::Malformed);
    assert_eq!(ApiErrorMapper::status_code(&err), 400);
}

#[test]
fn membership_highest_ordinal_and_peers() {
    let mut dc = DistributedCache::new("x-ORDINAL:1", 1, 1, T0);
    assert_eq!(dc.get_highest_known_node_ordinal(T0), 1);
    assert_eq!(dc.peer_ordinals(T0), vec![0]);
    let out = dc.on_state_view(3, &HashMap::new(), T0);
    assert!(!out.was_known);
    assert!(out.gap.is_empty());
    let out = dc.on_state_view(3, &HashMap::new(), T0 + 1_000_000);
    assert!(out.was_known);
    assert_eq!(dc.get_highest_known_node_ordinal(T0 + 1_000_000), 3);
    assert_eq!(dc.peer_ordinals(T0 + 1_000_000), vec![0, 2, 3]);
    // Still alive at exactly the maximum age, gone one microsecond later.
    assert_eq!(dc.get_highest_known_node_ordinal(T0 + 3_500_000), 3);
    assert_eq!(dc.get_highest_known_node_ordinal(T0 + 3_500_001), 1);
    assert_eq!(dc.remove_expired_other_nodes(T0 + 3_500_000), Vec::<u32>::new());
    assert_eq!(dc.remove_expired_other_nodes(T0 + 3_500_001), vec![3]);
    let out = dc.on_state_view(3, &HashMap::new(), T0 + 4_000_000);
    assert!(!out.was_known);
}

#[test]
fn state_view_push_requests_missing_origins() {
    // Replica 0 accepts three writes; replica 1 learns of them by gossip.
    let mut r0 = DistributedCache::new("x-ORDINAL:1", 0, 60_000_000, T0);
    let mut r1 = DistributedCache::new("x-ORDINAL:1", 1, 60_000_000, T0);
    let u1 = r0.put_string("a", "1", T0 + 1).unwrap();
    let u2 = r0.put_string("b", "2", T0 + 2).unwrap();
    let u3 = r0.put_string("c", "3", T0 + 3).unwrap();
    let mut pushed = HashMap::new();
    pushed.insert(r0.local_node_id(), 3u64);
    pushed.insert(r1.local_node_id(), 9u64);
    let out = r1.on_state_view(0, &pushed, T0 + 10);
    let mut expected = HashMap::new();
    expected.insert(r0.local_node_id(), 0u64);
    assert_eq!(out.gap, expected);
    // Replica 0 answers with every entry newer than the baseline, in order.
    let batch = r0.transfer_state(&out.gap, T0 + 20);
    let keys: Vec<&str> = batch.iter().map(|e| e.key.as_str()).collect();
    assert_eq!(keys, vec!["a", "b", "c"]);
    // Delivered out of order, the gap still closes.
    for u in [&u1, &u3, &u2] {
        r1.put_raw_from_remote_origin(
            u.key.clone(),
            u.ce.object_bytes.to_vec(),
            u.ce.this_update_micros,
            u.ce.expires_micros,
            u.ce.origin_node_id,
            u.ce.origin_node_update_seq,
        )
        .unwrap();
    }
    assert_eq!(r1.get_string("b", T0 + 30).unwrap(), "2");
    let out = r1.on_state_view(0, &pushed, T0 + 40);
    assert!(out.gap.is_empty());
}

#[test]
fn last_writer_wins_across_replicas() {
    let mut r0 = DistributedCache::new("x-ORDINAL:1", 0, 60_000_000, 0);
    let mut r1 = DistributedCache::new("x-ORDINAL:1", 1, 60_000_000, 0);
    let a = r0.put_string("k", "a", 100).unwrap();
    let b = r1.put_string("k", "b", 200).unwrap();
    r0.put_raw_from_remote_origin(
        b.key.clone(),
        b.ce.object_bytes.to_vec(),
        b.ce.this_update_micros,
        b.ce.expires_micros,
        b.ce.origin_node_id,
        b.ce.origin_node_update_seq,
    )
    .unwrap();
    r1.put_raw_from_remote_origin(
        a.key.clone(),
        a.ce.object_bytes.to_vec(),
        a.ce.this_update_micros,
        a.ce.expires_micros,
        a.ce.origin_node_id,
        a.ce.origin_node_update_seq,
    )
    .unwrap();
    assert_eq!(r0.get_string("k", 300).unwrap(), "b");
    assert_eq!(r1.get_string("k", 300).unwrap(), "b");
}

#[test]
fn error_text_and_status() {
    let e = ClachelessErrorKind::NotFound.error_with_msg("No entry for k.");
    assert_eq!(e.to_string(), "NotFound No entry for k.");
    let e = ClachelessErrorKind::Connection.error();
    assert_eq!(e.to_string(), "Connection");
    assert_eq!(ApiErrorMapper::status_code(&e), 500);
    assert_eq!(
        ApiErrorMapper::status_code(&ClachelessErrorKind::Unspecified.error()),
        500
    );
}

#[test]
fn redelivered_entry_is_a_no_op() {
    let mut r0 = DistributedCache::new("x-ORDINAL:1", 0, 60_000_000, T0);
    let mut r1 = DistributedCache::new("x-ORDINAL:1", 1, 60_000_000, T0);
    let u = r0.put_string("k", "v", T0 + 1).unwrap();
    for _ in 0..2 {
        r1.put_raw_from_remote_origin(
            u.key.clone(),
            u.ce.object_bytes.to_vec(),
            u.ce.this_update_micros,
            u.ce.expires_micros,
            u.ce.origin_node_id,
            u.ce.origin_node_update_seq,
        )
        .unwrap();
    }
    assert_eq!(r1.get_string("k", T0 + 2).unwrap(), "v");
    let mut expected = HashMap::new();
    expected.insert(r0.local_node_id(), 1u64);
    assert_eq!(r1.cluster_view_as_map(), expected);
    assert_eq!(r0.cache_item_ttl_micros(), 60_000_000);
    // Purging before expiry keeps the entry; after expiry removes it.
    assert_eq!(r1.purge_expired(T0 + 2), 0);
    assert_eq!(r1.purge_expired(T0 + 1 + 60_000_000 + 1), 1);
    assert!(r1.get_bytes("k", T0 + 2).is_err());
}
