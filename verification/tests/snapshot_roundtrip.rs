use distributed_filter::date::Date;
use distributed_filter::distributed_filter::{provision_distributed_filter, DistributedFilter};
use distributed_filter::errors::SnapshotError;
use distributed_filter::persistence::{
    load_snapshot_bytes, save_snapshot_bytes, snapshot_object_key,
};
use distributed_filter::snapshot::{
    decode_snapshot, encode_snapshot, DistributedFilterSnapshot, PartitionFilterData,
    SnapshotMetadata, Timestamp,
};

fn d(year: u32, month: u32, day: u32) -> Date {
    Date::new(year, month, day).unwrap()
}

fn ts() -> Timestamp {
    Timestamp { year: 2024, month: 1, day: 15, hour: 10, minute: 9, second: 8 }
}

fn small_structure() -> DistributedFilter {
    let mut df = DistributedFilter::new().unwrap();
    df.create_partition_filter("y2024m01".to_string(), d(2024, 1, 1), d(2024, 2, 1)).unwrap();
    df.create_partition_filter("y2024m02".to_string(), d(2024, 2, 1), d(2024, 3, 1)).unwrap();
    let mut donor = provision_distributed_filter(d(2024, 1, 1)).unwrap();
    df.future_partition = donor.future_partition.take();
    df
}

#[test]
fn snapshot_round_trip_preserves_membership() {
    let mut df = small_structure();
    df.insert("jan_key1", d(2024, 1, 20)).unwrap();
    df.insert("feb_key1", d(2024, 2, 20)).unwrap();
    df.insert("far_key1", d(2030, 6, 1)).unwrap();
    let bytes = save_snapshot_bytes(&df, ts());
    let df2 = load_snapshot_bytes(&bytes).unwrap();
    let queries = [
        ("jan_key1", true),
        ("feb_key1", true),
        ("nope_key", false),
        ("gone_key", false),
    ];
    for now in [d(2024, 1, 1), d(2024, 6, 1), d(2028, 1, 1)] {
        for (key, expected) in queries.iter() {
            assert_eq!(df.contains(key, now), *expected);
            assert_eq!(df2.contains(key, now), df.contains(key, now));
        }
        assert_eq!(df2.contains("far_key1", now), df.contains("far_key1", now));
    }
    // the overflow key is only visible past the overflow start, on both sides
    assert!(!df2.contains("far_key1", d(2024, 6, 1)));
    assert!(df2.contains("far_key1", d(2028, 1, 1)));
}

#[test]
fn snapshot_round_trip_preserves_structure() {
    let df = small_structure();
    let bytes = save_snapshot_bytes(&df, ts());
    let df2 = load_snapshot_bytes(&bytes).unwrap();
    assert_eq!(df2.filters.len(), 2);
    assert_eq!(df2.filters[0].0, "y2024m01");
    assert_eq!(df2.filters[1].0, "y2024m02");
    assert_eq!(df2.filters[0].1.start_date, d(2024, 1, 1));
    assert_eq!(df2.filters[0].1.end_date, d(2024, 2, 1));
    let future = df2.future_partition.as_ref().unwrap();
    assert_eq!(future.start_date, d(2027, 1, 1));
    assert_eq!(future.end_date, d(9999, 12, 31));
}

#[test]
fn decoding_tolerates_trailing_bytes() {
    let mut df = small_structure();
    df.insert("jan_key1", d(2024, 1, 20)).unwrap();
    let mut bytes = save_snapshot_bytes(&df, ts());
    bytes.extend_from_slice(&[0xde, 0xad, 0xbe, 0xef]);
    let df2 = load_snapshot_bytes(&bytes).unwrap();
    assert!(df2.contains("jan_key1", d(2024, 1, 1)));
}

#[test]
fn truncated_payload_is_rejected() {
    let df = small_structure();
    let bytes = save_snapshot_bytes(&df, ts());
    let truncated: Vec<u8> = bytes[..bytes.len() / 2].to_vec();
    assert!(load_snapshot_bytes(&truncated).is_err());
    assert!(load_snapshot_bytes(&Vec::new()).is_err());
}

#[test]
fn corrupt_filter_blob_is_rejected() {
    let snap = DistributedFilterSnapshot {
        partition_filters: vec![(
            "y2024m01".to_string(),
            PartitionFilterData {
                filter_data: vec![1, 2, 3],
                start_date: d(2024, 1, 1),
                end_date: d(2024, 2, 1),
            },
        )],
        future_partition: None,
        metadata: SnapshotMetadata {
            timestamp: ts(),
            total_items_count: 0,
            partition_count: 1,
        },
    };
    let bytes = encode_snapshot(&snap);
    // the envelope itself is fine, the embedded filter is not
    assert!(decode_snapshot(&bytes).is_ok());
    assert_eq!(load_snapshot_bytes(&bytes).unwrap_err(), SnapshotError::FilterDecode);
}

#[test]
fn duplicate_partition_names_are_rejected() {
    let df = small_structure();
    let bytes = save_snapshot_bytes(&df, ts());
    let mut snap = decode_snapshot(&bytes).unwrap();
    let dup = (
        "y2024m01".to_string(),
        PartitionFilterData {
            filter_data: snap.partition_filters[0].1.filter_data.clone(),
            start_date: d(2024, 3, 1),
            end_date: d(2024, 4, 1),
        },
    );
    snap.partition_filters.push(dup);
    let bytes2 = encode_snapshot(&snap);
    assert_eq!(load_snapshot_bytes(&bytes2).unwrap_err(), SnapshotError::Malformed);
}

#[test]
fn envelope_metadata_survives_encoding() {
    let mut df = small_structure();
    df.insert("jan_key1", d(2024, 1, 20)).unwrap();
    df.insert("feb_key1", d(2024, 2, 20)).unwrap();
    let bytes = save_snapshot_bytes(&df, ts());
    let snap = decode_snapshot(&bytes).unwrap();
    assert_eq!(snap.metadata.timestamp, ts());
    assert_eq!(snap.metadata.partition_count, 2);
    assert_eq!(snap.metadata.total_items_count, 2);
    assert_eq!(snap.partition_filters.len(), 2);
    assert!(snap.future_partition.is_some());
}

#[test]
fn object_keys_embed_the_timestamp_and_sequence() {
    let key = snapshot_object_key("distributed-filter-backups", ts(), 0);
    assert_eq!(
        key,
        "distributed-filter-backups/distributed_filter_20240115_100908_000000.bin"
    );
    let key2 = snapshot_object_key(
        "p",
        Timestamp { year: 987, month: 12, day: 3, hour: 0, minute: 5, second: 59 },
        42,
    );
    assert_eq!(key2, "p/distributed_filter_09871203_000559_000042.bin");
}

#[test]
fn same_second_saves_get_distinct_keys() {
    let a = snapshot_object_key("backups", ts(), 7);
    let b = snapshot_object_key("backups", ts(), 8);
    assert_ne!(a, b);
    let c = snapshot_object_key(
        "backups",
        Timestamp { year: 2024, month: 1, day: 15, hour: 10, minute: 9, second: 9 },
        7,
    );
    assert_ne!(a, c);
}
