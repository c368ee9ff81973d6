use distributed_filter::date::Date;
use distributed_filter::distributed_filter::{
    provision_distributed_filter, DistributedFilter, PROVISION_MONTHS,
};
use distributed_filter::errors::FilterError;
use distributed_filter::naming::generate_partition_name;

fn d(year: u32, month: u32, day: u32) -> Date {
    Date::new(year, month, day).unwrap()
}

#[test]
fn provisioning_creates_the_expected_partitions() {
    let df = provision_distributed_filter(d(2024, 1, 15)).unwrap();
    assert_eq!(df.filters.len(), PROVISION_MONTHS as usize);
    assert_eq!(df.filters[0].0, "y2024m01");
    assert_eq!(df.filters[11].0, "y2024m12");
    assert_eq!(df.filters[12].0, "y2025m01");
    assert_eq!(df.filters[35].0, "y2026m12");
    assert_eq!(df.filters[0].1.start_date, d(2024, 1, 1));
    assert_eq!(df.filters[0].1.end_date, d(2024, 2, 1));
    assert_eq!(df.filters[35].1.start_date, d(2026, 12, 1));
    assert_eq!(df.filters[35].1.end_date, d(2027, 1, 1));
    let future = df.future_partition.as_ref().unwrap();
    assert_eq!(future.start_date, d(2027, 1, 1));
    assert_eq!(future.end_date, d(9999, 12, 31));
}

#[test]
fn provisioning_is_idempotent() {
    let df1 = provision_distributed_filter(d(2024, 1, 15)).unwrap();
    let df2 = provision_distributed_filter(d(2024, 1, 31)).unwrap();
    assert_eq!(df1.filters.len(), df2.filters.len());
    for i in 0..df1.filters.len() {
        assert_eq!(df1.filters[i].0, df2.filters[i].0);
        assert_eq!(df1.filters[i].1.start_date, df2.filters[i].1.start_date);
        assert_eq!(df1.filters[i].1.end_date, df2.filters[i].1.end_date);
    }
    let names: Vec<String> = df1.filters.iter().map(|e| e.0.clone()).collect();
    for m in 0..12u32 {
        assert!(names.contains(&generate_partition_name(d(2024, m + 1, 1))));
        assert!(names.contains(&generate_partition_name(d(2025, m + 1, 1))));
        assert!(names.contains(&generate_partition_name(d(2026, m + 1, 1))));
    }
}

#[test]
fn inserted_key_is_always_reported() {
    let mut df = provision_distributed_filter(d(2024, 1, 15)).unwrap();
    df.insert("abc12345", d(2024, 6, 10)).unwrap();
    assert!(df.contains("abc12345", d(2024, 1, 15)));
    assert!(df.contains("abc12345", d(2024, 6, 10)));
    assert!(df.contains("abc12345", d(2026, 12, 31)));
    assert!(df.contains("abc12345", d(2020, 1, 1)));
}

#[test]
fn absent_key_is_not_reported() {
    let mut df = provision_distributed_filter(d(2024, 1, 15)).unwrap();
    df.insert("present1", d(2024, 6, 10)).unwrap();
    assert!(!df.contains("absent99", d(2024, 6, 10)));
}

#[test]
fn overflow_key_visible_only_past_overflow_start() {
    let mut df = provision_distributed_filter(d(2024, 1, 15)).unwrap();
    // expiry past every dated partition and past the overflow start
    df.insert("longlive", d(2028, 5, 5)).unwrap();
    assert!(!df.contains("longlive", d(2024, 6, 1)));
    assert!(!df.contains("longlive", d(2027, 1, 1)));
    assert!(df.contains("longlive", d(2027, 1, 2)));
    assert!(df.contains("longlive", d(2028, 5, 5)));
}

#[test]
fn unroutable_key_is_rejected_not_dropped() {
    let mut df = provision_distributed_filter(d(2024, 1, 15)).unwrap();
    // expiry before every provisioned window and not past the overflow start
    let r = df.insert("ancient1", d(2020, 1, 1));
    assert_eq!(r, Err(FilterError::NoMatchingPartition));
    assert!(!df.contains("ancient1", d(2024, 1, 15)));
}

#[test]
fn key_between_partitions_and_overflow_is_rejected() {
    // a sparse structure: one dated month plus a far-out overflow leaves a gap
    let mut df = DistributedFilter::new().unwrap();
    df.create_partition_filter("y2024m01".to_string(), d(2024, 1, 1), d(2024, 2, 1)).unwrap();
    let mut full = provision_distributed_filter(d(2025, 1, 1)).unwrap();
    df.future_partition = full.future_partition.take();
    // expiry in a month with no partition, and not past the overflow start
    let r = df.insert("gapkey01", d(2024, 6, 15));
    assert_eq!(r, Err(FilterError::NoMatchingPartition));
    assert!(!df.contains("gapkey01", d(2024, 6, 15)));
}

#[test]
fn insert_routes_by_calendar_month() {
    let mut df = DistributedFilter::new().unwrap();
    df.create_partition_filter("y2024m06".to_string(), d(2024, 6, 1), d(2024, 7, 1)).unwrap();
    df.insert("junekey1", d(2024, 6, 30)).unwrap();
    assert!(df.contains("junekey1", d(2024, 1, 1)));
}

#[test]
fn create_partition_filter_replaces_same_name() {
    let mut df = DistributedFilter::new().unwrap();
    df.create_partition_filter("y2024m06".to_string(), d(2024, 6, 1), d(2024, 7, 1)).unwrap();
    df.insert("junekey1", d(2024, 6, 30)).unwrap();
    // re-creating the partition under the same name discards its contents
    df.create_partition_filter("y2024m06".to_string(), d(2024, 6, 1), d(2024, 7, 1)).unwrap();
    assert_eq!(df.filters.len(), 1);
    assert!(!df.contains("junekey1", d(2024, 6, 30)));
}

#[test]
fn cleanup_drops_elapsed_partitions() {
    let mut df = DistributedFilter::new().unwrap();
    df.create_partition_filter("y2024m01".to_string(), d(2024, 1, 1), d(2024, 2, 1)).unwrap();
    df.create_partition_filter("y2024m06".to_string(), d(2024, 6, 1), d(2024, 7, 1)).unwrap();
    df.insert("junekey1", d(2024, 6, 15)).unwrap();
    df.cleanup_expired_partitions(d(2024, 3, 1)).unwrap();
    assert_eq!(df.filters.len(), 1);
    assert_eq!(df.filters[0].0, "y2024m06");
    assert!(df.contains("junekey1", d(2024, 3, 1)));
}

#[test]
fn cleanup_promotes_overflow_within_horizon() {
    let mut df = DistributedFilter::new().unwrap();
    let mut donor = provision_distributed_filter(d(2021, 6, 1)).unwrap();
    // overflow start 2024-06-01, within 36 months of now = 2024-03-01
    df.future_partition = donor.future_partition.take();
    df.insert("overflo1", d(2024, 8, 15)).unwrap();
    df.cleanup_expired_partitions(d(2024, 3, 1)).unwrap();
    assert!(df.future_partition.is_none());
    assert_eq!(df.filters.len(), 1);
    assert_eq!(df.filters[0].0, "y2024m06");
    assert_eq!(df.filters[0].1.start_date, d(2024, 6, 1));
    assert_eq!(df.filters[0].1.end_date, d(2024, 7, 1));
    // the promoted partition keeps its recorded keys, now always visible
    assert!(df.contains("overflo1", d(2024, 3, 1)));
}

#[test]
fn cleanup_keeps_distant_overflow() {
    let mut df = DistributedFilter::new().unwrap();
    let mut donor = provision_distributed_filter(d(2024, 1, 1)).unwrap();
    // overflow start 2027-01-01, beyond 36 months of now = 2023-01-01
    df.future_partition = donor.future_partition.take();
    df.cleanup_expired_partitions(d(2023, 1, 1)).unwrap();
    assert!(df.future_partition.is_some());
    assert_eq!(df.filters.len(), 0);
}

#[test]
fn contains_never_loses_keys_as_more_are_added() {
    let mut df = provision_distributed_filter(d(2024, 1, 15)).unwrap();
    let keys = ["k0000001", "k0000002", "k0000003", "k0000004", "k0000005"];
    for (i, k) in keys.iter().enumerate() {
        df.insert(k, d(2024, 1 + i as u32, 10)).unwrap();
        for prev in keys.iter().take(i + 1) {
            assert!(df.contains(prev, d(2024, 7, 1)));
        }
    }
}

#[test]
fn false_positive_rate_stays_small() {
    let mut df = provision_distributed_filter(d(2024, 1, 15)).unwrap();
    for i in 0..1000u32 {
        df.insert(&format!("member{:04}", i), d(2024, 6, 10)).unwrap();
    }
    let mut hits = 0u32;
    for i in 0..10000u32 {
        if df.contains(&format!("absent{:05}", i), d(2024, 6, 10)) {
            hits += 1;
        }
    }
    // the aggregate bound is looser than a single partition's, since every
    // query unions all live partitions; at this load it stays tiny
    assert!(hits <= 300, "false positive rate too high: {} / 10000", hits);
}

#[test]
fn error_labels_describe_variants() {
    assert_eq!(
        FilterError::NoMatchingPartition.describe(),
        "no partition covers the expiry date"
    );
    assert_eq!(FilterError::CapacityExceeded.describe(), "filter capacity exceeded");
}
