use distributed_filter::endpoint::get_endpoint_name;
use distributed_filter::persistence::{select_latest, ObjectEntry};

fn entry(key: &str, last_modified: i64) -> ObjectEntry {
    ObjectEntry { key: key.to_string(), last_modified }
}

#[test]
fn latest_snapshot_wins_regardless_of_listing_order() {
    let orders: [[(&str, i64); 3]; 3] = [
        [("a.bin", 100), ("b.bin", 300), ("c.bin", 200)],
        [("b.bin", 300), ("c.bin", 200), ("a.bin", 100)],
        [("c.bin", 200), ("a.bin", 100), ("b.bin", 300)],
    ];
    for listing in orders.iter() {
        let objects: Vec<ObjectEntry> =
            listing.iter().map(|(k, lm)| entry(k, *lm)).collect();
        let i = select_latest(&objects).unwrap();
        assert_eq!(objects[i].key, "b.bin");
        assert_eq!(objects[i].last_modified, 300);
    }
}

#[test]
fn empty_listing_yields_no_snapshot() {
    let objects: Vec<ObjectEntry> = Vec::new();
    assert!(select_latest(&objects).is_none());
}

#[test]
fn single_entry_is_selected() {
    let objects = vec![entry("only.bin", 42)];
    assert_eq!(select_latest(&objects), Some(0));
}

#[test]
fn ties_go_to_the_earliest_listed() {
    let objects = vec![entry("x.bin", 7), entry("y.bin", 7), entry("z.bin", 3)];
    assert_eq!(select_latest(&objects), Some(0));
}

#[test]
fn endpoint_names_match_routes() {
    assert_eq!(get_endpoint_name("/api/urls"), "create_url");
    assert_eq!(get_endpoint_name("/api/urls/extra"), "create_url");
    assert_eq!(get_endpoint_name("/metrics"), "metrics");
    assert_eq!(get_endpoint_name("/abc12345"), "redirect");
    assert_eq!(get_endpoint_name(""), "redirect");
    assert_eq!(get_endpoint_name("/metricsx"), "redirect");
    assert_eq!(get_endpoint_name("/api/url"), "redirect");
}
