use distributed_filter::date::{first_of_month_plus, first_of_month_minus, max_date, Date};
use distributed_filter::naming::generate_partition_name;

#[test]
fn date_validation_accepts_real_dates() {
    assert!(Date::new(2024, 1, 15).is_some());
    assert!(Date::new(2024, 2, 29).is_some());
    assert!(Date::new(2400, 2, 29).is_some());
    assert!(Date::new(9999, 12, 31).is_some());
    assert!(Date::new(1, 1, 1).is_some());
}

#[test]
fn date_validation_rejects_impossible_dates() {
    assert!(Date::new(2023, 2, 29).is_none());
    assert!(Date::new(1900, 2, 29).is_none());
    assert!(Date::new(2024, 4, 31).is_none());
    assert!(Date::new(2024, 0, 1).is_none());
    assert!(Date::new(2024, 13, 1).is_none());
    assert!(Date::new(2024, 6, 0).is_none());
    assert!(Date::new(0, 1, 1).is_none());
    assert!(Date::new(10000, 1, 1).is_none());
}

#[test]
fn date_ordering_is_lexicographic() {
    let a = Date::new(2024, 1, 15).unwrap();
    let b = Date::new(2024, 2, 1).unwrap();
    let c = Date::new(2025, 1, 1).unwrap();
    assert!(a.lt(&b));
    assert!(b.lt(&c));
    assert!(!c.lt(&a));
    assert!(a.le(&a));
    assert!(!b.le(&a));
}

#[test]
fn month_arithmetic_lands_on_first_days() {
    let d = Date::new(2024, 1, 15).unwrap();
    assert_eq!(first_of_month_plus(d, 0), Date::new(2024, 1, 1).unwrap());
    assert_eq!(first_of_month_plus(d, 1), Date::new(2024, 2, 1).unwrap());
    assert_eq!(first_of_month_plus(d, 12), Date::new(2025, 1, 1).unwrap());
    assert_eq!(first_of_month_plus(d, 36), Date::new(2027, 1, 1).unwrap());
    let n = Date::new(2024, 12, 31).unwrap();
    assert_eq!(first_of_month_plus(n, 1), Date::new(2025, 1, 1).unwrap());
    assert_eq!(first_of_month_minus(d, 1), Date::new(2023, 12, 1).unwrap());
    assert_eq!(first_of_month_minus(n, 12), Date::new(2023, 12, 1).unwrap());
}

#[test]
fn max_date_is_the_largest_representable() {
    let m = max_date();
    assert_eq!(m, Date::new(9999, 12, 31).unwrap());
}

#[test]
fn partition_names_are_zero_padded() {
    assert_eq!(generate_partition_name(Date::new(2024, 1, 15).unwrap()), "y2024m01");
    assert_eq!(generate_partition_name(Date::new(2024, 12, 1).unwrap()), "y2024m12");
    assert_eq!(generate_partition_name(Date::new(987, 5, 2).unwrap()), "y0987m05");
    assert_eq!(generate_partition_name(Date::new(9999, 10, 31).unwrap()), "y9999m10");
}

#[test]
fn partition_name_same_month_same_name() {
    let a = generate_partition_name(Date::new(2024, 3, 1).unwrap());
    let b = generate_partition_name(Date::new(2024, 3, 31).unwrap());
    assert_eq!(a, b);
}

#[test]
fn partition_name_differs_across_months_and_years() {
    let base = generate_partition_name(Date::new(2024, 3, 15).unwrap());
    assert_ne!(base, generate_partition_name(Date::new(2024, 4, 15).unwrap()));
    assert_ne!(base, generate_partition_name(Date::new(2025, 3, 15).unwrap()));
}
