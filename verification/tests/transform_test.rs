use parse_lib::transform::{
    active_amounts, filter_active_by_region, sort_sales_by_amount_desc, uppercase_names,
};
use parse_lib::Sale;

fn sample_sales() -> Vec<Sale<f64>> {
    vec![
        Sale::new(1, "Mouse".to_string(), "EU".to_string(), 25.50, true),
        Sale::new(2, "Keyboard".to_string(), "US".to_string(), 79.99, true),
        Sale::new(3, "Monitor".to_string(), "EU".to_string(), 500.0, false),
        Sale::new(4, "Laptop".to_string(), "EU".to_string(), 1499.99, true),
    ]
}

/// Sorting takes amounts by their IEEE 754 encoding.
fn sort_f64(records: Vec<Sale<f64>>) -> Vec<Sale<f64>> {
    let mut bits: Vec<Sale<u64>> = records
        .into_iter()
        .map(|s| Sale::new(s.id, s.name, s.region, s.amount.to_bits(), s.active))
        .collect();
    sort_sales_by_amount_desc(&mut bits);
    bits.into_iter()
        .map(|s| Sale::new(s.id, s.name, s.region, f64::from_bits(s.amount), s.active))
        .collect()
}

#[test]
fn test_calculate_total_revenue_skips_inactive() {
    let sales = sample_sales();
    let total: f64 = active_amounts(&sales).into_iter().sum();

    // 25.50 + 79.99 + 1499.99 (Monitor is inactive)
    assert!((total - 1605.48).abs() < f64::EPSILON);
}

#[test]
fn test_calculate_total_revenue_empty() {
    let sales: Vec<Sale<f64>> = vec![];
    let total: f64 = active_amounts(&sales).into_iter().sum();
    assert_eq!(total, 0.0);
}

#[test]
fn active_amounts_keeps_order_of_active_records() {
    assert_eq!(active_amounts(&sample_sales()), vec![25.50, 79.99, 1499.99]);
}

#[test]
fn test_filter_active_by_region_success() {
    let result = filter_active_by_region(sample_sales(), "EU");

    assert_eq!(result.len(), 2);
    assert_eq!(result[0].name, "Mouse");
    assert_eq!(result[1].name, "Laptop");
}

#[test]
fn test_filter_active_by_region_empty_input() {
    let result = filter_active_by_region(Vec::<Sale<f64>>::new(), "EU");
    assert!(result.is_empty());
}

#[test]
fn test_filter_active_by_region_not_found() {
    let result = filter_active_by_region(sample_sales(), "West");
    assert!(result.is_empty());
}

#[test]
fn filter_compares_regions_exactly() {
    assert!(filter_active_by_region(sample_sales(), "eu").is_empty());
    assert!(filter_active_by_region(sample_sales(), "EU ").is_empty());
}

#[test]
fn test_uppercase_names() {
    let result = uppercase_names(sample_sales());

    assert_eq!(result.len(), 4);
    assert_eq!(result[0].name, "MOUSE");
    assert_eq!(result[3].name, "LAPTOP");
}

#[test]
fn uppercase_names_changes_nothing_else() {
    let result = uppercase_names(vec![Sale::new(7, "stra\u{df}e".to_string(), "eu".to_string(), 1.5, false)]);
    assert_eq!(result[0].name, "STRASSE");
    assert_eq!(result[0].id, 7);
    assert_eq!(result[0].region, "eu");
    assert_eq!(result[0].amount, 1.5);
    assert!(!result[0].active);
}

#[test]
fn test_sort_sales_by_amount_desc() {
    let records = sort_f64(sample_sales());

    assert_eq!(records[0].amount, 1499.99);
    assert_eq!(records[1].amount, 500.0);
    assert_eq!(records[2].amount, 79.99);
    assert_eq!(records[3].amount, 25.50);
}

#[test]
fn sort_keeps_equal_amounts_in_order() {
    let records = vec![
        Sale::new(1, "a".to_string(), "r".to_string(), 1.0, true),
        Sale::new(2, "b".to_string(), "r".to_string(), 2.0, true),
        Sale::new(3, "c".to_string(), "r".to_string(), 1.0, true),
        Sale::new(4, "d".to_string(), "r".to_string(), -0.0, true),
        Sale::new(5, "e".to_string(), "r".to_string(), 0.0, true),
        Sale::new(6, "f".to_string(), "r".to_string(), 2.0, true),
        Sale::new(7, "g".to_string(), "r".to_string(), -3.5, true),
        Sale::new(8, "h".to_string(), "r".to_string(), f64::INFINITY, true),
        Sale::new(9, "i".to_string(), "r".to_string(), f64::NEG_INFINITY, true),
    ];
    let mut expected: Vec<u32> = {
        let mut copy: Vec<(u32, f64)> = records.iter().map(|s| (s.id, s.amount)).collect();
        copy.sort_by(|a, b| b.1.partial_cmp(&a.1).unwrap_or(std::cmp::Ordering::Equal));
        copy.into_iter().map(|(id, _)| id).collect()
    };
    let sorted: Vec<u32> = sort_f64(records).into_iter().map(|s| s.id).collect();
    assert_eq!(sorted, vec![8, 2, 6, 1, 3, 4, 5, 7, 9]);
    assert_eq!(sorted, std::mem::take(&mut expected));
}

#[test]
fn sort_with_nan_keeps_every_record() {
    let records = vec![
        Sale::new(1, "a".to_string(), "r".to_string(), 1.0, true),
        Sale::new(2, "b".to_string(), "r".to_string(), f64::NAN, true),
        Sale::new(3, "c".to_string(), "r".to_string(), 3.0, true),
    ];
    let mut ids: Vec<u32> = sort_f64(records).into_iter().map(|s| s.id).collect();
    ids.sort();
    assert_eq!(ids, vec![1, 2, 3]);
}

#[test]
fn sorting_sorted_records_changes_nothing() {
    let once = sort_f64(sample_sales());
    let ids_once: Vec<u32> = once.iter().map(|s| s.id).collect();
    let twice = sort_f64(once);
    let ids_twice: Vec<u32> = twice.iter().map(|s| s.id).collect();
    assert_eq!(ids_once, ids_twice);
}

#[test]
fn filter_command_keeps_active_region_records_largest_first() {
    let kept = filter_active_by_region(sample_sales(), "EU");
    let sorted = sort_f64(kept);
    let names: Vec<&str> = sorted.iter().map(|s| s.name.as_str()).collect();
    assert_eq!(names, vec!["Laptop", "Mouse"]);
    assert!(sorted.iter().all(|s| s.active && s.region == "EU"));
}

#[test]
fn sort_orders_like_std_on_varied_amounts() {
    let amounts = [
        3.5, -1e-310, 1e-310, f64::MAX, f64::MIN, 0.0, -0.0, 1e-310, -7.25, 3.5, f64::MIN_POSITIVE,
        -f64::MIN_POSITIVE, 1.0, f64::INFINITY, -2.0, 100.0,
    ];
    let records: Vec<Sale<f64>> = amounts
        .iter()
        .enumerate()
        .map(|(i, a)| Sale::new(i as u32, "n".to_string(), "r".to_string(), *a, true))
        .collect();
    let mut expected: Vec<(u32, f64)> = records.iter().map(|s| (s.id, s.amount)).collect();
    expected.sort_by(|a, b| b.1.partial_cmp(&a.1).unwrap_or(std::cmp::Ordering::Equal));
    let expected_ids: Vec<u32> = expected.into_iter().map(|(id, _)| id).collect();
    let ids: Vec<u32> = sort_f64(records).into_iter().map(|s| s.id).collect();
    assert_eq!(ids, expected_ids);
}
