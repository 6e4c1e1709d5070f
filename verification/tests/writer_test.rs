use parse_lib::parser::parse_line;
use parse_lib::writer::{render_record, render_records};
use parse_lib::Sale;

/// Amounts are written as `f64` displays them.
fn with_text_amounts(records: &[Sale<f64>]) -> Vec<Sale<String>> {
    records
        .iter()
        .map(|s| Sale::new(s.id, s.name.clone(), s.region.clone(), s.amount.to_string(), s.active))
        .collect()
}

#[test]
fn test_write_records_success() {
    let records = vec![
        Sale::new(1, "Mouse".to_string(), "EU".to_string(), 25.50, true),
        Sale::new(2, "Keyboard".to_string(), "EU".to_string(), 79.99, true),
    ];

    let output_text = render_records(&with_text_amounts(&records));

    let expected_output =
        "id,name,region,amount,active\n1,Mouse,EU,25.5,true\n2,Keyboard,EU,79.99,true\n";
    assert_eq!(output_text, expected_output);
}

#[test]
fn test_write_records_empty_writes_header_only() {
    let records: Vec<Sale<String>> = vec![];

    let output_text = render_records(&records);
    assert_eq!(output_text, "id,name,region,amount,active\n");
}

#[test]
fn render_record_writes_ids_in_decimal() {
    let r = Sale::new(4294967295, "n".to_string(), "r".to_string(), "0".to_string(), false);
    assert_eq!(render_record(&r), "4294967295,n,r,0,false");
    let r = Sale::new(0, "".to_string(), "".to_string(), "-inf".to_string(), true);
    assert_eq!(render_record(&r), "0,,,-inf,true");
}

#[test]
fn written_records_read_back() {
    let records = vec![
        Sale::new(10, "Alice".to_string(), "EU".to_string(), "1200.5".to_string(), true),
        Sale::new(0, "".to_string(), "US".to_string(), "-0".to_string(), false),
        Sale::new(99, "A B".to_string(), "x".to_string(), "1e300".to_string(), true),
    ];
    for r in &records {
        let back = parse_line(&render_record(r)).unwrap();
        assert_eq!(back.id, r.id);
        assert_eq!(back.name, r.name);
        assert_eq!(back.region, r.region);
        assert_eq!(back.amount, r.amount);
        assert_eq!(back.active, r.active);
    }
}

#[test]
fn written_text_reads_back_line_by_line() {
    let records = vec![
        Sale::new(1, "Alice".to_string(), "EU".to_string(), "1200.5".to_string(), true),
        Sale::new(2, "Bob".to_string(), "US".to_string(), "850".to_string(), false),
        Sale::new(3, "C a\rrol".to_string(), "APAC".to_string(), "-inf".to_string(), true),
    ];
    let text = render_records(&records);
    let mut lines = text.lines();
    assert!(parse_lib::parser::check_header(lines.next()).is_ok());
    let back: Vec<Sale<String>> = lines.map(|l| parse_line(l).unwrap()).collect();
    assert_eq!(back.len(), records.len());
    for (b, r) in back.iter().zip(records.iter()) {
        assert_eq!(b.id, r.id);
        assert_eq!(b.name, r.name);
        assert_eq!(b.region, r.region);
        assert_eq!(b.amount, r.amount);
        assert_eq!(b.active, r.active);
    }
}
