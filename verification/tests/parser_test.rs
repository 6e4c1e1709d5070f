use parse_lib::error::{FloatErrorKind, IntErrorKind};
use parse_lib::parser::{check_header, parse_line, EXPECTED_HEADER};
use parse_lib::AppError;

#[test]
fn test_parse_line_success() {
    let raw_line = "42, Mouse, EU, 25.50, true";
    let result = parse_line(raw_line);

    assert!(result.is_ok());

    let sale = result.unwrap();

    assert_eq!(sale.id, 42);
    assert_eq!(sale.name, "Mouse");
    assert_eq!(sale.region, "EU");
    assert_eq!(sale.amount.parse::<f64>().unwrap(), 25.50);
    assert!(sale.active);
}

#[test]
fn test_parse_line_missing_fields() {
    let raw_line = "42, Mouse, EU, true";
    let result = parse_line(raw_line);

    assert!(result.is_err());
    assert!(matches!(result.unwrap_err(), AppError::MissingField(_)));
}

#[test]
fn test_parse_line_unexpected_extra_field() {
    let raw_line = "42, Mouse, EU, 25.50, true, extra";
    let result = parse_line(raw_line);

    assert!(result.is_err());
    assert!(matches!(result.unwrap_err(), AppError::UnexpectedField(_)));
}

#[test]
fn test_parse_line_invalid_number() {
    let raw_line = "42, Mouse, EU, FREE, true";
    let result = parse_line(raw_line);

    assert!(result.is_err());
    assert!(matches!(result.unwrap_err(), AppError::InvalidAmount(_)));
}

#[test]
fn test_parse_line_invalid_bool() {
    let raw_line = "42, Mouse, EU, 50.50, active";
    let result = parse_line(raw_line);

    assert!(result.is_err());
    assert!(matches!(result.unwrap_err(), AppError::InvalidActive(_)));
}

#[test]
fn test_parse_line_invalid_id() {
    let raw_line = "AC, Mouse, EU, 50.50, active";
    let result = parse_line(raw_line);

    assert!(result.is_err());
    assert!(matches!(result.unwrap_err(), AppError::InvalidId(_)));
}

#[test]
fn parse_line_names_the_first_missing_field() {
    match parse_line("42, Mouse, EU, true") {
        Err(AppError::MissingField(f)) => assert_eq!(f, "active"),
        other => panic!("unexpected {:?}", other),
    }
    match parse_line("") {
        Err(AppError::MissingField(f)) => assert_eq!(f, "name"),
        other => panic!("unexpected {:?}", other),
    }
    match parse_line("1,a") {
        Err(AppError::MissingField(f)) => assert_eq!(f, "region"),
        other => panic!("unexpected {:?}", other),
    }
    match parse_line("1,a,b") {
        Err(AppError::MissingField(f)) => assert_eq!(f, "amount"),
        other => panic!("unexpected {:?}", other),
    }
}

#[test]
fn parse_line_extra_field_keeps_the_whole_line() {
    match parse_line("1,a,b,2,true,") {
        Err(AppError::UnexpectedField(l)) => assert_eq!(l, "1,a,b,2,true,"),
        other => panic!("unexpected {:?}", other),
    }
}

#[test]
fn parse_line_reports_errors_in_field_order() {
    // id is read before amount and active.
    match parse_line("x,a,b,y,z") {
        Err(AppError::InvalidId(e)) => assert_eq!(e.kind, IntErrorKind::InvalidDigit),
        other => panic!("unexpected {:?}", other),
    }
    // amount before active.
    match parse_line("1,a,b,,z") {
        Err(AppError::InvalidAmount(e)) => assert_eq!(e.kind, FloatErrorKind::Empty),
        other => panic!("unexpected {:?}", other),
    }
    match parse_line("1,a,b,1.5.2,z") {
        Err(AppError::InvalidAmount(e)) => assert_eq!(e.kind, FloatErrorKind::Invalid),
        other => panic!("unexpected {:?}", other),
    }
    match parse_line(" ,a,b,1,true") {
        Err(AppError::InvalidId(e)) => assert_eq!(e.kind, IntErrorKind::Empty),
        other => panic!("unexpected {:?}", other),
    }
    match parse_line("4294967296,a,b,1,true") {
        Err(AppError::InvalidId(e)) => assert_eq!(e.kind, IntErrorKind::PosOverflow),
        other => panic!("unexpected {:?}", other),
    }
}

#[test]
fn parse_line_accepts_what_std_accepts() {
    let sale = parse_line("+4294967295,\u{a0}Caf\u{e9}\t, APAC ,-1e-3,false").unwrap();
    assert_eq!(sale.id, 4294967295);
    assert_eq!(sale.name, "Caf\u{e9}");
    assert_eq!(sale.region, "APAC");
    assert_eq!(sale.amount, "-1e-3");
    assert!(!sale.active);
}

#[test]
fn check_header_accepts_the_expected_header() {
    assert!(check_header(Some(EXPECTED_HEADER)).is_ok());
    assert!(check_header(Some("id,name,region,amount,active")).is_ok());
}

#[test]
fn check_header_rejects_other_lines() {
    match check_header(Some("foo,bar")) {
        Err(AppError::InvalidHeader(h)) => assert_eq!(h, "foo,bar"),
        other => panic!("unexpected {:?}", other),
    }
    match check_header(None) {
        Err(AppError::InvalidHeader(h)) => assert_eq!(h, "<empty file>"),
        other => panic!("unexpected {:?}", other),
    }
    assert!(matches!(
        check_header(Some("ID,name,region,amount,active")),
        Err(AppError::InvalidHeader(_))
    ));
    match check_header(Some("id,name,region,amount,active ")) {
        Err(AppError::InvalidHeader(h)) => assert_eq!(h, "id,name,region,amount,active "),
        other => panic!("unexpected {:?}", other),
    }
    assert!(matches!(
        check_header(Some("  id,name,region,amount,active")),
        Err(AppError::InvalidHeader(_))
    ));
}

/// The reading that a file gets: its first line is checked as the header,
/// every later line is parsed, and collecting stops at the first error.
fn read_text(content: &str) -> Result<Vec<parse_lib::Sale<String>>, AppError> {
    let mut lines = content.lines();
    check_header(lines.next())?;
    lines.map(parse_line).collect()
}

#[test]
fn test_read_file_success() {
    let records = read_text(
        "id,name,region,amount,active\n1,Alice,EU,1200.50,true\n2,Bob,US,850.00,false\n",
    )
    .expect("all rows are valid");

    assert_eq!(records.len(), 2);
    assert_eq!(records[0].name, "Alice");
    assert!(!records[1].active);
}

#[test]
fn test_read_file_invalid_header() {
    let result = read_text("foo,bar\n1,Alice,EU,1200.50,true\n");

    assert!(matches!(result, Err(AppError::InvalidHeader(_))));
}

#[test]
fn test_read_file_corrupt_row_surfaces_as_error() {
    let result = read_text(
        "id,name,region,amount,active\n1,Alice,EU,1200.50,true\n2,Bob,US,NOT_A_NUMBER,true\n",
    );

    assert!(result.is_err());
    assert!(matches!(result.unwrap_err(), AppError::InvalidAmount(_)));
}

#[test]
fn empty_file_has_an_invalid_header() {
    assert!(matches!(read_text(""), Err(AppError::InvalidHeader(h)) if h == "<empty file>"));
}
