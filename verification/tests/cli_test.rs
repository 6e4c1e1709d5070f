use parse_lib::cli::{parse_args, Command, USAGE};
use parse_lib::AppError;

fn args(list: &[&str]) -> Vec<String> {
    list.iter().map(|s| s.to_string()).collect()
}

fn usage_message(r: Result<parse_lib::cli::Config, AppError>) -> String {
    match r {
        Err(AppError::Usage(m)) => m,
        Err(e) => panic!("unexpected error {:?}", e),
        Ok(_) => panic!("unexpected success"),
    }
}

#[test]
fn missing_arguments_is_a_usage_error() {
    let m = usage_message(parse_args(args(&["parse-lib"])));
    assert_eq!(m, format!("missing <file_path>\n\n{USAGE}"));
    let m = usage_message(parse_args(args(&[])));
    assert!(m.starts_with("missing <file_path>"));
    let m = usage_message(parse_args(args(&["parse-lib", "data.csv"])));
    assert_eq!(m, format!("missing <command>\n\n{USAGE}"));
}

#[test]
fn unknown_command_is_named() {
    let m = usage_message(parse_args(args(&["parse-lib", "data.csv", "explode"])));
    assert!(m.contains("unknown command 'explode'"));
}

#[test]
fn filter_needs_a_region() {
    let m = usage_message(parse_args(args(&["parse-lib", "data.csv", "filter"])));
    assert_eq!(m, format!("'filter' requires a <region>\n\n{USAGE}"));
}

#[test]
fn output_flag_needs_a_path() {
    let m = usage_message(parse_args(args(&["p", "data.csv", "map", "--output"])));
    assert_eq!(m, format!("'--output' requires a <path>\n\n{USAGE}"));
    let m = usage_message(parse_args(args(&["p", "data.csv", "map", "extra"])));
    assert_eq!(m, format!("unexpected argument 'extra'\n\n{USAGE}"));
}

#[test]
fn arguments_after_the_output_path_are_rejected() {
    let m = usage_message(parse_args(args(&["parse-lib", "f", "map", "--output", "o", "extra"])));
    assert_eq!(m, format!("unexpected argument 'extra'\n\n{USAGE}"));
}

#[test]
fn valid_command_lines() {
    let c = parse_args(args(&["p", "data.csv", "filter", "EU"])).unwrap();
    assert_eq!(c.file_path, "data.csv");
    assert!(matches!(c.command, Command::Filter(ref r) if r == "EU"));
    assert!(c.output.is_none());

    let c = parse_args(args(&["p", "d.csv", "filter", "US", "--output", "out.csv"])).unwrap();
    assert!(matches!(c.command, Command::Filter(ref r) if r == "US"));
    assert_eq!(c.output.as_deref(), Some("out.csv"));

    let c = parse_args(args(&["p", "d.csv", "map"])).unwrap();
    assert!(matches!(c.command, Command::MapNames));

    let c = parse_args(args(&["p", "d.csv", "aggregate", "--output", "t.txt"])).unwrap();
    assert!(matches!(c.command, Command::Aggregate));
    assert_eq!(c.output.as_deref(), Some("t.txt"));
}

#[test]
fn error_messages_read_like_the_errors() {
    let e = AppError::Usage("bad".to_string());
    assert_eq!(e.message(), "Usage error: bad");
    let e = AppError::MissingField("id".to_string());
    assert_eq!(e.message(), "Format error: Missing field: id");
    let e = AppError::UnexpectedField("l".to_string());
    assert_eq!(e.message(), "Format error: Unexpected extra field in line: l");
    let e = AppError::InvalidHeader("h".to_string());
    assert_eq!(e.message(), "Format error: Invalid header: h");
    let e = parse_lib::parser::parse_line("x,a,b,1,true").unwrap_err();
    assert_eq!(e.message(), "ID error: invalid digit found in string");
    let e = parse_lib::parser::parse_line("1,a,b,x,true").unwrap_err();
    assert_eq!(e.message(), "Amount error: invalid float literal");
    let e = parse_lib::parser::parse_line("1,a,b,1,yes").unwrap_err();
    assert_eq!(e.message(), "Active state error: provided string was not `true` or `false`");
    let io = std::io::Error::new(std::io::ErrorKind::NotFound, "gone");
    let e = AppError::from(io);
    assert_eq!(e.message(), "IO error: gone");
}
