use tseries::reader::{
    csv_split, detect_format, parse_csv, parse_json, parse_jsonl, parse_text, Format, RawSeries,
    ReadError,
};

fn value_at(s: &RawSeries, i: usize) -> f64 {
    s.points[i].value.parse::<f64>().unwrap()
}

fn parse_message(r: Result<RawSeries, ReadError>) -> String {
    match r {
        Err(ReadError::Parse(m)) => m,
        other => panic!("expected a parse error, got {:?}", other),
    }
}

#[test]
fn test_parse_csv_basic() {
    let csv = "timestamp,value\n2024-01-01,10.5\n2024-01-02,20.3\n2024-01-03,15.0";
    let s = parse_csv(csv, "test").unwrap();
    assert_eq!(s.points.len(), 3);
    assert!((value_at(&s, 0) - 10.5).abs() < 1e-9);
}

#[test]
fn test_parse_csv_no_header() {
    let csv = "2024-01-01,10.5\n2024-01-02,20.3";
    let s = parse_csv(csv, "test").unwrap();
    assert_eq!(s.points.len(), 2);
}

#[test]
fn test_parse_csv_quoted() {
    let csv = "\"2024-01-01\",10.5\n\"2024-01-02\",20.3";
    let s = parse_csv(csv, "test").unwrap();
    assert_eq!(s.points.len(), 2);
    assert_eq!(s.points[0].timestamp, "2024-01-01");
}

#[test]
fn test_parse_json_array() {
    let json =
        r#"[{"timestamp":"2024-01-01","value":10.5},{"timestamp":"2024-01-02","value":20.3}]"#;
    let s = parse_json(json, "test").unwrap();
    assert_eq!(s.points.len(), 2);
    assert!((value_at(&s, 0) - 10.5).abs() < 1e-9);
}

#[test]
fn test_parse_json_numeric_ts() {
    let json =
        r#"[{"timestamp":1704067200,"value":10.5},{"timestamp":1704153600,"value":20.3}]"#;
    let s = parse_json(json, "test").unwrap();
    assert_eq!(s.points.len(), 2);
}

#[test]
fn test_parse_jsonl() {
    let jsonl = "{\"timestamp\":\"2024-01-01\",\"value\":10.5}\n{\"timestamp\":\"2024-01-02\",\"value\":20.3}";
    let s = parse_jsonl(jsonl, "test").unwrap();
    assert_eq!(s.points.len(), 2);
}

#[test]
fn test_parse_empty() {
    assert!(parse_csv("", "test").is_err());
}

#[test]
fn test_detect_format() {
    assert_eq!(detect_format("[...]"), Format::Json);
    assert_eq!(detect_format("a,b\n1,2"), Format::Csv);
    assert_eq!(
        detect_format("{\"ts\":\"x\"}\n{\"ts\":\"y\"}"),
        Format::Jsonl
    );
}

#[test]
fn test_csv_split() {
    assert_eq!(csv_split("a,b,c"), ["a", "b", "c"]);
    assert_eq!(csv_split("\"a,b\",c"), ["a,b", "c"]);
    assert_eq!(csv_split("\"a\"\"b\",c"), ["a\"b", "c"]);
}

#[test]
fn test_alternate_field_names() {
    let json = r#"[{"time":"2024-01-01","val":10.5}]"#;
    let s = parse_json(json, "test").unwrap();
    assert_eq!(s.points.len(), 1);
    assert!((value_at(&s, 0) - 10.5).abs() < 1e-9);
}

// ── further cases ──

#[test]
fn detect_format_edges() {
    assert_eq!(detect_format("  \n [1]"), Format::Json);
    assert_eq!(detect_format("{\"a\":1}"), Format::Json);
    assert_eq!(detect_format("{\"a\":1}\n\n   \n"), Format::Json);
    assert_eq!(detect_format("{\"a\":1}\n  {\"a\":2}\r\n"), Format::Jsonl);
    assert_eq!(detect_format("{\"a\":1}\n[2]"), Format::Json);
    assert_eq!(detect_format(""), Format::Csv);
    assert_eq!(detect_format("x{"), Format::Csv);
}

#[test]
fn csv_split_edges() {
    assert_eq!(csv_split(""), [""]);
    assert_eq!(csv_split(","), ["", ""]);
    assert_eq!(csv_split("a,\"b"), ["a", "b"]);
    assert_eq!(csv_split("\"\"\"\""), ["\""]);
    assert_eq!(csv_split("a\"\"b"), ["ab"]);
}

#[test]
fn csv_header_only_is_empty() {
    assert!(matches!(parse_csv("timestamp,value", "s"), Err(ReadError::Empty)));
    assert!(matches!(parse_csv("\n \n", "s"), Err(ReadError::Empty)));
}

#[test]
fn csv_keeps_order_name_and_trims() {
    let s = parse_csv("  b , 2 \n\n a,1e3\r\nc,-inf", "name").unwrap();
    assert_eq!(s.name, "name");
    let got: Vec<(&str, &str)> =
        s.points.iter().map(|p| (p.timestamp.as_str(), p.value.as_str())).collect();
    assert_eq!(got, [("b", "2"), ("a", "1e3"), ("c", "-inf")]);
}

#[test]
fn csv_column_error_message() {
    let m = parse_message(parse_csv("a,1\n\nonly", "s"));
    assert_eq!(m, "line 3: expected at least 2 columns, got 1");
}

#[test]
fn csv_invalid_value_message() {
    let m = parse_message(parse_csv("t,v\n1,2\n2, x ", "s"));
    assert_eq!(m, "line 3: invalid value 'x'");
}

#[test]
fn csv_line_numbers_past_nine() {
    let mut text = String::new();
    for i in 0..11 {
        text.push_str(&format!("{i},{i}\n"));
    }
    text.push_str("11,oops\n");
    let m = parse_message(parse_csv(&text, "s"));
    assert_eq!(m, "line 12: invalid value 'oops'");
}

#[test]
fn json_points_object_and_single_object() {
    let s = parse_json(r#"{"points":[{"ts":"a","v":1},{"date":"b","value":2}]}"#, "n").unwrap();
    assert_eq!(s.points.len(), 2);
    assert_eq!(s.points[1].timestamp, "b");
    let s = parse_json(r#"{"timestamp":7,"value":-2.5}"#, "n").unwrap();
    assert_eq!(s.points.len(), 1);
    assert_eq!(s.points[0].timestamp, "7");
    assert!((value_at(&s, 0) + 2.5).abs() < 1e-12);
}

#[test]
fn json_errors() {
    assert_eq!(parse_message(parse_json("3", "n")), "expected JSON array or object");
    assert_eq!(parse_message(parse_json("[1]", "n")), "expected JSON object");
    assert_eq!(parse_message(parse_json(r#"[{"value":1}]"#, "n")), "missing 'timestamp' field");
    assert_eq!(
        parse_message(parse_json(r#"[{"ts":true,"value":1}]"#, "n")),
        "timestamp must be string or number"
    );
    assert_eq!(parse_message(parse_json(r#"[{"ts":"a"}]"#, "n")), "missing 'value' field");
    assert_eq!(
        parse_message(parse_json(r#"[{"ts":"a","v":"1"}]"#, "n")),
        "value must be a number"
    );
    assert!(parse_message(parse_json("[", "n")).starts_with("JSON: "));
    assert!(matches!(parse_json("[]", "n"), Err(ReadError::Empty)));
}

#[test]
fn jsonl_errors_and_blank_lines() {
    let s = parse_jsonl("{\"ts\":1,\"v\":2}\n\n  \n{\"ts\":2,\"v\":3}\n", "n").unwrap();
    assert_eq!(s.points.len(), 2);
    let m = parse_message(parse_jsonl("{\"ts\":1,\"v\":2}\n{oops", "n"));
    assert!(m.starts_with("line 2: JSON: "), "{m}");
    let m = parse_message(parse_jsonl("{\"ts\":1,\"v\":2}\n{\"ts\":1}", "n"));
    assert_eq!(m, "missing 'value' field");
}

#[test]
fn parse_text_dispatches_on_format() {
    let csv = parse_text("\n  t,v\n1,2\n", "a").unwrap();
    assert_eq!(csv.points.len(), 1);
    let json = parse_text(" [{\"ts\":1,\"v\":2}] ", "a").unwrap();
    assert_eq!(json.points[0].value, "2");
    let jsonl = parse_text("{\"ts\":1,\"v\":2}\n{\"ts\":3,\"v\":4}", "a").unwrap();
    assert_eq!(jsonl.points.len(), 2);
    assert!(matches!(parse_text(" \n\t", "a"), Err(ReadError::Empty)));
}

#[test]
fn read_error_messages() {
    assert_eq!(ReadError::Empty.message(), "input is empty");
    assert_eq!(ReadError::Io("gone".to_string()).message(), "IO error: gone");
    assert_eq!(ReadError::Parse("bad".to_string()).message(), "parse error: bad");
}
