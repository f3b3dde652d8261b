use tseries::anomaly::AnomalyMethod;
use tseries::gapfill::FillMethod;
use tseries::output::OutputFormat;
use tseries::reader::{
    csv_split, detect_format, parse_csv, parse_json_value, parse_text, JsonValue, ReadError,
};
use tseries::resample::Aggregation;
use tseries::trend::TrendDirection;

fn points(r: &Result<tseries::reader::RawSeries, ReadError>) -> Vec<(String, String)> {
    match r {
        Ok(s) => s.points.iter().map(|p| (p.timestamp.clone(), p.value.clone())).collect(),
        Err(e) => panic!("unexpected error {:?}", e),
    }
}

#[test]
fn split_then_join_gives_the_line_back() {
    for line in ["a,b,,c", "", ",", "2024-01-01, 10.5 ,x", "no commas"] {
        assert_eq!(csv_split(line).join(","), line);
    }
}

#[test]
fn csv_values_parse_as_numbers() {
    let s = parse_csv("t,v\n1,+.5\n2,1E-3\n3,NaN\n4,7.", "s").unwrap();
    for p in &s.points {
        assert!(p.value.parse::<f64>().is_ok(), "{}", p.value);
    }
    assert_eq!(s.points.len(), 4);
}

#[test]
fn surrounding_whitespace_is_ignored() {
    let a = parse_text(" \n\t a,1\nb,2 \n\n", "s");
    let b = parse_text("a,1\nb,2", "s");
    assert_eq!(points(&a), points(&b));
    assert_eq!(detect_format("  \n [1]"), detect_format("[1]"));
    assert_eq!(detect_format(" \t{\"a\":1}\n{\"a\":2}"), detect_format("{\"a\":1}\n{\"a\":2}"));
}

#[test]
fn successful_reads_have_points() {
    for text in ["a,1", "[{\"ts\":1,\"v\":1}]", "{\"ts\":1,\"v\":1}\n{\"ts\":2,\"v\":2}"] {
        let r = parse_text(text, "s");
        assert!(!points(&r).is_empty());
    }
    assert_eq!(parse_text("h,v", "s").unwrap_err(), ReadError::Empty);
}

#[test]
fn names_are_distinct() {
    let a = [AnomalyMethod::ZScore, AnomalyMethod::ModifiedZScore, AnomalyMethod::Iqr];
    let names: std::collections::HashSet<&str> = a.iter().map(|m| m.as_str()).collect();
    assert_eq!(names.len(), a.len());
    let f = [
        FillMethod::Linear,
        FillMethod::Forward,
        FillMethod::Backward,
        FillMethod::Mean,
        FillMethod::Zero,
    ];
    let names: std::collections::HashSet<&str> = f.iter().map(|m| m.as_str()).collect();
    assert_eq!(names.len(), f.len());
    let o = [OutputFormat::Text, OutputFormat::Json, OutputFormat::Csv];
    let names: std::collections::HashSet<&str> = o.iter().map(|m| m.as_str()).collect();
    assert_eq!(names.len(), o.len());
    let g = [
        Aggregation::Mean,
        Aggregation::Sum,
        Aggregation::Min,
        Aggregation::Max,
        Aggregation::Median,
        Aggregation::First,
        Aggregation::Last,
        Aggregation::Count,
    ];
    let names: std::collections::HashSet<&str> = g.iter().map(|m| m.as_str()).collect();
    assert_eq!(names.len(), g.len());
    let t = [TrendDirection::Increasing, TrendDirection::Decreasing, TrendDirection::Flat];
    let names: std::collections::HashSet<&str> = t.iter().map(|m| m.as_str()).collect();
    assert_eq!(names.len(), t.len());
}

fn entry(k: &str, v: JsonValue) -> (String, JsonValue) {
    (k.to_string(), v)
}

#[test]
fn json_value_points_in_order() {
    let item = |t: &str, v: &str| {
        JsonValue::Object(vec![
            entry("ts", JsonValue::Str(t.to_string())),
            entry("timestamp", JsonValue::Number(t.to_string())),
            entry("v", JsonValue::Number(v.to_string())),
        ])
    };
    let doc = JsonValue::Array(vec![item("1", "10"), item("2", "20")]);
    let r = parse_json_value(&doc, "n");
    assert_eq!(
        points(&r),
        [("1".to_string(), "10".to_string()), ("2".to_string(), "20".to_string())]
    );
    assert_eq!(r.unwrap().name, "n");
    let doc = JsonValue::Object(vec![entry("points", JsonValue::Bool(true)), entry("ts", JsonValue::Str("x".into())), entry("value", JsonValue::Number("3".into()))]);
    assert_eq!(points(&parse_json_value(&doc, "n")), [("x".to_string(), "3".to_string())]);
    assert_eq!(
        parse_json_value(&JsonValue::Null, "n").unwrap_err(),
        ReadError::Parse("expected JSON array or object".to_string())
    );
    assert_eq!(
        parse_json_value(&JsonValue::Array(vec![]), "n").unwrap_err(),
        ReadError::Empty
    );
}
