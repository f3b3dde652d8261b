use tseries::anomaly::AnomalyMethod;
use tseries::gapfill::FillMethod;
use tseries::output::OutputFormat;
use tseries::resample::Aggregation;
use tseries::trend::TrendDirection;

#[test]
fn anomaly_method_names() {
    assert_eq!(AnomalyMethod::ZScore.as_str(), "zscore");
    assert_eq!(AnomalyMethod::ModifiedZScore.as_str(), "modified-zscore");
    assert_eq!(AnomalyMethod::Iqr.as_str(), "iqr");
}

#[test]
fn fill_method_names() {
    assert_eq!(FillMethod::Linear.as_str(), "linear");
    assert_eq!(FillMethod::Forward.as_str(), "forward");
    assert_eq!(FillMethod::Backward.as_str(), "backward");
    assert_eq!(FillMethod::Mean.as_str(), "mean");
    assert_eq!(FillMethod::Zero.as_str(), "zero");
}

#[test]
fn output_format_names() {
    assert_eq!(OutputFormat::Text.as_str(), "text");
    assert_eq!(OutputFormat::Json.as_str(), "json");
    assert_eq!(OutputFormat::Csv.as_str(), "csv");
}

#[test]
fn aggregation_names() {
    let all = [
        (Aggregation::Mean, "mean"),
        (Aggregation::Sum, "sum"),
        (Aggregation::Min, "min"),
        (Aggregation::Max, "max"),
        (Aggregation::Median, "median"),
        (Aggregation::First, "first"),
        (Aggregation::Last, "last"),
        (Aggregation::Count, "count"),
    ];
    for (a, name) in all {
        assert_eq!(a.as_str(), name);
    }
}

#[test]
fn trend_direction_names() {
    assert_eq!(TrendDirection::Increasing.as_str(), "increasing");
    assert_eq!(TrendDirection::Decreasing.as_str(), "decreasing");
    assert_eq!(TrendDirection::Flat.as_str(), "flat");
}
