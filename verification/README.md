# tseries

Time series analysis: statistics, anomaly detection, forecasting,
seasonality, trend, gap filling, resampling and ASCII plots, read from CSV,
JSON or JSONL.

## Layout

- `src/` — the verified library (Verus):
  - `text.rs` — the character model: Unicode whitespace, `trim`, `lines`,
    decimal rendering, and the `Vec<char>` scanners proved against them.
  - `literal.rs` — the syntax of the numbers that `str::parse::<f64>` accepts,
    and a recognizer proved against it.
  - `reader.rs` — format detection, CSV field splitting, and the CSV, JSON and
    JSONL readers, each specified over the input text (JSON through
    serde_json's reading of the text), with the laws they obey.
  - `anomaly.rs`, `gapfill.rs`, `output.rs`, `resample.rs`, `trend.rs` — the
    named choices that the analyses take, and their names.
- `app/` — the command line: file and stream I/O, turning value texts into
  `f64`, ordering points by timestamp, and every analysis and rendering that
  computes on `f64` values.
- `tests/` — tests of the library.
