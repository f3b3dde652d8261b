//! Input parsing for CSV, JSON, and JSONL formats.
//!
//! The parsers turn text into [`RawSeries`]: each point keeps its timestamp
//! and the text of its value, in the order in which the input lists them.
//! A CSV value is a literal that `str::parse::<f64>` accepts; a JSON value
//! is a number as serde_json prints it.
use vstd::prelude::*;
use crate::literal::{float_literal_range, is_float_literal};
use crate::text::{
    chars_of, decimal, lines, next_line, push_decimal, push_range, skip_ws, string_of_range, trim,
    trim_bounds, trim_start,
};

verus! {

/// Supported input formats.
#[derive(Debug, Clone, Copy, PartialEq, Eq, Structural)]
pub enum Format {
    Csv,
    Json,
    Jsonl,
}

/// Errors that can occur during reading.
#[derive(Debug, Clone, PartialEq, Eq)]
pub enum ReadError {
    Empty,
    Io(String),
    Parse(String),
}

/// The value that a [`ReadError`] stands for.
pub enum ReadFailure {
    Empty,
    Io(Seq<char>),
    Parse(Seq<char>),
}

impl View for ReadError {
    type V = ReadFailure;

    open spec fn view(&self) -> ReadFailure {
        match self {
            ReadError::Empty => ReadFailure::Empty,
            ReadError::Io(m) => ReadFailure::Io(m@),
            ReadError::Parse(m) => ReadFailure::Parse(m@),
        }
    }
}

/// The text of a read failure, as the command line reports it.
pub open spec fn failure_text(f: ReadFailure) -> Seq<char> {
    match f {
        ReadFailure::Empty => "input is empty"@,
        ReadFailure::Io(m) => "IO error: "@ + m,
        ReadFailure::Parse(m) => "parse error: "@ + m,
    }
}

impl ReadError {
    /// The human-readable description of the error.
    pub fn message(&self) -> (s: String)
        ensures
            s@ == failure_text(self@),
    {
        match self {
            ReadError::Empty => String::from_str("input is empty"),
            ReadError::Io(m) => {
                let mut s = String::from_str("IO error: ");
                s.append(m.as_str());
                s
            },
            ReadError::Parse(m) => {
                let mut s = String::from_str("parse error: ");
                s.append(m.as_str());
                s
            },
        }
    }
}

/// One point as read: its timestamp and the text of its value.
#[derive(Debug, Clone)]
pub struct RawPoint {
    pub timestamp: String,
    pub value: String,
}

impl View for RawPoint {
    type V = (Seq<char>, Seq<char>);

    open spec fn view(&self) -> (Seq<char>, Seq<char>) {
        (self.timestamp@, self.value@)
    }
}

/// A named series as read, before its values are turned into numbers.
#[derive(Debug, Clone)]
pub struct RawSeries {
    pub name: String,
    pub points: Vec<RawPoint>,
}

/// The points of a series, each as its view.
pub open spec fn points_view(points: Seq<RawPoint>) -> Seq<(Seq<char>, Seq<char>)> {
    points.map_values(|p: RawPoint| p@)
}

// ── Format detection ──

/// A line with nothing but whitespace.
pub open spec fn is_blank(l: Seq<char>) -> bool {
    trim(l).len() == 0
}

/// A line whose first character after leading whitespace is `{`.
pub open spec fn opens_object(l: Seq<char>) -> bool {
    trim_start(l).len() > 0 && trim_start(l)[0] == '{'
}

/// The number of lines that are not blank.
pub open spec fn count_nonblank(ls: Seq<Seq<char>>) -> nat
    decreases ls.len(),
{
    if ls.len() == 0 {
        0
    } else {
        count_nonblank(ls.drop_last()) + if is_blank(ls.last()) {
            0nat
        } else {
            1nat
        }
    }
}

/// The format of a text: JSON when it starts with `[`; JSONL when it starts
/// with `{` and has several non-blank lines that all start with `{`; JSON
/// for any other text that starts with `{`; CSV for everything else.
/// Leading whitespace is ignored throughout.
pub open spec fn format_of(content: Seq<char>) -> Format {
    let t = trim_start(content);
    if t.len() > 0 && t[0] == '[' {
        Format::Json
    } else if t.len() > 0 && t[0] == '{' {
        let ls = lines(t);
        if count_nonblank(ls) > 1 && forall|i: int|
            0 <= i < ls.len() && !is_blank(#[trigger] ls[i]) ==> opens_object(ls[i]) {
            Format::Jsonl
        } else {
            Format::Json
        }
    } else {
        Format::Csv
    }
}

/// Auto-detect format from content.
pub fn detect_format(content: &str) -> (f: Format)
    ensures
        f == format_of(content@),
{
    let v = chars_of(content);
    let n = v.len();
    let a = skip_ws(&v, 0, n);
    assert(v@.subrange(0, n as int) =~= v@);
    let ghost t = v@.subrange(a as int, n as int);
    if a < n && v[a] == '[' {
        return Format::Json;
    }
    if !(a < n && v[a] == '{') {
        return Format::Csv;
    }
    let mut pos = a;
    let mut count: usize = 0;
    let mut all_open = true;
    let ghost mut done: Seq<Seq<char>> = seq![];
    while pos < n
        invariant
            a <= pos <= n,
            n == v.len(),
            t == v@.subrange(a as int, n as int),
            lines(t) == done + lines(v@.subrange(pos as int, n as int)),
            count == count_nonblank(done),
            count <= done.len() <= pos - a,
            all_open == forall|i: int|
                0 <= i < done.len() && !is_blank(#[trigger] done[i]) ==> opens_object(done[i]),
        decreases n - pos,
    {
        let (e, next) = next_line(&v, pos, n);
        let ghost line = v@.subrange(pos as int, e as int);
        let (b0, b1) = trim_bounds(&v, pos, e);
        let k = skip_ws(&v, pos, e);
        if b0 < b1 {
            count = count + 1;
            if !(k < e && v[k] == '{') {
                all_open = false;
            }
        }
        proof {
            let old_done = done;
            done = done.push(line);
            assert(done.drop_last() =~= old_done);
            assert(done + lines(v@.subrange(next as int, n as int)) =~= old_done + (seq![line]
                + lines(v@.subrange(next as int, n as int))));
            assert(trim_start(line) == v@.subrange(k as int, e as int));
            assert(k < e ==> trim_start(line)[0] == v@[k as int]);
            if !all_open {
                if b0 < b1 && !(k < e && v@[k as int] == '{') {
                    assert(!is_blank(done[old_done.len() as int]));
                } else {
                    let j = choose|i: int|
                        0 <= i < old_done.len() && !is_blank(#[trigger] old_done[i])
                            && !opens_object(old_done[i]);
                    assert(done[j] == old_done[j]);
                }
            }
        }
        pos = next;
    }
    assert(v@.subrange(n as int, n as int) =~= Seq::<char>::empty());
    assert(lines(t) =~= done);
    if count > 1 && all_open {
        Format::Jsonl
    } else {
        Format::Json
    }
}

// ── CSV fields ──

/// The fields of a CSV line from position `i` on, given whether a quoted
/// part is open, the field read so far and the fields already complete:
/// commas outside quotes end a field, a double quote opens or closes a
/// quoted part, and two double quotes inside a quoted part stand for one.
pub open spec fn split_fields(
    s: Seq<char>,
    i: int,
    quoted: bool,
    cur: Seq<char>,
    done: Seq<Seq<char>>,
) -> Seq<Seq<char>>
    decreases s.len() - i,
{
    if i >= s.len() {
        done.push(cur)
    } else if s[i] == '"' {
        if quoted && i + 1 < s.len() && s[i + 1] == '"' {
            split_fields(s, i + 2, quoted, cur.push('"'), done)
        } else {
            split_fields(s, i + 1, !quoted, cur, done)
        }
    } else if s[i] == ',' && !quoted {
        split_fields(s, i + 1, quoted, seq![], done.push(cur))
    } else {
        split_fields(s, i + 1, quoted, cur.push(s[i]), done)
    }
}

/// The fields of a CSV line.
pub open spec fn csv_fields(line: Seq<char>) -> Seq<Seq<char>> {
    split_fields(line, 0, false, seq![], seq![])
}

/// The views of a list of strings.
pub open spec fn strings_view(v: Seq<String>) -> Seq<Seq<char>> {
    v.map_values(|s: String| s@)
}

/// The fields of the line `v[lo..hi]`.
fn split_range(v: &Vec<char>, lo: usize, hi: usize) -> (fields: Vec<String>)
    requires
        lo <= hi <= v.len(),
    ensures
        strings_view(fields@) == csv_fields(v@.subrange(lo as int, hi as int)),
{
    let ghost s = v@.subrange(lo as int, hi as int);
    let mut fields: Vec<String> = Vec::new();
    let mut current = String::new();
    let mut quoted = false;
    let mut i = lo;
    assert(strings_view(fields@) =~= Seq::<Seq<char>>::empty());
    assert(current@ =~= Seq::<char>::empty());
    while i < hi
        invariant
            lo <= i <= hi,
            hi <= v.len(),
            s == v@.subrange(lo as int, hi as int),
            csv_fields(s) == split_fields(s, i - lo, quoted, current@, strings_view(fields@)),
        decreases hi - i,
    {
        let c = v[i];
        assert(s[i - lo] == c);
        if c == '"' {
            if quoted && i + 1 < hi && v[i + 1] == '"' {
                assert(s[i + 1 - lo] == v@[i + 1]);
                current.push('"');
                i = i + 2;
            } else {
                assert(!(quoted && i - lo + 1 < s.len() && s[i - lo + 1] == '"'));
                quoted = !quoted;
                i = i + 1;
            }
        } else if c == ',' && !quoted {
            let ghost before = fields@;
            fields.push(current);
            assert(strings_view(fields@) =~= strings_view(before).push(current@));
            current = String::new();
            assert(current@ =~= seq![]);
            i = i + 1;
        } else {
            current.push(c);
            i = i + 1;
        }
    }
    let ghost before = fields@;
    fields.push(current);
    assert(strings_view(fields@) =~= strings_view(before).push(current@));
    fields
}

/// Simple CSV field splitter handling basic double-quote escaping.
pub fn csv_split(line: &str) -> (fields: Vec<String>)
    ensures
        strings_view(fields@) == csv_fields(line@),
{
    let v = chars_of(line);
    assert(v@.subrange(0, v@.len() as int) =~= v@);
    split_range(&v, 0, v.len())
}

// ── CSV ──

/// The message for a CSV line with fewer than two fields.
pub open spec fn columns_message(line_no: nat, got: nat) -> Seq<char> {
    "line "@ + decimal(line_no) + ": expected at least 2 columns, got "@ + decimal(got)
}

/// The message for a CSV line whose value field is not a number.
pub open spec fn invalid_value_message(line_no: nat, val: Seq<char>) -> Seq<char> {
    "line "@ + decimal(line_no) + ": invalid value '"@ + val + "'"@
}

/// What one line of a line-oriented input contributes.
pub enum LineOutcome {
    Skip,
    Row(Seq<char>, Seq<char>),
    Fail(Seq<char>),
}

/// The meaning of the CSV line with 0-based number `index`: blank lines are
/// skipped; a line needs two fields, the trimmed first being the timestamp
/// and the trimmed second the value, which must be a number, except on the
/// first line, which is then taken as a header and skipped.
pub open spec fn csv_line(line: Seq<char>, index: nat) -> LineOutcome {
    let l = trim(line);
    if l.len() == 0 {
        LineOutcome::Skip
    } else {
        let cols = csv_fields(l);
        if cols.len() < 2 {
            LineOutcome::Fail(columns_message(index + 1, cols.len()))
        } else {
            let ts = trim(cols[0]);
            let val = trim(cols[1]);
            if is_float_literal(val) {
                LineOutcome::Row(ts, val)
            } else if index == 0 {
                LineOutcome::Skip
            } else {
                LineOutcome::Fail(invalid_value_message(index + 1, val))
            }
        }
    }
}

/// The line-oriented input formats.
pub enum LineFormat {
    Csv,
    Jsonl,
}

/// What the line with 0-based number `index` contributes in a format.
pub open spec fn line_outcome(f: LineFormat, line: Seq<char>, index: nat) -> LineOutcome {
    match f {
        LineFormat::Csv => csv_line(line, index),
        LineFormat::Jsonl => jsonl_line(line, index),
    }
}

/// The rows of a list of lines, or the message of the first line that fails.
pub open spec fn line_rows(f: LineFormat, ls: Seq<Seq<char>>) -> Result<
    Seq<(Seq<char>, Seq<char>)>,
    Seq<char>,
>
    decreases ls.len(),
{
    if ls.len() == 0 {
        Ok(seq![])
    } else {
        match line_rows(f, ls.drop_last()) {
            Err(m) => Err(m),
            Ok(rows) => match line_outcome(f, ls.last(), (ls.len() - 1) as nat) {
                LineOutcome::Skip => Ok(rows),
                LineOutcome::Row(t, v) => Ok(rows.push((t, v))),
                LineOutcome::Fail(m) => Err(m),
            },
        }
    }
}

/// The points of a list of rows, or why there are none.
pub open spec fn rows_result(rows: Result<Seq<(Seq<char>, Seq<char>)>, Seq<char>>) -> Result<
    Seq<(Seq<char>, Seq<char>)>,
    ReadFailure,
> {
    match rows {
        Err(m) => Err(ReadFailure::Parse(m)),
        Ok(rows) => if rows.len() == 0 {
            Err(ReadFailure::Empty)
        } else {
            Ok(rows)
        },
    }
}

/// The points of a CSV text, or why it has none.
pub open spec fn csv_result(content: Seq<char>) -> Result<Seq<(Seq<char>, Seq<char>)>, ReadFailure> {
    rows_result(line_rows(LineFormat::Csv, lines(content)))
}

/// The points of a read, or its failure.
pub open spec fn outcome(res: Result<RawSeries, ReadError>) -> Result<
    Seq<(Seq<char>, Seq<char>)>,
    ReadFailure,
> {
    match res {
        Ok(s) => Ok(points_view(s.points@)),
        Err(e) => Err(e@),
    }
}

/// A failing line makes the whole text fail, whatever lines follow it.
proof fn lemma_rows_fail_extends(f: LineFormat, a: Seq<Seq<char>>, b: Seq<Seq<char>>, m: Seq<char>)
    requires
        line_rows(f, a) == Err::<Seq<(Seq<char>, Seq<char>)>, Seq<char>>(m),
    ensures
        line_rows(f, a + b) == Err::<Seq<(Seq<char>, Seq<char>)>, Seq<char>>(m),
    decreases b.len(),
{
    if b.len() == 0 {
        assert(a + b =~= a);
    } else {
        lemma_rows_fail_extends(f, a, b.drop_last(), m);
        assert((a + b).drop_last() =~= a + b.drop_last());
    }
}

fn columns_message_text(line_no: usize, got: usize) -> (s: String)
    ensures
        s@ == columns_message(line_no as nat, got as nat),
{
    let mut s = String::from_str("line ");
    push_decimal(&mut s, line_no);
    s.append(": expected at least 2 columns, got ");
    push_decimal(&mut s, got);
    assert(s@ =~= columns_message(line_no as nat, got as nat));
    s
}

fn invalid_value_message_text(line_no: usize, v: &Vec<char>, lo: usize, hi: usize) -> (s: String)
    requires
        lo <= hi <= v.len(),
    ensures
        s@ == invalid_value_message(line_no as nat, v@.subrange(lo as int, hi as int)),
{
    let mut s = String::from_str("line ");
    push_decimal(&mut s, line_no);
    s.append(": invalid value '");
    push_range(&mut s, v, lo, hi);
    s.append("'");
    assert(s@ =~= invalid_value_message(line_no as nat, v@.subrange(lo as int, hi as int)));
    s
}

/// The text of `s` with whitespace trimmed at both ends.
fn trimmed_string(s: &String) -> (t: String)
    ensures
        t@ == trim(s@),
{
    let c = chars_of(s.as_str());
    assert(c@.subrange(0, c@.len() as int) =~= c@);
    let (a, b) = trim_bounds(&c, 0, c.len());
    string_of_range(&c, a, b)
}

/// Parse CSV with timestamp,value columns.
/// Expects at least 2 columns. First column = timestamp, second = value.
/// Skips header row if the value column is non-numeric.
pub fn parse_csv(content: &str, name: &str) -> (res: Result<RawSeries, ReadError>)
    ensures
        outcome(res) == csv_result(content@),
        res matches Ok(s) ==> s.name@ == name@,
{
    let v = chars_of(content);
    let n = v.len();
    assert(v@.subrange(0, n as int) =~= v@);
    let mut points: Vec<RawPoint> = Vec::new();
    let mut pos: usize = 0;
    let mut index: usize = 0;
    let ghost mut done: Seq<Seq<char>> = seq![];
    assert(points_view(points@) =~= seq![]);
    while pos < n
        invariant
            pos <= n,
            n == v.len(),
            v@ == content@,
            lines(v@) == done + lines(v@.subrange(pos as int, n as int)),
            index == done.len(),
            index <= pos,
            line_rows(LineFormat::Csv, done) == Ok::<Seq<(Seq<char>, Seq<char>)>, Seq<char>>(points_view(points@)),
        decreases n - pos,
    {
        let (e, next) = next_line(&v, pos, n);
        let ghost line = v@.subrange(pos as int, e as int);
        let ghost old_done = done;
        let ghost old_points = points@;
        proof {
            done = done.push(line);
            assert(done.drop_last() =~= old_done);
            assert(done + lines(v@.subrange(next as int, n as int)) =~= old_done + (seq![line]
                + lines(v@.subrange(next as int, n as int))));
            assert(lines(v@) == done + lines(v@.subrange(next as int, n as int)));
        }
        let (a, b) = trim_bounds(&v, pos, e);
        if a < b {
            let cols = split_range(&v, a, b);
            if cols.len() < 2 {
                let msg = columns_message_text(index + 1, cols.len());
                proof {
                    lemma_rows_fail_extends(LineFormat::Csv, done, lines(v@.subrange(next as int, n as int)), msg@);
                }
                return Err(ReadError::Parse(msg));
            }
            assert(cols@[0]@ == strings_view(cols@)[0]);
            assert(cols@[1]@ == strings_view(cols@)[1]);
            let ts = trimmed_string(&cols[0]);
            let c1 = chars_of(cols[1].as_str());
            assert(c1@.subrange(0, c1@.len() as int) =~= c1@);
            let (u0, u1) = trim_bounds(&c1, 0, c1.len());
            if float_literal_range(&c1, u0, u1) {
                let val = string_of_range(&c1, u0, u1);
                points.push(RawPoint { timestamp: ts, value: val });
                assert(points_view(points@) =~= points_view(old_points).push((ts@, val@)));
            } else if index != 0 {
                let msg = invalid_value_message_text(index + 1, &c1, u0, u1);
                proof {
                    lemma_rows_fail_extends(LineFormat::Csv, done, lines(v@.subrange(next as int, n as int)), msg@);
                }
                return Err(ReadError::Parse(msg));
            }
        }
        pos = next;
        index = index + 1;
    }
    assert(v@.subrange(n as int, n as int) =~= Seq::<char>::empty());
    assert(lines(v@) =~= done);
    if points.len() == 0 {
        return Err(ReadError::Empty);
    }
    Ok(RawSeries { name: String::from_str(name), points })
}

// ── JSON ──

/// A JSON value, with each number kept as the text that serde_json prints for it.
#[derive(Debug)]
pub enum JsonValue {
    Null,
    Bool(bool),
    Number(String),
    Str(String),
    Array(Vec<JsonValue>),
    Object(Vec<(String, JsonValue)>),
}

/// serde_json's reading of a JSON text: the value it denotes, or the text of
/// the error that serde_json reports for it.
pub uninterp spec fn json_document(text: Seq<char>) -> Result<JsonValue, Seq<char>>;

/// `serde_json::from_str::<serde_json::Value>`: the value is carried over
/// variant by variant (a number as its `to_string`, an object as its entries
/// in the map's order), and an error as its `to_string`. The result is named
/// by `json_document`; nothing more of it is stated.
#[verifier::external_body]
fn read_json(text: &str) -> (res: Result<JsonValue, String>)
    ensures
        match res {
            Ok(v) => json_document(text@) == Ok::<JsonValue, Seq<char>>(v),
            Err(m) => json_document(text@) == Err::<JsonValue, Seq<char>>(m@),
        },
{
    match serde_json::from_str::<serde_json::Value>(text) {
        Ok(v) => Ok(json_value_of(&v)),
        Err(e) => Err(e.to_string()),
    }
}

/// The value type of serde_json, carried through opaquely.
#[verifier::external_type_specification]
#[verifier::external_body]
pub struct ExJsonValue(serde_json::Value);

/// Carries a `serde_json::Value` over into a [`JsonValue`], variant by variant;
/// used by `read_json` alone.
#[verifier::external_body]
fn json_value_of(v: &serde_json::Value) -> JsonValue {
    match v {
        serde_json::Value::Null => JsonValue::Null,
        serde_json::Value::Bool(b) => JsonValue::Bool(*b),
        serde_json::Value::Number(n) => JsonValue::Number(n.to_string()),
        serde_json::Value::String(s) => JsonValue::Str(s.clone()),
        serde_json::Value::Array(a) => JsonValue::Array(a.iter().map(json_value_of).collect()),
        serde_json::Value::Object(m) => JsonValue::Object(
            m.iter().map(|(k, x)| (k.clone(), json_value_of(x))).collect(),
        ),
    }
}

/// Index of the first entry with the given key.
pub open spec fn key_index(entries: Seq<(String, JsonValue)>, key: Seq<char>) -> Option<int> {
    if exists|i: int| 0 <= i < entries.len() && #[trigger] entries[i].0@ == key {
        Some(choose|i: int|
            0 <= i < entries.len() && #[trigger] entries[i].0@ == key && forall|j: int|
                0 <= j < i ==> #[trigger] entries[j].0@ != key)
    } else {
        None
    }
}

/// The value of the first entry with the given key.
pub open spec fn entry(entries: Seq<(String, JsonValue)>, key: Seq<char>) -> Option<JsonValue> {
    match key_index(entries, key) {
        Some(i) => Some(entries[i].1),
        None => None,
    }
}

/// The value under the first of the keys that is present.
pub open spec fn entry_of_any(entries: Seq<(String, JsonValue)>, keys: Seq<Seq<char>>) -> Option<
    JsonValue,
>
    decreases keys.len(),
{
    if keys.len() == 0 {
        None
    } else {
        match entry(entries, keys[0]) {
            Some(v) => Some(v),
            None => entry_of_any(entries, keys.drop_first()),
        }
    }
}

pub open spec fn timestamp_keys() -> Seq<Seq<char>> {
    seq!["timestamp"@, "time"@, "date"@, "ts"@]
}

pub open spec fn value_keys() -> Seq<Seq<char>> {
    seq!["value"@, "val"@, "v"@]
}

/// The point that a JSON value stands for: an object whose timestamp (under
/// `timestamp`, `time`, `date` or `ts`) is a string or a number, and whose
/// value (under `value`, `val` or `v`) is a number.
pub open spec fn json_point(v: JsonValue) -> Result<(Seq<char>, Seq<char>), Seq<char>> {
    match v {
        JsonValue::Object(entries) => match entry_of_any(entries@, timestamp_keys()) {
            None => Err("missing 'timestamp' field"@),
            Some(t) => {
                let ts = match t {
                    JsonValue::Str(s) => Some(s@),
                    JsonValue::Number(n) => Some(n@),
                    _ => None,
                };
                match ts {
                    None => Err("timestamp must be string or number"@),
                    Some(ts) => match entry_of_any(entries@, value_keys()) {
                        None => Err("missing 'value' field"@),
                        Some(JsonValue::Number(n)) => Ok((ts, n@)),
                        Some(_) => Err("value must be a number"@),
                    },
                }
            },
        },
        _ => Err("expected JSON object"@),
    }
}

/// The points of a list of JSON values, or the message of the first that fails.
pub open spec fn json_points(items: Seq<JsonValue>) -> Result<
    Seq<(Seq<char>, Seq<char>)>,
    Seq<char>,
>
    decreases items.len(),
{
    if items.len() == 0 {
        Ok(seq![])
    } else {
        match json_points(items.drop_last()) {
            Err(m) => Err(m),
            Ok(ps) => match json_point(items.last()) {
                Err(m) => Err(m),
                Ok(p) => Ok(ps.push(p)),
            },
        }
    }
}

/// The points of a JSON document: the items of an array, the items of the
/// `points` array of an object that has one, or else the object itself.
pub open spec fn json_value_points(v: JsonValue) -> Result<Seq<(Seq<char>, Seq<char>)>, Seq<char>> {
    match v {
        JsonValue::Array(items) => json_points(items@),
        JsonValue::Object(entries) => match entry(entries@, "points"@) {
            Some(JsonValue::Array(items)) => json_points(items@),
            _ => match json_point(v) {
                Err(m) => Err(m),
                Ok(p) => Ok(seq![p]),
            },
        },
        _ => Err("expected JSON array or object"@),
    }
}

/// The points of a JSON value, or why it has none.
pub open spec fn json_value_result(v: JsonValue) -> Result<Seq<(Seq<char>, Seq<char>)>, ReadFailure> {
    rows_result(json_value_points(v))
}

/// The points of a JSON text, or why it has none.
pub open spec fn json_result(content: Seq<char>) -> Result<Seq<(Seq<char>, Seq<char>)>, ReadFailure> {
    match json_document(content) {
        Err(e) => Err(ReadFailure::Parse("JSON: "@ + e)),
        Ok(v) => json_value_result(v),
    }
}

/// The message for a JSONL line that is not JSON.
pub open spec fn jsonl_error_message(line_no: nat, e: Seq<char>) -> Seq<char> {
    "line "@ + decimal(line_no) + ": JSON: "@ + e
}

/// The meaning of the JSONL line with 0-based number `index`: blank lines
/// are skipped, every other line is a JSON point.
pub open spec fn jsonl_line(line: Seq<char>, index: nat) -> LineOutcome {
    let l = trim(line);
    if l.len() == 0 {
        LineOutcome::Skip
    } else {
        match json_document(l) {
            Err(e) => LineOutcome::Fail(jsonl_error_message(index + 1, e)),
            Ok(v) => match json_point(v) {
                Err(m) => LineOutcome::Fail(m),
                Ok(p) => LineOutcome::Row(p.0, p.1),
            },
        }
    }
}

/// The points of a JSONL text, or why it has none.
pub open spec fn jsonl_result(content: Seq<char>) -> Result<Seq<(Seq<char>, Seq<char>)>, ReadFailure> {
    rows_result(line_rows(LineFormat::Jsonl, lines(content)))
}

/// Index of the first entry with key `key`, if any.
fn find_key(entries: &Vec<(String, JsonValue)>, key: &str) -> (r: Option<usize>)
    ensures
        match r {
            Some(i) => key_index(entries@, key@) == Some(i as int) && i < entries.len(),
            None => key_index(entries@, key@) is None,
        },
{
    let k = String::from_str(key);
    let mut i: usize = 0;
    while i < entries.len()
        invariant
            i <= entries.len(),
            k@ == key@,
            forall|j: int| 0 <= j < i ==> #[trigger] entries@[j].0@ != key@,
        decreases entries.len() - i,
    {
        if entries[i].0 == k {
            assert(entries@[i as int].0@ == key@);
            assert(key_index(entries@, key@) == Some(i as int)) by {
                let c = choose|c: int|
                    0 <= c < entries@.len() && #[trigger] entries@[c].0@ == key@ && forall|j: int|
                        0 <= j < c ==> #[trigger] entries@[j].0@ != key@;
                if c < i {
                } else if c > i {
                    assert(entries@[i as int].0@ != key@);
                }
            }
            return Some(i);
        }
        i += 1;
    }
    None
}

/// Index of the entry under the first of `keys` that is present.
fn find_any_key(entries: &Vec<(String, JsonValue)>, keys: &[&str]) -> (r: Option<usize>)
    ensures
        match r {
            Some(i) => i < entries.len() && entry_of_any(entries@, keys@.map_values(
                |k: &str| k@,
            )) == Some(entries@[i as int].1),
            None => entry_of_any(entries@, keys@.map_values(|k: &str| k@)) is None,
        },
{
    let ghost ks = keys@.map_values(|k: &str| k@);
    let mut i: usize = 0;
    assert(ks.skip(0) =~= ks);
    while i < keys.len()
        invariant
            i <= keys.len(),
            ks == keys@.map_values(|k: &str| k@),
            entry_of_any(entries@, ks) == entry_of_any(entries@, ks.skip(i as int)),
        decreases keys.len() - i,
    {
        let ghost rest = ks.skip(i as int);
        assert(rest[0] == keys@[i as int]@);
        assert(rest.drop_first() =~= ks.skip(i + 1));
        match find_key(entries, keys[i]) {
            Some(j) => {
                return Some(j);
            },
            None => {},
        }
        i += 1;
    }
    assert(ks.skip(i as int) =~= Seq::<Seq<char>>::empty());
    None
}

/// The point that a JSON value stands for.
fn json_to_point(v: &JsonValue) -> (r: Result<RawPoint, String>)
    ensures
        match r {
            Ok(p) => json_point(*v) == Ok::<(Seq<char>, Seq<char>), Seq<char>>(p@),
            Err(m) => json_point(*v) == Err::<(Seq<char>, Seq<char>), Seq<char>>(m@),
        },
{
    let entries = match v {
        JsonValue::Object(entries) => entries,
        _ => {
            return Err(String::from_str("expected JSON object"));
        },
    };
    let tkeys = ["timestamp", "time", "date", "ts"];
    assert(tkeys@.map_values(|k: &str| k@) =~= timestamp_keys());
    let timestamp = match find_any_key(entries, &tkeys) {
        None => {
            return Err(String::from_str("missing 'timestamp' field"));
        },
        Some(i) => match &entries[i].1 {
            JsonValue::Str(s) => s.clone(),
            JsonValue::Number(n) => n.clone(),
            _ => {
                return Err(String::from_str("timestamp must be string or number"));
            },
        },
    };
    let vkeys = ["value", "val", "v"];
    assert(vkeys@.map_values(|k: &str| k@) =~= value_keys());
    match find_any_key(entries, &vkeys) {
        None => Err(String::from_str("missing 'value' field")),
        Some(i) => match &entries[i].1 {
            JsonValue::Number(n) => Ok(RawPoint { timestamp, value: n.clone() }),
            _ => Err(String::from_str("value must be a number")),
        },
    }
}

/// The points of a list of JSON values.
fn json_items_to_points(items: &Vec<JsonValue>) -> (r: Result<Vec<RawPoint>, String>)
    ensures
        match r {
            Ok(ps) => json_points(items@) == Ok::<Seq<(Seq<char>, Seq<char>)>, Seq<char>>(
                points_view(ps@),
            ),
            Err(m) => json_points(items@) == Err::<Seq<(Seq<char>, Seq<char>)>, Seq<char>>(m@),
        },
{
    let mut ps: Vec<RawPoint> = Vec::new();
    let mut i: usize = 0;
    assert(points_view(ps@) =~= seq![]);
    assert(items@.take(0) =~= Seq::<JsonValue>::empty());
    while i < items.len()
        invariant
            i <= items.len(),
            json_points(items@.take(i as int)) == Ok::<
                Seq<(Seq<char>, Seq<char>)>,
                Seq<char>,
            >(points_view(ps@)),
        decreases items.len() - i,
    {
        assert(items@.take(i + 1).drop_last() =~= items@.take(i as int));
        assert(items@.take(i + 1).last() == items@[i as int]);
        let ghost before = ps@;
        match json_to_point(&items[i]) {
            Ok(p) => {
                ps.push(p);
                assert(points_view(ps@) =~= points_view(before).push(p@));
            },
            Err(m) => {
                proof {
                    lemma_json_points_fail_extends(items@, i + 1, m@);
                }
                return Err(m);
            },
        }
        i += 1;
    }
    assert(items@.take(i as int) =~= items@);
    Ok(ps)
}

/// A failing item makes the whole list fail, whatever items follow it.
proof fn lemma_json_points_fail_extends(items: Seq<JsonValue>, k: int, m: Seq<char>)
    requires
        0 <= k <= items.len(),
        json_points(items.take(k)) == Err::<Seq<(Seq<char>, Seq<char>)>, Seq<char>>(m),
    ensures
        json_points(items) == Err::<Seq<(Seq<char>, Seq<char>)>, Seq<char>>(m),
    decreases items.len() - k,
{
    if k < items.len() {
        assert(items.take(k + 1).drop_last() =~= items.take(k));
        lemma_json_points_fail_extends(items, k + 1, m);
    } else {
        assert(items.take(k) =~= items);
    }
}

/// The series that a JSON value stands for.
pub fn parse_json_value(v: &JsonValue, name: &str) -> (res: Result<RawSeries, ReadError>)
    ensures
        outcome(res) == json_value_result(*v),
        res matches Ok(s) ==> s.name@ == name@,
{
    let found = match v {
        JsonValue::Array(items) => json_items_to_points(items),
        JsonValue::Object(entries) => {
            let inner = match find_key(entries, "points") {
                Some(i) => match &entries[i].1 {
                    JsonValue::Array(items) => Some(items),
                    _ => None,
                },
                None => None,
            };
            match inner {
                Some(items) => json_items_to_points(items),
                None => match json_to_point(v) {
                    Ok(p) => {
                        let mut ps = Vec::new();
                        ps.push(p);
                        assert(points_view(ps@) =~= seq![p@]);
                        Ok(ps)
                    },
                    Err(m) => Err(m),
                },
            }
        },
        _ => Err(String::from_str("expected JSON array or object")),
    };
    match found {
        Err(m) => Err(ReadError::Parse(m)),
        Ok(points) => {
            if points.len() == 0 {
                Err(ReadError::Empty)
            } else {
                Ok(RawSeries { name: String::from_str(name), points })
            }
        },
    }
}

/// Parse JSON array of {"timestamp": "...", "value": ...} objects.
pub fn parse_json(content: &str, name: &str) -> (res: Result<RawSeries, ReadError>)
    ensures
        outcome(res) == json_result(content@),
        res matches Ok(s) ==> s.name@ == name@,
{
    match read_json(content) {
        Err(e) => {
            let mut m = String::from_str("JSON: ");
            m.append(e.as_str());
            Err(ReadError::Parse(m))
        },
        Ok(v) => parse_json_value(&v, name),
    }
}

fn jsonl_error_text(line_no: usize, e: &String) -> (s: String)
    ensures
        s@ == jsonl_error_message(line_no as nat, e@),
{
    let mut s = String::from_str("line ");
    push_decimal(&mut s, line_no);
    s.append(": JSON: ");
    s.append(e.as_str());
    assert(s@ =~= jsonl_error_message(line_no as nat, e@));
    s
}

/// Parse JSONL (one JSON object per line).
pub fn parse_jsonl(content: &str, name: &str) -> (res: Result<RawSeries, ReadError>)
    ensures
        outcome(res) == jsonl_result(content@),
        res matches Ok(s) ==> s.name@ == name@,
{
    let v = chars_of(content);
    let n = v.len();
    assert(v@.subrange(0, n as int) =~= v@);
    let mut points: Vec<RawPoint> = Vec::new();
    let mut pos: usize = 0;
    let mut index: usize = 0;
    let ghost mut done: Seq<Seq<char>> = seq![];
    assert(points_view(points@) =~= seq![]);
    while pos < n
        invariant
            pos <= n,
            n == v.len(),
            v@ == content@,
            lines(v@) == done + lines(v@.subrange(pos as int, n as int)),
            index == done.len(),
            index <= pos,
            line_rows(LineFormat::Jsonl, done) == Ok::<Seq<(Seq<char>, Seq<char>)>, Seq<char>>(
                points_view(points@),
            ),
        decreases n - pos,
    {
        let (e, next) = next_line(&v, pos, n);
        let ghost line = v@.subrange(pos as int, e as int);
        let ghost old_done = done;
        let ghost old_points = points@;
        proof {
            done = done.push(line);
            assert(done.drop_last() =~= old_done);
            assert(done + lines(v@.subrange(next as int, n as int)) =~= old_done + (seq![line]
                + lines(v@.subrange(next as int, n as int))));
            assert(lines(v@) == done + lines(v@.subrange(next as int, n as int)));
        }
        let (a, b) = trim_bounds(&v, pos, e);
        if a < b {
            let text = string_of_range(&v, a, b);
            match read_json(text.as_str()) {
                Err(err) => {
                    let msg = jsonl_error_text(index + 1, &err);
                    proof {
                        lemma_rows_fail_extends(
                            LineFormat::Jsonl,
                            done,
                            lines(v@.subrange(next as int, n as int)),
                            msg@,
                        );
                    }
                    return Err(ReadError::Parse(msg));
                },
                Ok(jv) => match json_to_point(&jv) {
                    Err(msg) => {
                        proof {
                            lemma_rows_fail_extends(
                                LineFormat::Jsonl,
                                done,
                                lines(v@.subrange(next as int, n as int)),
                                msg@,
                            );
                        }
                        return Err(ReadError::Parse(msg));
                    },
                    Ok(p) => {
                        points.push(p);
                        assert(points_view(points@) =~= points_view(old_points).push(p@));
                    },
                },
            }
        }
        pos = next;
        index = index + 1;
    }
    assert(v@.subrange(n as int, n as int) =~= Seq::<char>::empty());
    assert(lines(v@) =~= done);
    if points.len() == 0 {
        return Err(ReadError::Empty);
    }
    Ok(RawSeries { name: String::from_str(name), points })
}

// ── Whole inputs ──

/// The points of an input text, or why it has none: the text is trimmed,
/// must not be empty, and is read in the format detected for it.
pub open spec fn text_result(content: Seq<char>) -> Result<Seq<(Seq<char>, Seq<char>)>, ReadFailure> {
    let t = trim(content);
    if t.len() == 0 {
        Err(ReadFailure::Empty)
    } else {
        match format_of(t) {
            Format::Csv => csv_result(t),
            Format::Json => json_result(t),
            Format::Jsonl => jsonl_result(t),
        }
    }
}

/// Parse a time series from the whole text of an input, auto-detecting the format.
pub fn parse_text(content: &str, name: &str) -> (res: Result<RawSeries, ReadError>)
    ensures
        outcome(res) == text_result(content@),
        res matches Ok(s) ==> s.name@ == name@,
{
    let v = chars_of(content);
    assert(v@.subrange(0, v@.len() as int) =~= v@);
    let (a, b) = trim_bounds(&v, 0, v.len());
    if a == b {
        return Err(ReadError::Empty);
    }
    let trimmed = string_of_range(&v, a, b);
    let t = trimmed.as_str();
    match detect_format(t) {
        Format::Csv => parse_csv(t, name),
        Format::Json => parse_json(t, name),
        Format::Jsonl => parse_jsonl(t, name),
    }
}

// ── Laws ──

/// The fields of a line joined back with commas.
pub open spec fn join_fields(fields: Seq<Seq<char>>) -> Seq<char>
    decreases fields.len(),
{
    if fields.len() == 0 {
        seq![]
    } else if fields.len() == 1 {
        fields[0]
    } else {
        join_fields(fields.drop_last()) + seq![','] + fields.last()
    }
}

proof fn lemma_join_push(done: Seq<Seq<char>>, cur: Seq<char>, c: char)
    ensures
        join_fields(done.push(cur.push(c))) == join_fields(done.push(cur)) + seq![c],
{
    assert(done.push(cur.push(c)).drop_last() =~= done);
    assert(done.push(cur).drop_last() =~= done);
    if done.len() == 0 {
        assert(join_fields(done.push(cur)) == cur);
        assert(join_fields(done.push(cur.push(c))) == cur.push(c));
        assert(cur.push(c) =~= cur + seq![c]);
    } else {
        assert(join_fields(done.push(cur.push(c))) =~= join_fields(done) + seq![','] + cur.push(c));
        assert(join_fields(done.push(cur)) =~= join_fields(done) + seq![','] + cur);
    }
}

proof fn lemma_split_join(s: Seq<char>, i: int, cur: Seq<char>, done: Seq<Seq<char>>)
    requires
        0 <= i <= s.len(),
        forall|k: int| 0 <= k < s.len() ==> s[k] != '"',
    ensures
        join_fields(split_fields(s, i, false, cur, done)) == join_fields(done.push(cur)) + s.skip(i),
    decreases s.len() - i,
{
    if i >= s.len() {
        assert(s.skip(i) =~= Seq::<char>::empty());
        assert(join_fields(done.push(cur)) + s.skip(i) =~= join_fields(done.push(cur)));
    } else if s[i] == ',' {
        lemma_split_join(s, i + 1, seq![], done.push(cur));
        let d = done.push(cur);
        assert(d.push(seq![]).drop_last() =~= d);
        assert(join_fields(d.push(seq![])) =~= join_fields(d) + seq![','] + seq![]);
        assert(s.skip(i) =~= seq![','] + s.skip(i + 1));
        assert(join_fields(d.push(seq![])) + s.skip(i + 1) =~= join_fields(d) + s.skip(i));
    } else {
        lemma_split_join(s, i + 1, cur.push(s[i]), done);
        lemma_join_push(done, cur, s[i]);
        assert(s.skip(i) =~= seq![s[i]] + s.skip(i + 1));
        assert(join_fields(done.push(cur)) + seq![s[i]] + s.skip(i + 1) =~= join_fields(
            done.push(cur),
        ) + s.skip(i));
    }
}

/// A line without double quotes is split at its commas: joining its fields
/// back with commas gives the line again.
pub proof fn law_csv_fields_join_back(line: Seq<char>)
    requires
        forall|k: int| 0 <= k < line.len() ==> line[k] != '"',
    ensures
        join_fields(csv_fields(line)) == line,
{
    lemma_split_join(line, 0, seq![], seq![]);
    assert(Seq::<Seq<char>>::empty().push(Seq::<char>::empty()).len() == 1);
    assert(line.skip(0) =~= line);
    assert(Seq::<char>::empty() + line =~= line);
}

proof fn lemma_csv_rows_numeric(ls: Seq<Seq<char>>)
    ensures
        line_rows(LineFormat::Csv, ls) matches Ok(rows) ==> forall|i: int|
            0 <= i < rows.len() ==> is_float_literal(#[trigger] rows[i].1),
    decreases ls.len(),
{
    if ls.len() > 0 {
        lemma_csv_rows_numeric(ls.drop_last());
    }
}

/// Every value that a CSV text yields is a literal that `str::parse::<f64>` accepts.
pub proof fn law_csv_values_are_numbers(content: Seq<char>)
    ensures
        csv_result(content) matches Ok(rows) ==> forall|i: int|
            0 <= i < rows.len() ==> is_float_literal(#[trigger] rows[i].1),
{
    lemma_csv_rows_numeric(lines(content));
}

/// Leading whitespace changes nothing in the format detected for a text.
pub proof fn law_format_ignores_leading_whitespace(content: Seq<char>)
    ensures
        format_of(trim_start(content)) == format_of(content),
{
    crate::text::lemma_trim_start_idempotent(content);
}

/// Whitespace around an input changes nothing in what is read from it.
pub proof fn law_read_ignores_surrounding_whitespace(content: Seq<char>)
    ensures
        text_result(trim(content)) == text_result(content),
{
    crate::text::lemma_trim_idempotent(content);
}

/// A read that succeeds yields at least one point.
pub proof fn law_read_yields_points(content: Seq<char>)
    ensures
        text_result(content) matches Ok(points) ==> points.len() > 0,
{
}

// ── Laws on what each reader yields ──

/// The point that a CSV line with two or more fields and a numeric second
/// field yields: the first field, trimmed, as timestamp and the second
/// field, trimmed, as value, whatever further fields follow.
pub open spec fn csv_row_of(line: Seq<char>) -> (Seq<char>, Seq<char>) {
    let fields = csv_fields(trim(line));
    (trim(fields[0]), trim(fields[1]))
}

/// A CSV data line: not blank, two or more fields, and a second field
/// that is a number once trimmed.
pub open spec fn is_csv_data_line(line: Seq<char>) -> bool {
    let fields = csv_fields(trim(line));
    &&& trim(line).len() > 0
    &&& fields.len() >= 2
    &&& is_float_literal(trim(fields[1]))
}

/// A data line yields its first field as timestamp and its second as value,
/// whatever its position and whatever further fields it has.
pub proof fn law_csv_data_line(line: Seq<char>, index: nat)
    requires
        is_csv_data_line(line),
    ensures
        csv_line(line, index) == LineOutcome::Row(csv_row_of(line).0, csv_row_of(line).1),
{
}

/// A CSV text whose lines are all data lines yields, in order, one point per
/// line: its first field as timestamp, its second as value.
pub proof fn law_csv_reads_every_data_line(content: Seq<char>)
    requires
        lines(content).len() > 0,
        forall|k: int| 0 <= k < lines(content).len() ==> is_csv_data_line(#[trigger] lines(content)[k]),
    ensures
        csv_result(content) == Ok::<Seq<(Seq<char>, Seq<char>)>, ReadFailure>(
            lines(content).map_values(|l: Seq<char>| csv_row_of(l)),
        ),
{
    let ls = lines(content);
    let rows = ls.map_values(|l: Seq<char>| csv_row_of(l));
    assert forall|k: int| 0 <= k <= ls.len() implies line_rows(LineFormat::Csv, #[trigger] ls.take(k))
        == Ok::<Seq<(Seq<char>, Seq<char>)>, Seq<char>>(rows.take(k)) by {
        lemma_csv_rows_prefix(ls, rows, k);
    }
    assert(ls.take(ls.len() as int) =~= ls);
    assert(rows.take(ls.len() as int) =~= rows);
}

proof fn lemma_csv_rows_prefix(ls: Seq<Seq<char>>, rows: Seq<(Seq<char>, Seq<char>)>, k: int)
    requires
        0 <= k <= ls.len(),
        rows == ls.map_values(|l: Seq<char>| csv_row_of(l)),
        forall|j: int| 0 <= j < ls.len() ==> is_csv_data_line(#[trigger] ls[j]),
    ensures
        line_rows(LineFormat::Csv, ls.take(k)) == Ok::<Seq<(Seq<char>, Seq<char>)>, Seq<char>>(
            rows.take(k),
        ),
    decreases k,
{
    if k == 0 {
        assert(ls.take(0) =~= Seq::<Seq<char>>::empty());
        assert(rows.take(0) =~= Seq::<(Seq<char>, Seq<char>)>::empty());
    } else {
        lemma_csv_rows_prefix(ls, rows, k - 1);
        assert(ls.take(k).drop_last() =~= ls.take(k - 1));
        assert(ls.take(k).last() == ls[k - 1]);
        law_csv_data_line(ls[k - 1], (k - 1) as nat);
        assert(rows.take(k) =~= rows.take(k - 1).push(csv_row_of(ls[k - 1])));
    }
}

/// A JSONL text whose lines are all JSON texts of points yields, in order,
/// the point of each line: `points[k]` is what `json_point` reads from the
/// document on line `k`, the same point that a JSON array would give.
pub proof fn law_jsonl_reads_every_point_line(
    content: Seq<char>,
    docs: Seq<JsonValue>,
    points: Seq<(Seq<char>, Seq<char>)>,
)
    requires
        lines(content).len() > 0,
        docs.len() == lines(content).len(),
        points.len() == lines(content).len(),
        forall|k: int|
            0 <= k < lines(content).len() ==> {
                &&& trim(#[trigger] lines(content)[k]).len() > 0
                &&& json_document(trim(lines(content)[k])) == Ok::<JsonValue, Seq<char>>(docs[k])
                &&& json_point(docs[k]) == Ok::<(Seq<char>, Seq<char>), Seq<char>>(points[k])
            },
    ensures
        jsonl_result(content) == Ok::<Seq<(Seq<char>, Seq<char>)>, ReadFailure>(points),
{
    let ls = lines(content);
    assert forall|k: int| 0 <= k <= ls.len() implies line_rows(LineFormat::Jsonl, #[trigger] ls.take(k))
        == Ok::<Seq<(Seq<char>, Seq<char>)>, Seq<char>>(points.take(k)) by {
        lemma_jsonl_rows_prefix(ls, docs, points, k);
    }
    assert(ls.take(ls.len() as int) =~= ls);
    assert(points.take(ls.len() as int) =~= points);
}

proof fn lemma_jsonl_rows_prefix(
    ls: Seq<Seq<char>>,
    docs: Seq<JsonValue>,
    points: Seq<(Seq<char>, Seq<char>)>,
    k: int,
)
    requires
        0 <= k <= ls.len(),
        docs.len() == ls.len(),
        points.len() == ls.len(),
        forall|j: int|
            0 <= j < ls.len() ==> {
                &&& trim(#[trigger] ls[j]).len() > 0
                &&& json_document(trim(ls[j])) == Ok::<JsonValue, Seq<char>>(docs[j])
                &&& json_point(docs[j]) == Ok::<(Seq<char>, Seq<char>), Seq<char>>(points[j])
            },
    ensures
        line_rows(LineFormat::Jsonl, ls.take(k)) == Ok::<Seq<(Seq<char>, Seq<char>)>, Seq<char>>(
            points.take(k),
        ),
    decreases k,
{
    if k == 0 {
        assert(ls.take(0) =~= Seq::<Seq<char>>::empty());
        assert(points.take(0) =~= Seq::<(Seq<char>, Seq<char>)>::empty());
    } else {
        lemma_jsonl_rows_prefix(ls, docs, points, k - 1);
        assert(ls.take(k).drop_last() =~= ls.take(k - 1));
        assert(ls.take(k).last() == ls[k - 1]);
        let l = ls[k - 1];
        assert(trim(l).len() > 0);
        assert(json_document(trim(l)) == Ok::<JsonValue, Seq<char>>(docs[k - 1]));
        assert(points.take(k) =~= points.take(k - 1).push(points[k - 1]));
    }
}

/// The entry at `i` is the first one whose key is `key`.
pub open spec fn first_with_key(entries: Seq<(String, JsonValue)>, key: Seq<char>, i: int) -> bool {
    &&& 0 <= i < entries.len()
    &&& entries[i].0@ == key
    &&& forall|j: int| 0 <= j < i ==> #[trigger] entries[j].0@ != key
}

proof fn lemma_key_index_first(entries: Seq<(String, JsonValue)>, key: Seq<char>, i: int)
    requires
        first_with_key(entries, key, i),
    ensures
        key_index(entries, key) == Some(i),
        entry(entries, key) == Some(entries[i].1),
{
    assert(entries[i].0@ == key);
    let c = choose|c: int|
        0 <= c < entries.len() && #[trigger] entries[c].0@ == key && forall|j: int|
            0 <= j < c ==> #[trigger] entries[j].0@ != key;
    if c < i {
        assert(entries[c].0@ != key);
    } else if c > i {
        assert(entries[i].0@ != key);
    }
}

/// An object whose `timestamp` entry is a string and whose `value` entry is
/// a number stands for the point with exactly that string and that number,
/// wherever the entries stand among the object's entries.
pub proof fn law_json_point_reads_fields(
    v: Vec<(String, JsonValue)>,
    i: int,
    j: int,
    ts: String,
    n: String,
)
    requires
        first_with_key(v@, "timestamp"@, i),
        v@[i].1 == JsonValue::Str(ts),
        first_with_key(v@, "value"@, j),
        v@[j].1 == JsonValue::Number(n),
    ensures
        json_point(JsonValue::Object(v)) == Ok::<(Seq<char>, Seq<char>), Seq<char>>((ts@, n@)),
{
    lemma_key_index_first(v@, "timestamp"@, i);
    lemma_key_index_first(v@, "value"@, j);
    assert(timestamp_keys()[0] == "timestamp"@);
    assert(value_keys()[0] == "value"@);
}

/// The same with a numeric timestamp, which is kept as the number's text.
pub proof fn law_json_point_reads_numeric_timestamp(
    v: Vec<(String, JsonValue)>,
    i: int,
    j: int,
    ts: String,
    n: String,
)
    requires
        first_with_key(v@, "timestamp"@, i),
        v@[i].1 == JsonValue::Number(ts),
        first_with_key(v@, "value"@, j),
        v@[j].1 == JsonValue::Number(n),
    ensures
        json_point(JsonValue::Object(v)) == Ok::<(Seq<char>, Seq<char>), Seq<char>>((ts@, n@)),
{
    lemma_key_index_first(v@, "timestamp"@, i);
    lemma_key_index_first(v@, "value"@, j);
    assert(timestamp_keys()[0] == "timestamp"@);
    assert(value_keys()[0] == "value"@);
}

/// A list of JSON values that all stand for points yields those points, in order.
pub proof fn law_json_points_in_order(items: Seq<JsonValue>, points: Seq<(Seq<char>, Seq<char>)>)
    requires
        items.len() == points.len(),
        forall|k: int|
            0 <= k < items.len() ==> json_point(#[trigger] items[k]) == Ok::<
                (Seq<char>, Seq<char>),
                Seq<char>,
            >(points[k]),
    ensures
        json_points(items) == Ok::<Seq<(Seq<char>, Seq<char>)>, Seq<char>>(points),
    decreases items.len(),
{
    if items.len() > 0 {
        law_json_points_in_order(items.drop_last(), points.drop_last());
        assert(points.drop_last().push(points.last()) =~= points);
    } else {
        assert(points =~= Seq::<(Seq<char>, Seq<char>)>::empty());
    }
}

/// An array yields the points of its items.
pub proof fn law_json_array_points(items: Vec<JsonValue>)
    ensures
        json_value_points(JsonValue::Array(items)) == json_points(items@),
{
}

/// An object with a `points` entry that holds an array yields the points of
/// that array, wherever the entry stands among the object's entries.
pub proof fn law_json_points_entry(v: Vec<(String, JsonValue)>, i: int, items: Vec<JsonValue>)
    requires
        first_with_key(v@, "points"@, i),
        v@[i].1 == JsonValue::Array(items),
    ensures
        json_value_points(JsonValue::Object(v)) == json_points(items@),
{
    lemma_key_index_first(v@, "points"@, i);
}

// ── Law on quoting ──

/// A field written inside a quoted part: each double quote doubled.
pub open spec fn escape_quotes(f: Seq<char>) -> Seq<char>
    decreases f.len(),
{
    if f.len() == 0 {
        seq![]
    } else {
        (if f[0] == '"' {
            seq!['"', '"']
        } else {
            seq![f[0]]
        }) + escape_quotes(f.drop_first())
    }
}

/// A field written as a quoted CSV field.
pub open spec fn quoted_field(f: Seq<char>) -> Seq<char> {
    seq!['"'] + escape_quotes(f) + seq!['"']
}

/// A CSV line that writes each of the fields quoted, separated by commas.
pub open spec fn quoted_line(fields: Seq<Seq<char>>) -> Seq<char>
    decreases fields.len(),
{
    if fields.len() <= 1 {
        if fields.len() == 0 {
            seq![]
        } else {
            quoted_field(fields[0])
        }
    } else {
        quoted_field(fields[0]) + seq![','] + quoted_line(fields.drop_first())
    }
}

/// Reading the escaped text `g` inside a quoted part, up to its closing quote.
proof fn lemma_read_escaped(
    s: Seq<char>,
    p: int,
    g: Seq<char>,
    cur: Seq<char>,
    done: Seq<Seq<char>>,
)
    requires
        0 <= p,
        p + escape_quotes(g).len() < s.len(),
        forall|k: int| 0 <= k < escape_quotes(g).len() ==> s[p + k] == escape_quotes(g)[k],
        s[p + escape_quotes(g).len()] == '"',
        p + escape_quotes(g).len() + 1 == s.len() || s[p + escape_quotes(g).len() + 1] == ',',
    ensures
        split_fields(s, p, true, cur, done) == split_fields(
            s,
            p + escape_quotes(g).len() + 1,
            false,
            cur + g,
            done,
        ),
    decreases g.len(),
{
    let e = escape_quotes(g);
    if g.len() == 0 {
        assert(e.len() == 0);
        assert(cur + g =~= cur);
    } else {
        let rest = g.drop_first();
        let er = escape_quotes(rest);
        if g[0] == '"' {
            assert(e =~= seq!['"', '"'] + er);
            assert(s[p] == e[0]);
            assert(s[p + 1] == e[1]);
            assert forall|k: int| 0 <= k < er.len() implies s[p + 2 + k] == er[k] by {
                assert(s[p + (2 + k)] == e[2 + k]);
            }
            lemma_read_escaped(s, p + 2, rest, cur.push('"'), done);
            assert(cur.push('"') + rest =~= cur + g);
        } else {
            assert(e =~= seq![g[0]] + er);
            assert(s[p] == e[0]);
            assert forall|k: int| 0 <= k < er.len() implies s[p + 1 + k] == er[k] by {
                assert(s[p + (1 + k)] == e[1 + k]);
            }
            lemma_read_escaped(s, p + 1, rest, cur.push(g[0]), done);
            assert(cur.push(g[0]) + rest =~= cur + g);
        }
    }
}

/// Reading a tail of the line made of quoted fields.
proof fn lemma_read_quoted_line(s: Seq<char>, i: int, fields: Seq<Seq<char>>, done: Seq<Seq<char>>)
    requires
        fields.len() > 0,
        0 <= i,
        s.len() == i + quoted_line(fields).len(),
        forall|k: int| 0 <= k < quoted_line(fields).len() ==> s[i + k] == quoted_line(fields)[k],
    ensures
        split_fields(s, i, false, seq![], done) == done + fields,
    decreases fields.len(),
{
    let f = fields[0];
    let e = escape_quotes(f);
    let ql = quoted_line(fields);
    let q = i + 1 + e.len();
    if fields.len() == 1 {
        assert(ql =~= seq!['"'] + e + seq!['"']);
    } else {
        assert(ql =~= seq!['"'] + e + seq!['"'] + seq![','] + quoted_line(fields.drop_first()));
    }
    assert(ql[0] == '"');
    assert(s[i] == '"');
    assert(ql[1 + e.len() as int] == '"');
    assert(s[q] == '"');
    assert forall|k: int| 0 <= k < e.len() implies s[i + 1 + k] == e[k] by {
        assert(s[i + (1 + k)] == ql[1 + k]);
    }
    if fields.len() == 1 {
        assert(q + 1 == s.len());
        lemma_read_escaped(s, i + 1, f, seq![], done);
        assert(Seq::<char>::empty() + f =~= f);
        assert(done.push(f) =~= done + fields);
    } else {
        let rest = fields.drop_first();
        let rl = quoted_line(rest);
        assert(ql[2 + e.len() as int] == ',');
        assert(s[q + 1] == ',');
        lemma_read_escaped(s, i + 1, f, seq![], done);
        assert(Seq::<char>::empty() + f =~= f);
        assert forall|k: int| 0 <= k < rl.len() implies s[q + 2 + k] == rl[k] by {
            assert(s[i + (3 + e.len() + k)] == ql[3 + e.len() + k]);
        }
        lemma_read_quoted_line(s, q + 2, rest, done.push(f));
        assert(done.push(f) + rest =~= done + fields);
    }
}

/// A line that writes fields quoted (with their double quotes doubled) and
/// separated by commas is read back as exactly those fields: a comma or a
/// doubled quote inside a quoted part, in any field, stays in the field.
pub proof fn law_csv_quoted_fields_read_back(fields: Seq<Seq<char>>)
    requires
        fields.len() > 0,
    ensures
        csv_fields(quoted_line(fields)) == fields,
{
    let s = quoted_line(fields);
    lemma_read_quoted_line(s, 0, fields, seq![]);
    assert(Seq::<Seq<char>>::empty() + fields =~= fields);
}

// ── Laws on format detection and dispatch ──

proof fn lemma_count_nonblank_all(ls: Seq<Seq<char>>)
    requires
        forall|k: int| 0 <= k < ls.len() ==> !is_blank(#[trigger] ls[k]),
    ensures
        count_nonblank(ls) == ls.len(),
    decreases ls.len(),
{
    if ls.len() > 0 {
        lemma_count_nonblank_all(ls.drop_last());
    }
}

/// A text whose first non-space character is `[` is JSON; one whose first
/// non-space character is neither `[` nor `{` is CSV.
pub proof fn law_format_by_first_char(content: Seq<char>)
    ensures
        trim_start(content).len() > 0 && trim_start(content)[0] == '[' ==> format_of(content)
            == Format::Json,
        trim_start(content).len() > 0 && trim_start(content)[0] != '[' && trim_start(content)[0]
            != '{' ==> format_of(content) == Format::Csv,
        trim_start(content).len() == 0 ==> format_of(content) == Format::Csv,
{
}

/// A text of two or more lines, none blank and each starting with `{`, is
/// JSONL; a text of a single line that starts with `{` is JSON.
pub proof fn law_format_object_lines(content: Seq<char>)
    ensures
        ({
            let t = trim_start(content);
            let ls = lines(t);
            t.len() > 0 && t[0] == '{' && ls.len() >= 2 && (forall|k: int|
                0 <= k < ls.len() ==> !is_blank(#[trigger] ls[k]) && opens_object(ls[k]))
        }) ==> format_of(content) == Format::Jsonl,
        ({
            let t = trim_start(content);
            t.len() > 0 && t[0] == '{' && lines(t).len() == 1
        }) ==> format_of(content) == Format::Json,
{
    let t = trim_start(content);
    let ls = lines(t);
    if t.len() > 0 && t[0] == '{' && ls.len() >= 2 && (forall|k: int|
        0 <= k < ls.len() ==> !is_blank(#[trigger] ls[k]) && opens_object(ls[k])) {
        lemma_count_nonblank_all(ls);
    }
    if t.len() > 0 && t[0] == '{' && ls.len() == 1 {
        assert(ls.drop_last() =~= Seq::<Seq<char>>::empty());
        assert(count_nonblank(ls.drop_last()) == 0);
        assert(count_nonblank(ls) <= 1);
    }
}

/// A text whose first non-space character is `[` is read as JSON; one whose
/// first non-space character is neither `[` nor `{` is read as CSV.
pub proof fn law_read_dispatch(content: Seq<char>)
    ensures
        trim(content).len() > 0 && trim(content)[0] == '[' ==> text_result(content) == json_result(
            trim(content),
        ),
        trim(content).len() > 0 && trim(content)[0] != '[' && trim(content)[0] != '{'
            ==> text_result(content) == csv_result(trim(content)),
        ({
            let t = trim(content);
            let ls = lines(t);
            t.len() > 0 && t[0] == '{' && ls.len() >= 2 && (forall|k: int|
                0 <= k < ls.len() ==> !is_blank(#[trigger] ls[k]) && opens_object(ls[k]))
        }) ==> text_result(content) == jsonl_result(trim(content)),
        ({
            let t = trim(content);
            t.len() > 0 && t[0] == '{' && lines(t).len() == 1
        }) ==> text_result(content) == json_result(trim(content)),
{
    crate::text::lemma_trim_start_of_trim(content);
    law_format_by_first_char(trim(content));
    law_format_object_lines(trim(content));
}

// ── Laws on headers and single objects ──

/// A CSV header line: not blank, two or more fields, and a second field that
/// is not a number.
pub open spec fn is_csv_header_line(line: Seq<char>) -> bool {
    let fields = csv_fields(trim(line));
    &&& trim(line).len() > 0
    &&& fields.len() >= 2
    &&& !is_float_literal(trim(fields[1]))
}

proof fn lemma_csv_rows_after_header(ls: Seq<Seq<char>>, k: int)
    requires
        1 <= k <= ls.len(),
        is_csv_header_line(ls[0]),
        forall|j: int| 1 <= j < ls.len() ==> is_csv_data_line(#[trigger] ls[j]),
    ensures
        line_rows(LineFormat::Csv, ls.take(k)) == Ok::<Seq<(Seq<char>, Seq<char>)>, Seq<char>>(
            ls.subrange(1, k).map_values(|l: Seq<char>| csv_row_of(l)),
        ),
    decreases k,
{
    if k == 1 {
        assert(ls.take(1).drop_last() =~= Seq::<Seq<char>>::empty());
        assert(ls.take(1).last() == ls[0]);
        assert(csv_line(ls[0], 0) == LineOutcome::Skip);
        assert(line_rows(LineFormat::Csv, Seq::<Seq<char>>::empty()) == Ok::<
            Seq<(Seq<char>, Seq<char>)>,
            Seq<char>,
        >(seq![]));
        assert(ls.subrange(1, 1).map_values(|l: Seq<char>| csv_row_of(l)) =~= Seq::<
            (Seq<char>, Seq<char>),
        >::empty());
    } else {
        lemma_csv_rows_after_header(ls, k - 1);
        assert(ls.take(k).drop_last() =~= ls.take(k - 1));
        assert(ls.take(k).last() == ls[k - 1]);
        law_csv_data_line(ls[k - 1], (k - 1) as nat);
        assert(ls.subrange(1, k).map_values(|l: Seq<char>| csv_row_of(l)) =~= ls.subrange(
            1,
            k - 1,
        ).map_values(|l: Seq<char>| csv_row_of(l)).push(csv_row_of(ls[k - 1])));
    }
}

/// A CSV text whose first line is a header and whose further lines are all
/// data lines yields one point per data line, in order: the header is skipped.
pub proof fn law_csv_skips_header(content: Seq<char>)
    requires
        lines(content).len() >= 2,
        is_csv_header_line(lines(content)[0]),
        forall|k: int| 1 <= k < lines(content).len() ==> is_csv_data_line(#[trigger] lines(content)[k]),
    ensures
        csv_result(content) == Ok::<Seq<(Seq<char>, Seq<char>)>, ReadFailure>(
            lines(content).drop_first().map_values(|l: Seq<char>| csv_row_of(l)),
        ),
{
    let ls = lines(content);
    lemma_csv_rows_after_header(ls, ls.len() as int);
    assert(ls.take(ls.len() as int) =~= ls);
    assert(ls.subrange(1, ls.len() as int) =~= ls.drop_first());
}

/// A value that is not a number on any line but the first is an error that
/// names the line and the value.
pub proof fn law_csv_rejects_late_non_number(line: Seq<char>, index: nat)
    requires
        is_csv_header_line(line),
        index > 0,
    ensures
        csv_line(line, index) == LineOutcome::Fail(
            invalid_value_message(index + 1, trim(csv_fields(trim(line))[1])),
        ),
{
}

/// An object with no `points` entry that stands for a point yields that one point.
pub proof fn law_json_single_object(v: Vec<(String, JsonValue)>, p: (Seq<char>, Seq<char>))
    requires
        forall|k: int| 0 <= k < v@.len() ==> #[trigger] v@[k].0@ != "points"@,
        json_point(JsonValue::Object(v)) == Ok::<(Seq<char>, Seq<char>), Seq<char>>(p),
    ensures
        json_value_points(JsonValue::Object(v)) == Ok::<Seq<(Seq<char>, Seq<char>)>, Seq<char>>(
            seq![p],
        ),
{
}

// ── Laws on key fallbacks and failures ──

/// None of the entries has a key among `keys`.
pub open spec fn no_key_among(entries: Seq<(String, JsonValue)>, keys: Seq<Seq<char>>) -> bool {
    forall|k: int, j: int|
        0 <= k < entries.len() && 0 <= j < keys.len() ==> #[trigger] entries[k].0@ != #[trigger] keys[j]
}

proof fn lemma_entry_of_any_at(entries: Seq<(String, JsonValue)>, keys: Seq<Seq<char>>, p: int, i: int)
    requires
        0 <= p < keys.len(),
        no_key_among(entries, keys.take(p)),
        first_with_key(entries, keys[p], i),
    ensures
        entry_of_any(entries, keys) == Some(entries[i].1),
    decreases p,
{
    if p == 0 {
        lemma_key_index_first(entries, keys[0], i);
    } else {
        assert(keys.take(p)[0] == keys[0]);
        assert(entry(entries, keys[0]) is None) by {
            if exists|c: int| 0 <= c < entries.len() && #[trigger] entries[c].0@ == keys[0] {
                let c = choose|c: int| 0 <= c < entries.len() && #[trigger] entries[c].0@ == keys[0];
                assert(entries[c].0@ != keys.take(p)[0]);
            }
        }
        let rest = keys.drop_first();
        assert forall|k: int, j: int|
            0 <= k < entries.len() && 0 <= j < rest.take(p - 1).len() implies #[trigger] entries[k].0@
            != #[trigger] rest.take(p - 1)[j] by {
            assert(rest.take(p - 1)[j] == keys.take(p)[j + 1]);
        }
        assert(rest[p - 1] == keys[p]);
        lemma_entry_of_any_at(entries, rest, p - 1, i);
    }
}

/// The timestamp is read under the first of `timestamp`, `time`, `date`,
/// `ts` that the object has, and the value under the first of `value`,
/// `val`, `v`; a string timestamp is kept whole.
pub proof fn law_json_point_key_fallbacks(
    v: Vec<(String, JsonValue)>,
    p: int,
    i: int,
    ts: String,
    q: int,
    j: int,
    n: String,
)
    requires
        0 <= p < 4,
        no_key_among(v@, seq!["timestamp"@, "time"@, "date"@, "ts"@].take(p)),
        first_with_key(v@, seq!["timestamp"@, "time"@, "date"@, "ts"@][p], i),
        v@[i].1 == JsonValue::Str(ts) || v@[i].1 == JsonValue::Number(ts),
        0 <= q < 3,
        no_key_among(v@, seq!["value"@, "val"@, "v"@].take(q)),
        first_with_key(v@, seq!["value"@, "val"@, "v"@][q], j),
        v@[j].1 == JsonValue::Number(n),
    ensures
        json_point(JsonValue::Object(v)) == Ok::<(Seq<char>, Seq<char>), Seq<char>>((ts@, n@)),
{
    assert(timestamp_keys() == seq!["timestamp"@, "time"@, "date"@, "ts"@]);
    assert(value_keys() == seq!["value"@, "val"@, "v"@]);
    lemma_entry_of_any_at(v@, timestamp_keys(), p, i);
    lemma_entry_of_any_at(v@, value_keys(), q, j);
}

/// A list of JSON values fails with the error of its first item that does not
/// stand for a point.
pub proof fn law_json_points_first_failure(items: Seq<JsonValue>, k: int, m: Seq<char>)
    requires
        0 <= k < items.len(),
        forall|j: int| 0 <= j < k ==> json_point(#[trigger] items[j]) is Ok,
        json_point(items[k]) == Err::<(Seq<char>, Seq<char>), Seq<char>>(m),
    ensures
        json_points(items) == Err::<Seq<(Seq<char>, Seq<char>)>, Seq<char>>(m),
{
    lemma_json_points_ok_prefix(items, k);
    assert(items.take(k + 1).drop_last() =~= items.take(k));
    assert(items.take(k + 1).last() == items[k]);
    lemma_json_points_fail_extends(items, k + 1, m);
}

proof fn lemma_json_points_ok_prefix(items: Seq<JsonValue>, k: int)
    requires
        0 <= k <= items.len(),
        forall|j: int| 0 <= j < k ==> json_point(#[trigger] items[j]) is Ok,
    ensures
        json_points(items.take(k)) is Ok,
    decreases k,
{
    if k == 0 {
        assert(items.take(0) =~= Seq::<JsonValue>::empty());
    } else {
        lemma_json_points_ok_prefix(items, k - 1);
        assert(items.take(k).drop_last() =~= items.take(k - 1));
        assert(items.take(k).last() == items[k - 1]);
    }
}

/// A line-oriented text fails with the error of its first failing line.
pub proof fn law_lines_first_failure(f: LineFormat, ls: Seq<Seq<char>>, k: int, m: Seq<char>)
    requires
        0 <= k < ls.len(),
        forall|j: int| 0 <= j < k ==> !(line_outcome(f, #[trigger] ls[j], j as nat) is Fail),
        line_outcome(f, ls[k], k as nat) == LineOutcome::Fail(m),
    ensures
        line_rows(f, ls) == Err::<Seq<(Seq<char>, Seq<char>)>, Seq<char>>(m),
{
    lemma_rows_ok_prefix(f, ls, k);
    assert(ls.take(k + 1).drop_last() =~= ls.take(k));
    assert(ls.take(k + 1).last() == ls[k]);
    lemma_rows_fail_extends(f, ls.take(k + 1), ls.skip(k + 1), m);
    assert(ls.take(k + 1) + ls.skip(k + 1) =~= ls);
}

proof fn lemma_rows_ok_prefix(f: LineFormat, ls: Seq<Seq<char>>, k: int)
    requires
        0 <= k <= ls.len(),
        forall|j: int| 0 <= j < k ==> !(line_outcome(f, #[trigger] ls[j], j as nat) is Fail),
    ensures
        line_rows(f, ls.take(k)) is Ok,
    decreases k,
{
    if k == 0 {
        assert(ls.take(0) =~= Seq::<Seq<char>>::empty());
    } else {
        lemma_rows_ok_prefix(f, ls, k - 1);
        assert(ls.take(k).drop_last() =~= ls.take(k - 1));
        assert(ls.take(k).last() == ls[k - 1]);
    }
}

/// An object whose `points` entry is not an array is read as a single point.
pub proof fn law_json_points_entry_not_array(v: Vec<(String, JsonValue)>, i: int)
    requires
        first_with_key(v@, "points"@, i),
        !(v@[i].1 is Array),
    ensures
        json_value_points(JsonValue::Object(v)) == match json_point(JsonValue::Object(v)) {
            Err(m) => Err::<Seq<(Seq<char>, Seq<char>)>, Seq<char>>(m),
            Ok(p) => Ok(seq![p]),
        },
{
    lemma_key_index_first(v@, "points"@, i);
}

/// Lines with nothing but whitespace are skipped, in CSV and in JSONL, at
/// any position.
pub proof fn law_blank_lines_skipped(f: LineFormat, ls: Seq<Seq<char>>, k: int)
    requires
        0 <= k < ls.len(),
        trim(ls[k]).len() == 0,
    ensures
        line_outcome(f, ls[k], k as nat) == LineOutcome::Skip,
        line_rows(f, ls.take(k + 1)) == line_rows(f, ls.take(k)),
{
    assert(ls.take(k + 1).drop_last() =~= ls.take(k));
    assert(ls.take(k + 1).last() == ls[k]);
}

} // verus!
