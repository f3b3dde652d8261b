use tseries::literal::is_float_text;
use tseries::text::is_whitespace;

#[test]
fn whitespace_table_matches_std() {
    for u in 0u32..=0x10FFFF {
        if let Some(c) = char::from_u32(u) {
            assert_eq!(is_whitespace(c), c.is_whitespace(), "U+{u:04X}");
        }
    }
}

#[test]
fn float_syntax_matches_std_parse() {
    let nines = "9".repeat(400);
    let samples = [
        "", "+", "-", ".", "e", "E5", "1", "-1", "+1", "01", "1.", ".5", "-.5", "1.5", "1..5",
        "1.5.2", "1e5", "1E5", "1e+5", "1e-5", "1e", "1e+", "1.e3", ".e3", "e3", "1e3.5", "inf",
        "INF", "-Inf", "+infinity", "Infinity", "infinit", "nan", "NaN", "-nan", "+NAN", "nana",
        " 1", "1 ", "1_000", "0x10", "1e5e5", "١", "1f", "--1", "+-1", nines.as_str(),
        "1e400", "1e-400", "123456789.987654321e-7",
    ];
    for s in samples {
        assert_eq!(is_float_text(s), s.parse::<f64>().is_ok(), "{s:?}");
    }
    let alphabet = ['1', '.', 'e', '+', '-', 'E', 'n', 'a', 'i', 'f', 'x'];
    let mut buf = String::new();
    fn walk(buf: &mut String, alphabet: &[char], depth: usize) {
        assert_eq!(is_float_text(buf), buf.parse::<f64>().is_ok(), "{buf:?}");
        if depth == 0 {
            return;
        }
        for &c in alphabet {
            buf.push(c);
            walk(buf, alphabet, depth - 1);
            buf.pop();
        }
    }
    walk(&mut buf, &alphabet, 4);
}
