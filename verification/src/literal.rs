//! The syntax of decimal floating-point literals that `str::parse::<f64>`
//! accepts:
//!
//! ```text
//! Float  ::= Sign? ( 'inf' | 'infinity' | 'nan' | Number )
//! Number ::= ( Digit+ | Digit+ '.' Digit* | Digit* '.' Digit+ ) Exp?
//! Exp    ::= 'e' Sign? Digit+
//! Sign   ::= [+-]
//! Digit  ::= [0-9]
//! ```
//!
//! where letters match in either case.
use vstd::prelude::*;

verus! {

pub open spec fn is_digit(c: char) -> bool {
    '0' <= c <= '9'
}

pub open spec fn is_sign(c: char) -> bool {
    c == '+' || c == '-'
}

pub open spec fn all_digits(s: Seq<char>) -> bool {
    forall|i: int| 0 <= i < s.len() ==> is_digit(#[trigger] s[i])
}

/// `c` is the lower-case ASCII letter `w`, in either case.
pub open spec fn same_letter(c: char, w: char) -> bool {
    c == w || ('A' <= c <= 'Z' && c as u32 + 32 == w as u32)
}

/// `s` spells the lower-case word `w`, ignoring ASCII case.
pub open spec fn spells(s: Seq<char>, w: Seq<char>) -> bool {
    s.len() == w.len() && forall|i: int| 0 <= i < s.len() ==> same_letter(#[trigger] s[i], w[i])
}

/// Index of the first `c1` or `c2` at or after `i`, or the length when there is none.
pub open spec fn first_of(s: Seq<char>, c1: char, c2: char, i: int) -> int
    decreases s.len() - i,
{
    if i >= s.len() {
        s.len() as int
    } else if s[i] == c1 || s[i] == c2 {
        i
    } else {
        first_of(s, c1, c2, i + 1)
    }
}

/// `Digit+ | Digit+ '.' Digit* | Digit* '.' Digit+`.
pub open spec fn is_mantissa(m: Seq<char>) -> bool {
    let d = first_of(m, '.', '.', 0);
    if d == m.len() {
        m.len() > 0 && all_digits(m)
    } else {
        m.len() >= 2 && all_digits(m.take(d)) && all_digits(m.skip(d + 1))
    }
}

/// `'e' Sign? Digit+`.
pub open spec fn is_exponent(e: Seq<char>) -> bool {
    &&& e.len() >= 2
    &&& same_letter(e[0], 'e')
    &&& if is_sign(e[1]) {
        e.len() >= 3 && all_digits(e.skip(2))
    } else {
        all_digits(e.skip(1))
    }
}

/// `Number`: a mantissa, then an optional exponent starting at the first `e`.
pub open spec fn is_number(s: Seq<char>) -> bool {
    let k = first_of(s, 'e', 'E', 0);
    is_mantissa(s.take(k)) && (k == s.len() || is_exponent(s.skip(k)))
}

/// `Float`: the texts that `str::parse::<f64>` turns into a value.
pub open spec fn is_float_literal(s: Seq<char>) -> bool {
    let u = if s.len() > 0 && is_sign(s[0]) {
        s.skip(1)
    } else {
        s
    };
    ||| spells(u, seq!['i', 'n', 'f'])
    ||| spells(u, seq!['i', 'n', 'f', 'i', 'n', 'i', 't', 'y'])
    ||| spells(u, seq!['n', 'a', 'n'])
    ||| is_number(u)
}

proof fn lemma_first_of_is(s: Seq<char>, c1: char, c2: char, i: int, j: int)
    requires
        0 <= i <= j <= s.len(),
        forall|k: int| i <= k < j ==> s[k] != c1 && s[k] != c2,
        j == s.len() || s[j] == c1 || s[j] == c2,
    ensures
        first_of(s, c1, c2, i) == j,
    decreases j - i,
{
    if i < j {
        lemma_first_of_is(s, c1, c2, i + 1, j);
    }
}

fn is_digit_char(c: char) -> (b: bool)
    ensures
        b == is_digit(c),
{
    '0' <= c && c <= '9'
}

/// Position of the first `c1` or `c2` in `v[lo..hi]`, or `hi`.
fn find_either(v: &Vec<char>, lo: usize, hi: usize, c1: char, c2: char) -> (k: usize)
    requires
        lo <= hi <= v.len(),
    ensures
        lo <= k <= hi,
        first_of(v@.subrange(lo as int, hi as int), c1, c2, 0) == k - lo,
{
    let mut k = lo;
    while k < hi && v[k] != c1 && v[k] != c2
        invariant
            lo <= k <= hi,
            hi <= v.len(),
            forall|j: int| lo <= j < k ==> v@[j] != c1 && v@[j] != c2,
        decreases hi - k,
    {
        k += 1;
    }
    proof {
        lemma_first_of_is(v@.subrange(lo as int, hi as int), c1, c2, 0, k - lo);
    }
    k
}

/// Whether every character of `v[lo..hi]` is a decimal digit.
fn digits_only(v: &Vec<char>, lo: usize, hi: usize) -> (b: bool)
    requires
        lo <= hi <= v.len(),
    ensures
        b == all_digits(v@.subrange(lo as int, hi as int)),
{
    let mut k = lo;
    while k < hi
        invariant
            lo <= k <= hi,
            hi <= v.len(),
            forall|j: int| lo <= j < k ==> is_digit(v@[j]),
        decreases hi - k,
    {
        if !is_digit_char(v[k]) {
            assert(v@.subrange(lo as int, hi as int)[k - lo] == v@[k as int]);
            return false;
        }
        k += 1;
    }
    assert forall|i: int| 0 <= i < hi - lo implies is_digit(
        #[trigger] v@.subrange(lo as int, hi as int)[i],
    ) by {
        assert(v@.subrange(lo as int, hi as int)[i] == v@[lo + i]);
    }
    true
}

/// Whether `v[lo..hi]` spells the lower-case word `w`, ignoring ASCII case.
fn spells_range(v: &Vec<char>, lo: usize, hi: usize, w: &[char]) -> (b: bool)
    requires
        lo <= hi <= v.len(),
        forall|i: int| 0 <= i < w@.len() ==> 'a' <= #[trigger] w@[i] <= 'z',
    ensures
        b == spells(v@.subrange(lo as int, hi as int), w@),
{
    let ghost s = v@.subrange(lo as int, hi as int);
    if hi - lo != w.len() {
        return false;
    }
    let mut k: usize = 0;
    while k < w.len()
        invariant
            lo <= hi <= v.len(),
            hi - lo == w@.len(),
            s == v@.subrange(lo as int, hi as int),
            forall|i: int| 0 <= i < w@.len() ==> 'a' <= #[trigger] w@[i] <= 'z',
            0 <= k <= w.len(),
            forall|i: int| 0 <= i < k ==> same_letter(#[trigger] s[i], w@[i]),
        decreases w.len() - k,
    {
        let c = v[lo + k];
        let x = w[k];
        assert(s[k as int] == c);
        let same = c == x || ('A' <= c && c <= 'Z' && (c as u32) + 32 == (x as u32));
        if !same {
            return false;
        }
        k += 1;
    }
    true
}

/// Whether `v[lo..hi]` is a mantissa.
fn mantissa_range(v: &Vec<char>, lo: usize, hi: usize) -> (b: bool)
    requires
        lo <= hi <= v.len(),
    ensures
        b == is_mantissa(v@.subrange(lo as int, hi as int)),
{
    let ghost m = v@.subrange(lo as int, hi as int);
    let d = find_either(v, lo, hi, '.', '.');
    if d == hi {
        hi > lo && digits_only(v, lo, hi)
    } else {
        assert(m.take(d - lo) =~= v@.subrange(lo as int, d as int));
        assert(m.skip(d - lo + 1) =~= v@.subrange(d + 1, hi as int));
        hi - lo >= 2 && digits_only(v, lo, d) && digits_only(v, d + 1, hi)
    }
}

/// Whether `v[lo..hi]` is an exponent.
fn exponent_range(v: &Vec<char>, lo: usize, hi: usize) -> (b: bool)
    requires
        lo <= hi <= v.len(),
    ensures
        b == is_exponent(v@.subrange(lo as int, hi as int)),
{
    let ghost e = v@.subrange(lo as int, hi as int);
    if hi - lo < 2 {
        return false;
    }
    let c = v[lo];
    assert(e[0] == c);
    if !(c == 'e' || c == 'E') {
        return false;
    }
    let s = v[lo + 1];
    assert(e[1] == s);
    if s == '+' || s == '-' {
        assert(e.skip(2) =~= v@.subrange(lo + 2, hi as int));
        hi - lo >= 3 && digits_only(v, lo + 2, hi)
    } else {
        assert(e.skip(1) =~= v@.subrange(lo + 1, hi as int));
        digits_only(v, lo + 1, hi)
    }
}

/// Whether `v[lo..hi]` is a text that `str::parse::<f64>` accepts.
pub fn float_literal_range(v: &Vec<char>, lo: usize, hi: usize) -> (b: bool)
    requires
        lo <= hi <= v.len(),
    ensures
        b == is_float_literal(v@.subrange(lo as int, hi as int)),
{
    let ghost s = v@.subrange(lo as int, hi as int);
    let mut a = lo;
    if a < hi && (v[a] == '+' || v[a] == '-') {
        assert(s[0] == v@[lo as int]);
        a = a + 1;
        assert(s.skip(1) =~= v@.subrange(a as int, hi as int));
    } else {
        assert(hi > lo ==> s[0] == v@[lo as int]);
    }
    let inf = ['i', 'n', 'f'];
    let infinity = ['i', 'n', 'f', 'i', 'n', 'i', 't', 'y'];
    let nan = ['n', 'a', 'n'];
    assert(inf@ =~= seq!['i', 'n', 'f']);
    assert(infinity@ =~= seq!['i', 'n', 'f', 'i', 'n', 'i', 't', 'y']);
    assert(nan@ =~= seq!['n', 'a', 'n']);
    if spells_range(v, a, hi, &inf) || spells_range(v, a, hi, &infinity) || spells_range(
        v,
        a,
        hi,
        &nan,
    ) {
        return true;
    }
    let ghost u = v@.subrange(a as int, hi as int);
    let k = find_either(v, a, hi, 'e', 'E');
    assert(u.take(k - a) =~= v@.subrange(a as int, k as int));
    assert(u.skip(k - a) =~= v@.subrange(k as int, hi as int));
    if !mantissa_range(v, a, k) {
        return false;
    }
    if k == hi {
        return true;
    }
    exponent_range(v, k, hi)
}

/// Whether `text` is a text that `str::parse::<f64>` accepts.
pub fn is_float_text(text: &str) -> (b: bool)
    ensures
        b == is_float_literal(text@),
{
    let v = crate::text::chars_of(text);
    assert(v@.subrange(0, v@.len() as int) =~= v@);
    float_literal_range(&v, 0, v.len())
}

// ── The grammar, stated by its parts ──

/// An optional sign: nothing, `+` or `-`.
pub open spec fn is_sign_text(s: Seq<char>) -> bool {
    s.len() == 0 || s == seq!['+'] || s == seq!['-']
}

/// The text `Sign? Digits ('.' Digits)? ('e' Sign? Digits)?` built from its
/// parts: the sign, the integer digits `a`, whether a dot follows, the
/// fraction digits `b`, and, when there is an exponent, its letter, its
/// sign and its digits `c`.
pub open spec fn number_text(
    sign: Seq<char>,
    a: Seq<char>,
    dot: bool,
    b: Seq<char>,
    has_exp: bool,
    e: char,
    esign: Seq<char>,
    c: Seq<char>,
) -> Seq<char> {
    sign + a + (if dot {
        seq!['.']
    } else {
        seq![]
    }) + b + (if has_exp {
        seq![e] + esign + c
    } else {
        seq![]
    })
}

/// The parts of a number as the grammar allows them: digits on at least one
/// side of a dot (on the left when there is no dot), and an exponent of an
/// `e` or `E`, an optional sign and one or more digits.
pub open spec fn number_parts_ok(
    sign: Seq<char>,
    a: Seq<char>,
    dot: bool,
    b: Seq<char>,
    has_exp: bool,
    e: char,
    esign: Seq<char>,
    c: Seq<char>,
) -> bool {
    &&& is_sign_text(sign)
    &&& all_digits(a)
    &&& all_digits(b)
    &&& if dot {
        a.len() + b.len() > 0
    } else {
        a.len() > 0 && b.len() == 0
    }
    &&& has_exp ==> {
        &&& e == 'e' || e == 'E'
        &&& is_sign_text(esign)
        &&& c.len() > 0
        &&& all_digits(c)
    }
}

/// An optional sign followed by `inf`, `infinity` or `nan` in any case.
pub open spec fn is_word_literal(s: Seq<char>) -> bool {
    let u = if s.len() > 0 && is_sign(s[0]) {
        s.skip(1)
    } else {
        s
    };
    ||| spells(u, seq!['i', 'n', 'f'])
    ||| spells(u, seq!['i', 'n', 'f', 'i', 'n', 'i', 't', 'y'])
    ||| spells(u, seq!['n', 'a', 'n'])
}

proof fn lemma_accepts_number(
    sign: Seq<char>,
    a: Seq<char>,
    dot: bool,
    b: Seq<char>,
    has_exp: bool,
    e: char,
    esign: Seq<char>,
    c: Seq<char>,
)
    requires
        number_parts_ok(sign, a, dot, b, has_exp, e, esign, c),
    ensures
        is_float_literal(number_text(sign, a, dot, b, has_exp, e, esign, c)),
{
    let dp: Seq<char> = if dot {
        seq!['.']
    } else {
        seq![]
    };
    let m = a + dp + b;
    let x: Seq<char> = if has_exp {
        seq![e] + esign + c
    } else {
        seq![]
    };
    let u = m + x;
    let s = number_text(sign, a, dot, b, has_exp, e, esign, c);
    assert(s =~= sign + u);
    assert(u.len() > 0);
    assert(u[0] == m[0]);
    if a.len() > 0 {
        assert(m[0] == a[0]);
        assert(is_digit(a[0]));
    } else {
        assert(m[0] == '.');
    }
    if sign.len() > 0 {
        assert(s[0] == sign[0]);
        assert(s.skip(1) =~= u);
    } else {
        assert(s =~= u);
    }
    // the mantissa ends at the exponent letter
    assert forall|k: int| 0 <= k < m.len() implies u[k] != 'e' && u[k] != 'E' by {
        assert(u[k] == m[k]);
        if k < a.len() {
            assert(m[k] == a[k]);
            assert(is_digit(a[k]));
        } else if dot && k == a.len() {
            assert(m[k] == '.');
        } else {
            assert(m[k] == b[k - a.len() - dp.len()]);
            assert(is_digit(b[k - a.len() - dp.len()]));
        }
    }
    if has_exp {
        assert(u[m.len() as int] == e);
    }
    lemma_first_of_is(u, 'e', 'E', 0, m.len() as int);
    assert(u.take(m.len() as int) =~= m);
    assert(u.skip(m.len() as int) =~= x);
    // the dot, if any, follows the integer digits
    assert forall|k: int| 0 <= k < a.len() implies m[k] != '.' && m[k] != '.' by {
        assert(m[k] == a[k]);
        assert(is_digit(a[k]));
    }
    if dot {
        assert(m[a.len() as int] == '.');
        lemma_first_of_is(m, '.', '.', 0, a.len() as int);
        assert(m.take(a.len() as int) =~= a);
        assert(m.skip(a.len() + 1int) =~= b);
    } else {
        assert(m =~= a);
        lemma_first_of_is(m, '.', '.', 0, a.len() as int);
    }
    if has_exp {
        assert(x[0] == e);
        if esign.len() > 0 {
            assert(x[1] == esign[0]);
            assert(x.skip(2) =~= c);
        } else {
            assert(x[1] == c[0]);
            assert(is_digit(c[0]));
            assert(x.skip(1) =~= c);
        }
    }
}

/// The texts that `str::parse::<f64>` accepts are exactly those of the
/// grammar: an optional sign followed by `inf`, `infinity` or `nan` in any
/// case, or an optional sign, digits with an optional dot and digits (with
/// a digit on at least one side), and an optional exponent; each part may
/// be as long as it likes.
pub proof fn law_float_literal_grammar(s: Seq<char>)
    ensures
        is_float_literal(s) <==> (is_word_literal(s) || exists|
            sign: Seq<char>,
            a: Seq<char>,
            dot: bool,
            b: Seq<char>,
            has_exp: bool,
            e: char,
            esign: Seq<char>,
            c: Seq<char>,
        |
            number_parts_ok(sign, a, dot, b, has_exp, e, esign, c) && #[trigger] number_text(
                sign,
                a,
                dot,
                b,
                has_exp,
                e,
                esign,
                c,
            ) == s),
{
    if exists|
        sign: Seq<char>,
        a: Seq<char>,
        dot: bool,
        b: Seq<char>,
        has_exp: bool,
        e: char,
        esign: Seq<char>,
        c: Seq<char>,
    |
        number_parts_ok(sign, a, dot, b, has_exp, e, esign, c) && #[trigger] number_text(
            sign,
            a,
            dot,
            b,
            has_exp,
            e,
            esign,
            c,
        ) == s {
        let (sign, a, dot, b, has_exp, e, esign, c) = choose|
            sign: Seq<char>,
            a: Seq<char>,
            dot: bool,
            b: Seq<char>,
            has_exp: bool,
            e: char,
            esign: Seq<char>,
            c: Seq<char>,
        |
            number_parts_ok(sign, a, dot, b, has_exp, e, esign, c) && #[trigger] number_text(
                sign,
                a,
                dot,
                b,
                has_exp,
                e,
                esign,
                c,
            ) == s;
        lemma_accepts_number(sign, a, dot, b, has_exp, e, esign, c);
    }
    if is_float_literal(s) && !is_word_literal(s) {
        let r = number_parts_of(s);
        assert(number_parts_ok(r.0, r.1, r.2, r.3, r.4, r.5, r.6, r.7) && number_text(
            r.0,
            r.1,
            r.2,
            r.3,
            r.4,
            r.5,
            r.6,
            r.7,
        ) == s);
    }
}

/// The parts of a number text, as the grammar splits it.
proof fn number_parts_of(s: Seq<char>) -> (r: (
    Seq<char>,
    Seq<char>,
    bool,
    Seq<char>,
    bool,
    char,
    Seq<char>,
    Seq<char>,
))
    requires
        is_float_literal(s),
        !is_word_literal(s),
    ensures
        number_parts_ok(r.0, r.1, r.2, r.3, r.4, r.5, r.6, r.7),
        number_text(r.0, r.1, r.2, r.3, r.4, r.5, r.6, r.7) == s,
{
    let signed = s.len() > 0 && is_sign(s[0]);
    let sign: Seq<char> = if signed {
        seq![s[0]]
    } else {
        seq![]
    };
    let u = if signed {
        s.skip(1)
    } else {
        s
    };
    assert(s =~= sign + u);
    assert(is_number(u));
    let k = first_of(u, 'e', 'E', 0);
    lemma_first_of_bounds(u, 'e', 'E', 0);
    let m = u.take(k);
    let x = u.skip(k);
    assert(u =~= m + x);
    let d = first_of(m, '.', '.', 0);
    lemma_first_of_bounds(m, '.', '.', 0);
    let dot = d < m.len();
    let a = m.take(d);
    let b: Seq<char> = if dot {
        m.skip(d + 1)
    } else {
        seq![]
    };
    if dot {
        assert(m =~= a + seq!['.'] + b);
    } else {
        assert(m =~= a + Seq::<char>::empty() + b);
        assert(a =~= m);
    }
    let has_exp = k < u.len();
    let e = if has_exp {
        x[0]
    } else {
        'e'
    };
    let esigned = has_exp && is_sign(x[1]);
    let esign: Seq<char> = if esigned {
        seq![x[1]]
    } else {
        seq![]
    };
    let c: Seq<char> = if has_exp {
        if esigned {
            x.skip(2)
        } else {
            x.skip(1)
        }
    } else {
        seq![]
    };
    if has_exp {
        assert(x =~= seq![e] + esign + c);
        if !(e == 'e') {
            assert('A' <= e <= 'Z' && e as u32 + 32 == 'e' as u32);
            assert(e as u32 == 'E' as u32);
        }
    } else {
        assert(x =~= Seq::<char>::empty());
    }
    assert(number_parts_ok(sign, a, dot, b, has_exp, e, esign, c));
    assert(number_text(sign, a, dot, b, has_exp, e, esign, c) =~= s);
    (sign, a, dot, b, has_exp, e, esign, c)
}

proof fn lemma_first_of_bounds(s: Seq<char>, c1: char, c2: char, i: int)
    requires
        0 <= i <= s.len(),
    ensures
        i <= first_of(s, c1, c2, i) <= s.len(),
        first_of(s, c1, c2, i) < s.len() ==> (s[first_of(s, c1, c2, i)] == c1 || s[first_of(
            s,
            c1,
            c2,
            i,
        )] == c2),
    decreases s.len() - i,
{
    if i < s.len() && s[i] != c1 && s[i] != c2 {
        lemma_first_of_bounds(s, c1, c2, i + 1);
    }
}

/// Every text of digits, a dot and digits is a number, however many digits
/// stand on either side.
pub proof fn law_decimal_fraction_is_number(a: Seq<char>, b: Seq<char>)
    requires
        all_digits(a),
        all_digits(b),
        a.len() > 0,
        b.len() > 0,
    ensures
        is_float_literal(a + seq!['.'] + b),
{
    lemma_accepts_number(seq![], a, true, b, false, 'e', seq![], seq![]);
    assert(number_text(seq![], a, true, b, false, 'e', seq![], seq![]) =~= a + seq!['.'] + b);
}

} // verus!
