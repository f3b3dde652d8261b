//! Character-level text model: whitespace, trimming, line splitting and
//! decimal rendering of counters, stated over `Seq<char>` and implemented
//! over `Vec<char>` buffers.
use vstd::prelude::*;

verus! {

/// `String::push` appends one character to the end of the string.
pub assume_specification[ String::push ](s: &mut String, ch: char)
    ensures
        final(s)@ == old(s)@.push(ch),
;

/// The Unicode `White_Space` set, which is exactly what `char::is_whitespace` accepts.
pub open spec fn is_ws(c: char) -> bool {
    let u = c as u32;
    ||| 0x09 <= u <= 0x0D
    ||| u == 0x20
    ||| u == 0x85
    ||| u == 0xA0
    ||| u == 0x1680
    ||| 0x2000 <= u <= 0x200A
    ||| u == 0x2028
    ||| u == 0x2029
    ||| u == 0x202F
    ||| u == 0x205F
    ||| u == 0x3000
}

/// The text with its leading whitespace removed (`str::trim_start`).
pub open spec fn trim_start(s: Seq<char>) -> Seq<char>
    decreases s.len(),
{
    if s.len() > 0 && is_ws(s[0]) {
        trim_start(s.drop_first())
    } else {
        s
    }
}

/// The text with its trailing whitespace removed (`str::trim_end`).
pub open spec fn trim_end(s: Seq<char>) -> Seq<char>
    decreases s.len(),
{
    if s.len() > 0 && is_ws(s.last()) {
        trim_end(s.drop_last())
    } else {
        s
    }
}

/// The text with whitespace removed at both ends (`str::trim`).
pub open spec fn trim(s: Seq<char>) -> Seq<char> {
    trim_end(trim_start(s))
}

/// Index of the first `'\n'` at or after `i`, or the length when there is none.
pub open spec fn next_newline(s: Seq<char>, i: int) -> int
    decreases s.len() - i,
{
    if i >= s.len() {
        s.len() as int
    } else if s[i] == '\n' {
        i
    } else {
        next_newline(s, i + 1)
    }
}

/// A line without its carriage return, when one ends it.
pub open spec fn strip_cr(l: Seq<char>) -> Seq<char> {
    if l.len() > 0 && l.last() == '\r' {
        l.drop_last()
    } else {
        l
    }
}

/// The lines of a text, as `str::lines` yields them: split at `'\n'`, a
/// `'\r'` right before a `'\n'` dropped, and no empty line after a final `'\n'`.
pub open spec fn lines(s: Seq<char>) -> Seq<Seq<char>>
    decreases s.len(),
{
    if s.len() == 0 {
        seq![]
    } else {
        let k = next_newline(s, 0);
        if k >= s.len() {
            seq![s]
        } else {
            proof {
                lemma_next_newline_bounds(s, 0);
            }
            seq![strip_cr(s.take(k))] + lines(s.skip(k + 1))
        }
    }
}

/// The decimal digit for a value below ten.
pub open spec fn digit_char(d: nat) -> char {
    if d == 0 { '0' }
    else if d == 1 { '1' }
    else if d == 2 { '2' }
    else if d == 3 { '3' }
    else if d == 4 { '4' }
    else if d == 5 { '5' }
    else if d == 6 { '6' }
    else if d == 7 { '7' }
    else if d == 8 { '8' }
    else { '9' }
}

/// The decimal rendering of a natural number, as `{}` formats an integer.
pub open spec fn decimal(n: nat) -> Seq<char>
    decreases n,
{
    if n < 10 {
        seq![digit_char(n)]
    } else {
        decimal(n / 10).push(digit_char(n % 10))
    }
}

pub proof fn lemma_next_newline_bounds(s: Seq<char>, i: int)
    requires
        0 <= i <= s.len(),
    ensures
        i <= next_newline(s, i) <= s.len(),
        next_newline(s, i) < s.len() ==> s[next_newline(s, i)] == '\n',
        forall|j: int| i <= j < next_newline(s, i) ==> s[j] != '\n',
    decreases s.len() - i,
{
    if i < s.len() && s[i] != '\n' {
        lemma_next_newline_bounds(s, i + 1);
    }
}

/// `next_newline` is the position that a scan for the first `'\n'` stops at.
pub proof fn lemma_next_newline_is(s: Seq<char>, i: int, j: int)
    requires
        0 <= i <= j <= s.len(),
        forall|k: int| i <= k < j ==> s[k] != '\n',
        j == s.len() || s[j] == '\n',
    ensures
        next_newline(s, i) == j,
    decreases j - i,
{
    if i < j {
        lemma_next_newline_is(s, i + 1, j);
    }
}

/// `char::is_whitespace`, decided by the `White_Space` table.
pub fn is_whitespace(c: char) -> (b: bool)
    ensures
        b == is_ws(c),
{
    let u = c as u32;
    (0x09 <= u && u <= 0x0D) || u == 0x20 || u == 0x85 || u == 0xA0 || u == 0x1680 || (0x2000
        <= u && u <= 0x200A) || u == 0x2028 || u == 0x2029 || u == 0x202F || u == 0x205F || u
        == 0x3000
}

/// The characters of a string slice, in order.
pub fn chars_of(s: &str) -> (v: Vec<char>)
    ensures
        v@ == s@,
{
    let mut v: Vec<char> = Vec::new();
    for c in it: s.chars()
        invariant
            v@ == it.seq().take(it.index() as int),
            it.seq() == s@,
    {
        v.push(c);
    }
    v
}

/// Start of the text `v[lo..hi]` once its leading whitespace is skipped.
pub fn skip_ws(v: &Vec<char>, lo: usize, hi: usize) -> (k: usize)
    requires
        lo <= hi <= v.len(),
    ensures
        lo <= k <= hi,
        trim_start(v@.subrange(lo as int, hi as int)) == v@.subrange(k as int, hi as int),
{
    let mut k = lo;
    while k < hi && is_whitespace(v[k])
        invariant
            lo <= k <= hi,
            hi <= v.len(),
            trim_start(v@.subrange(lo as int, hi as int)) == trim_start(
                v@.subrange(k as int, hi as int),
            ),
        decreases hi - k,
    {
        assert(v@.subrange(k as int, hi as int).drop_first() =~= v@.subrange(
            k + 1,
            hi as int,
        ));
        k += 1;
    }
    k
}

/// End of the text `v[lo..hi]` once its trailing whitespace is dropped.
pub fn end_before_ws(v: &Vec<char>, lo: usize, hi: usize) -> (k: usize)
    requires
        lo <= hi <= v.len(),
    ensures
        lo <= k <= hi,
        trim_end(v@.subrange(lo as int, hi as int)) == v@.subrange(lo as int, k as int),
{
    let mut k = hi;
    while k > lo && is_whitespace(v[k - 1])
        invariant
            lo <= k <= hi,
            hi <= v.len(),
            trim_end(v@.subrange(lo as int, hi as int)) == trim_end(
                v@.subrange(lo as int, k as int),
            ),
        decreases k - lo,
    {
        assert(v@.subrange(lo as int, k as int).drop_last() =~= v@.subrange(
            lo as int,
            k - 1,
        ));
        k -= 1;
    }
    k
}

/// Bounds of the text `v[lo..hi]` once trimmed at both ends.
pub fn trim_bounds(v: &Vec<char>, lo: usize, hi: usize) -> (r: (usize, usize))
    requires
        lo <= hi <= v.len(),
    ensures
        lo <= r.0 <= r.1 <= hi,
        trim(v@.subrange(lo as int, hi as int)) == v@.subrange(r.0 as int, r.1 as int),
{
    let a = skip_ws(v, lo, hi);
    let b = end_before_ws(v, a, hi);
    (a, b)
}

/// Position of the first `'\n'` in `v[lo..hi]`, or `hi` when there is none.
pub fn find_newline(v: &Vec<char>, lo: usize, hi: usize) -> (k: usize)
    requires
        lo <= hi <= v.len(),
    ensures
        lo <= k <= hi,
        next_newline(v@.subrange(lo as int, hi as int), 0) == k - lo,
{
    let mut k = lo;
    while k < hi && v[k] != '\n'
        invariant
            lo <= k <= hi,
            hi <= v.len(),
            forall|j: int| lo <= j < k ==> v@[j] != '\n',
        decreases hi - k,
    {
        k += 1;
    }
    proof {
        let s = v@.subrange(lo as int, hi as int);
        lemma_next_newline_is(s, 0, k - lo);
    }
    k
}

/// The line that starts at `lo` in `v[..hi]`: the end of its content and
/// where the next line starts, so that `lines(v[lo..hi])` is that line
/// followed by `lines(v[next..hi])`.
pub fn next_line(v: &Vec<char>, lo: usize, hi: usize) -> (r: (usize, usize))
    requires
        lo < hi <= v.len(),
    ensures
        lo <= r.0 <= r.1 <= hi,
        lo < r.1,
        lines(v@.subrange(lo as int, hi as int)) == seq![v@.subrange(lo as int, r.0 as int)]
            + lines(v@.subrange(r.1 as int, hi as int)),
{
    let k = find_newline(v, lo, hi);
    let ghost s = v@.subrange(lo as int, hi as int);
    if k == hi {
        assert(lines(v@.subrange(hi as int, hi as int)) =~= seq![]);
        assert(s.take(s.len() as int) =~= s);
        (hi, hi)
    } else {
        assert(s.skip(k - lo + 1) =~= v@.subrange(k + 1, hi as int));
        assert(s.take(k - lo) =~= v@.subrange(lo as int, k as int));
        if k > lo && v[k - 1] == '\r' {
            assert(v@.subrange(lo as int, k as int).drop_last() =~= v@.subrange(
                lo as int,
                k - 1,
            ));
            (k - 1, k + 1)
        } else {
            (k, k + 1)
        }
    }
}

/// Appends the decimal rendering of `n` to `s`.
pub fn push_decimal(s: &mut String, n: usize)
    ensures
        final(s)@ == old(s)@ + decimal(n as nat),
    decreases n,
{
    if n >= 10 {
        push_decimal(s, n / 10);
    }
    let d = n % 10;
    let c = if d == 0 {
        '0'
    } else if d == 1 {
        '1'
    } else if d == 2 {
        '2'
    } else if d == 3 {
        '3'
    } else if d == 4 {
        '4'
    } else if d == 5 {
        '5'
    } else if d == 6 {
        '6'
    } else if d == 7 {
        '7'
    } else if d == 8 {
        '8'
    } else {
        '9'
    };
    s.push(c);
    proof {
        if n >= 10 {
            assert(decimal(n as nat) == decimal((n / 10) as nat).push(digit_char((n % 10) as nat)));
        }
    }
    assert(final(s)@ =~= old(s)@ + decimal(n as nat));
}

/// Appends the characters of `v[lo..hi]` to `s`.
pub fn push_range(s: &mut String, v: &Vec<char>, lo: usize, hi: usize)
    requires
        lo <= hi <= v.len(),
    ensures
        final(s)@ == old(s)@ + v@.subrange(lo as int, hi as int),
{
    let mut i = lo;
    while i < hi
        invariant
            lo <= i <= hi,
            hi <= v.len(),
            s@ == old(s)@ + v@.subrange(lo as int, i as int),
        decreases hi - i,
    {
        s.push(v[i]);
        assert(v@.subrange(lo as int, i + 1) =~= v@.subrange(lo as int, i as int).push(v@[i as int]));
        i += 1;
    }
}

/// A new string holding `v[lo..hi]`.
pub fn string_of_range(v: &Vec<char>, lo: usize, hi: usize) -> (s: String)
    requires
        lo <= hi <= v.len(),
    ensures
        s@ == v@.subrange(lo as int, hi as int),
{
    let mut s = String::new();
    push_range(&mut s, v, lo, hi);
    assert(s@ =~= v@.subrange(lo as int, hi as int));
    s
}

proof fn lemma_trim_start_clean(s: Seq<char>)
    ensures
        trim_start(s).len() > 0 ==> !is_ws(trim_start(s)[0]),
    decreases s.len(),
{
    if s.len() > 0 && is_ws(s[0]) {
        lemma_trim_start_clean(s.drop_first());
    }
}

proof fn lemma_trim_end_clean(s: Seq<char>)
    ensures
        trim_end(s).len() > 0 ==> !is_ws(trim_end(s).last()),
    decreases s.len(),
{
    if s.len() > 0 && is_ws(s.last()) {
        lemma_trim_end_clean(s.drop_last());
    }
}

/// Dropping trailing whitespace keeps a first character that is not whitespace.
proof fn lemma_trim_end_keeps_first(s: Seq<char>)
    requires
        s.len() > 0,
        !is_ws(s[0]),
    ensures
        trim_end(s).len() > 0,
        trim_end(s)[0] == s[0],
    decreases s.len(),
{
    if is_ws(s.last()) {
        assert(s.len() > 1);
        assert(s.drop_last()[0] == s[0]);
        lemma_trim_end_keeps_first(s.drop_last());
    }
}

/// A trimmed text has no leading whitespace left to drop.
pub proof fn lemma_trim_start_of_trim(s: Seq<char>)
    ensures
        trim_start(trim(s)) == trim(s),
{
    let a = trim_start(s);
    lemma_trim_start_clean(s);
    if trim(s).len() > 0 {
        lemma_trim_end_keeps_first(a);
    }
}

/// Dropping leading whitespace twice is dropping it once.
pub proof fn lemma_trim_start_idempotent(s: Seq<char>)
    ensures
        trim_start(trim_start(s)) == trim_start(s),
{
    lemma_trim_start_clean(s);
}

/// Trimming a trimmed text changes nothing.
pub proof fn lemma_trim_idempotent(s: Seq<char>)
    ensures
        trim(trim(s)) == trim(s),
{
    let a = trim_start(s);
    let b = trim_end(a);
    lemma_trim_start_clean(s);
    lemma_trim_end_clean(a);
    if b.len() > 0 {
        assert(a.len() > 0);
        lemma_trim_end_keeps_first(a);
        assert(trim_start(b) == b);
        assert(trim_end(b) == b);
    } else {
        assert(trim_start(b) == b);
        assert(trim_end(b) == b);
    }
}

// ── Laws on lines and decimals ──

/// Lines joined with a line ending: `"\n"`, or `"\r\n"` when `crlf`.
pub open spec fn join_lines(ls: Seq<Seq<char>>, crlf: bool) -> Seq<char>
    decreases ls.len(),
{
    if ls.len() == 0 {
        seq![]
    } else if ls.len() == 1 {
        ls[0]
    } else {
        ls[0] + (if crlf {
            seq!['\r', '\n']
        } else {
            seq!['\n']
        }) + join_lines(ls.drop_first(), crlf)
    }
}

/// Lines that hold no line-ending characters, the last of them not empty,
/// joined with `"\n"` or with `"\r\n"`, are split back into exactly those lines.
pub proof fn law_lines_split_joined_lines(ls: Seq<Seq<char>>, crlf: bool)
    requires
        ls.len() > 0,
        ls.last().len() > 0,
        forall|k: int, j: int|
            0 <= k < ls.len() && 0 <= j < ls[k].len() ==> #[trigger] ls[k][j] != '\n' && ls[k][j]
                != '\r',
    ensures
        lines(join_lines(ls, crlf)) == ls,
    decreases ls.len(),
{
    let s = join_lines(ls, crlf);
    let l0 = ls[0];
    if ls.len() == 1 {
        assert(forall|j: int| 0 <= j < l0.len() ==> l0[j] != '\n');
        lemma_next_newline_is(s, 0, s.len() as int);
        assert(lines(s) =~= seq![l0]);
    } else {
        let rest = ls.drop_first();
        let sep: Seq<char> = if crlf {
            seq!['\r', '\n']
        } else {
            seq!['\n']
        };
        let js = join_lines(rest, crlf);
        assert(s =~= l0 + sep + js);
        let k = l0.len() + sep.len() - 1;
        assert forall|j: int| 0 <= j < k implies s[j] != '\n' by {
            if j < l0.len() {
                assert(s[j] == l0[j]);
                assert(ls[0][j] != '\n');
            } else {
                assert(s[j] == '\r');
            }
        }
        assert(s[k] == '\n');
        lemma_next_newline_is(s, 0, k);
        assert forall|k2: int, j: int|
            0 <= k2 < rest.len() && 0 <= j < rest[k2].len() implies #[trigger] rest[k2][j] != '\n'
            && rest[k2][j] != '\r' by {
            assert(rest[k2] == ls[k2 + 1]);
        }
        law_lines_split_joined_lines(rest, crlf);
        assert(s.skip(k + 1) =~= js);
        if crlf {
            assert(s.take(k) =~= l0.push('\r'));
            assert(s.take(k).drop_last() =~= l0);
        } else {
            assert(s.take(k) =~= l0);
            if l0.len() > 0 {
                assert(ls[0][l0.len() - 1] != '\r');
            }
        }
        assert(strip_cr(s.take(k)) == l0);
        assert(lines(s) =~= seq![l0] + rest);
    }
}

/// The number that a text of decimal digits spells.
pub open spec fn digits_value(s: Seq<char>) -> int
    decreases s.len(),
{
    if s.len() == 0 {
        0
    } else {
        10 * digits_value(s.drop_last()) + (s.last() as int - '0' as int)
    }
}

/// The decimal rendering of a number is made of digits, spells that number,
/// and has no leading zero.
pub proof fn law_decimal_spells_number(n: nat)
    ensures
        decimal(n).len() > 0,
        forall|j: int| 0 <= j < decimal(n).len() ==> '0' <= #[trigger] decimal(n)[j] <= '9',
        digits_value(decimal(n)) == n,
        n > 0 ==> decimal(n)[0] != '0',
    decreases n,
{
    let d = (n % 10) as nat;
    let c = digit_char(d);
    assert(c as int - '0' as int == d) by {
        if d == 0 {
        } else if d == 1 {
        } else if d == 2 {
        } else if d == 3 {
        } else if d == 4 {
        } else if d == 5 {
        } else if d == 6 {
        } else if d == 7 {
        } else if d == 8 {
        } else {
        }
    }
    if n < 10 {
        assert(decimal(n) =~= seq![c]);
        assert(seq![c].drop_last() =~= Seq::<char>::empty());
        assert(seq![c].last() == c);
        assert(digits_value(seq![c]) == 10 * digits_value(Seq::<char>::empty()) + (c as int
            - '0' as int));
        assert(n % 10 == n);
    } else {
        let q = (n / 10) as nat;
        law_decimal_spells_number(q);
        let dq = decimal(q);
        assert(decimal(n) == dq.push(c));
        assert(dq.push(c).drop_last() =~= dq);
        assert(dq.push(c)[0] == dq[0]);
        assert(dq.push(c).last() == c);
        assert(digits_value(dq.push(c)) == 10 * digits_value(dq) + (c as int - '0' as int));
        assert(n == 10 * (n / 10) + n % 10);
        assert forall|j: int| 0 <= j < decimal(n).len() implies '0' <= #[trigger] decimal(n)[j]
            <= '9' by {
            if j < dq.len() {
                assert(decimal(n)[j] == dq[j]);
            }
        }
    }
}

proof fn lemma_trim_start_split(s: Seq<char>) -> (i: int)
    ensures
        0 <= i <= s.len(),
        trim_start(s) == s.skip(i),
        forall|k: int| 0 <= k < i ==> is_ws(#[trigger] s[k]),
    decreases s.len(),
{
    if s.len() > 0 && is_ws(s[0]) {
        let i0 = lemma_trim_start_split(s.drop_first());
        assert(s.drop_first().skip(i0) =~= s.skip(i0 + 1));
        assert forall|k: int| 0 <= k < i0 + 1 implies is_ws(#[trigger] s[k]) by {
            if k > 0 {
                assert(s[k] == s.drop_first()[k - 1]);
            }
        }
        i0 + 1
    } else {
        assert(s.skip(0) =~= s);
        0
    }
}

proof fn lemma_trim_end_split(s: Seq<char>) -> (j: int)
    ensures
        0 <= j <= s.len(),
        trim_end(s) == s.take(j),
        forall|k: int| j <= k < s.len() ==> is_ws(#[trigger] s[k]),
    decreases s.len(),
{
    if s.len() > 0 && is_ws(s.last()) {
        let j0 = lemma_trim_end_split(s.drop_last());
        assert(s.drop_last().take(j0) =~= s.take(j0));
        assert forall|k: int| j0 <= k < s.len() implies is_ws(#[trigger] s[k]) by {
            if k < s.len() - 1 {
                assert(s[k] == s.drop_last()[k]);
            }
        }
        j0
    } else {
        assert(s.take(s.len() as int) =~= s);
        s.len() as int
    }
}

/// Trimming keeps exactly the part of a text between its leading and its
/// trailing whitespace: what is dropped is whitespace, and what is kept
/// neither starts nor ends with whitespace.
pub proof fn law_trim_keeps_inner_text(s: Seq<char>)
    ensures
        exists|i: int, j: int|
            0 <= i <= j <= s.len() && #[trigger] s.subrange(i, j) == trim(s) && (forall|k: int|
                0 <= k < i || j <= k < s.len() ==> is_ws(#[trigger] s[k])),
        trim(s).len() > 0 ==> !is_ws(trim(s)[0]) && !is_ws(trim(s).last()),
{
    let i = lemma_trim_start_split(s);
    let a = s.skip(i);
    let j = lemma_trim_end_split(a);
    assert(a.take(j) =~= s.subrange(i, i + j));
    assert forall|k: int| 0 <= k < i || i + j <= k < s.len() implies is_ws(#[trigger] s[k]) by {
        if k >= i + j {
            assert(s[k] == a[k - i]);
        }
    }
    assert(s.subrange(i, i + j) == trim(s));
    lemma_trim_start_clean(s);
    lemma_trim_end_clean(a);
    if trim(s).len() > 0 {
        lemma_trim_end_keeps_first(a);
    }
}

} // verus!
