//! Character-level text primitives: whitespace trimming, line splitting,
//! literal matching, integer parsing and byte-wise string ordering.
//!
//! Strings are handled as sequences of `char` (their view); the order of
//! strings is the byte-wise lexicographic order of their UTF-8 encoding,
//! which is the order `str` itself uses.
use vstd::prelude::*;
use vstd::utf8::encode_utf8;

verus! {

// ── Whitespace and trimming ─────────────────────────────────────────────────

/// The Unicode `White_Space` property, which `char::is_whitespace` follows.
pub open spec fn is_ws(c: char) -> bool {
    ||| ('\u{9}' <= c && c <= '\u{d}')
    ||| c == ' '
    ||| c == '\u{85}'
    ||| c == '\u{a0}'
    ||| c == '\u{1680}'
    ||| ('\u{2000}' <= c && c <= '\u{200a}')
    ||| c == '\u{2028}'
    ||| c == '\u{2029}'
    ||| c == '\u{202f}'
    ||| c == '\u{205f}'
    ||| c == '\u{3000}'
}

/// `s` without its leading whitespace.
pub open spec fn trim_start(s: Seq<char>) -> Seq<char>
    decreases s.len(),
{
    if s.len() > 0 && is_ws(s[0]) {
        trim_start(s.drop_first())
    } else {
        s
    }
}

/// `s` without its trailing whitespace.
pub open spec fn trim_end(s: Seq<char>) -> Seq<char>
    decreases s.len(),
{
    if s.len() > 0 && is_ws(s.last()) {
        trim_end(s.drop_last())
    } else {
        s
    }
}

/// `s` without leading and trailing whitespace (`str::trim`).
pub open spec fn trim(s: Seq<char>) -> Seq<char> {
    trim_end(trim_start(s))
}

pub fn is_whitespace(c: char) -> (r: bool)
    ensures
        r == is_ws(c),
{
    ('\u{9}' <= c && c <= '\u{d}') || c == ' ' || c == '\u{85}' || c == '\u{a0}' || c
        == '\u{1680}' || ('\u{2000}' <= c && c <= '\u{200a}') || c == '\u{2028}' || c
        == '\u{2029}' || c == '\u{202f}' || c == '\u{205f}' || c == '\u{3000}'
}

/// Bounds `(a, b)` such that `s[a..b]` is `s` trimmed.
pub fn trim_bounds(s: &[char]) -> (r: (usize, usize))
    ensures
        r.0 <= r.1 <= s@.len(),
        s@.subrange(r.0 as int, r.1 as int) == trim(s@),
{
    let n = s.len();
    let mut a: usize = 0;
    assert(s@.subrange(0, n as int) =~= s@);
    while a < n && is_whitespace(s[a])
        invariant
            a <= n,
            n == s@.len(),
            trim_start(s@) == trim_start(s@.subrange(a as int, n as int)),
        decreases n - a,
    {
        assert(s@.subrange(a as int, n as int).drop_first() =~= s@.subrange(
            a + 1,
            n as int,
        ));
        a = a + 1;
    }
    assert(trim_start(s@.subrange(a as int, n as int)) == s@.subrange(a as int, n as int));
    let mut b: usize = n;
    while b > a && is_whitespace(s[b - 1])
        invariant
            a <= b <= n,
            n == s@.len(),
            trim(s@) == trim_end(s@.subrange(a as int, b as int)),
        decreases b - a,
    {
        assert(s@.subrange(a as int, b as int).drop_last() =~= s@.subrange(
            a as int,
            b - 1,
        ));
        b = b - 1;
    }
    (a, b)
}

/// `s` trimmed, as a sub-slice.
pub fn trimmed(s: &[char]) -> (r: &[char])
    ensures
        r@ == trim(s@),
{
    let (a, b) = trim_bounds(s);
    let r = slice_range(s, a, b);
    r
}

/// The sub-slice `s[a..b]`.
pub fn slice_range(s: &[char], a: usize, b: usize) -> (r: &[char])
    requires
        a <= b <= s@.len(),
    ensures
        r@ == s@.subrange(a as int, b as int),
{
    &s[a..b]
}

// ── Conversions between `str`, `String` and `char` slices ──────────────────

/// The characters of `s`.
pub fn chars_of(s: &str) -> (r: Vec<char>)
    ensures
        r@ == s@,
{
    let mut out: Vec<char> = Vec::new();
    for c in it: s.chars()
        invariant
            out@ == it.seq().take(it.index() as int),
            it.seq() == s@,
    {
        out.push(c);
    }
    out
}

/// Appends one character to a string (`String::push`).
#[verifier::external_body]
pub(crate) fn push_char(s: &mut String, c: char)
    ensures
        final(s)@ == old(s)@.push(c),
{
    s.push(c);
}

/// A string holding exactly the characters of `s`.
pub fn string_of(s: &[char]) -> (r: String)
    ensures
        r@ == s@,
{
    let mut out = String::new();
    let mut i: usize = 0;
    while i < s.len()
        invariant
            i <= s@.len(),
            out@ == s@.take(i as int),
        decreases s@.len() - i,
    {
        push_char(&mut out, s[i]);
        assert(s@.take(i + 1) =~= s@.take(i as int).push(s@[i as int]));
        i = i + 1;
    }
    assert(s@.take(s@.len() as int) =~= s@);
    out
}

/// A string made of the single character `c`.
pub fn string_of_char(c: char) -> (r: String)
    ensures
        r@ == seq![c],
{
    let mut out = String::new();
    push_char(&mut out, c);
    assert(out@ =~= seq![c]);
    out
}

/// Returns `s` converted to lowercase (`str::to_lowercase`).
#[verifier::external_body]
pub(crate) fn to_lowercase(s: &str) -> (r: String)
    ensures
        r@ == lowercase(s@),
{
    s.to_lowercase()
}

/// What `str::to_lowercase` returns for the given characters: the Unicode
/// lowercase mapping of each character, with the special rule for a final
/// capital sigma.
pub uninterp spec fn lowercase(s: Seq<char>) -> Seq<char>;

// ── Literal matching ────────────────────────────────────────────────────────

/// Whether two character sequences are equal.
pub fn chars_eq(a: &[char], b: &[char]) -> (r: bool)
    ensures
        r == (a@ == b@),
{
    if a.len() != b.len() {
        return false;
    }
    let mut i: usize = 0;
    while i < a.len()
        invariant
            a@.len() == b@.len(),
            i <= a@.len(),
            forall|j: int| 0 <= j < i ==> a@[j] == b@[j],
        decreases a@.len() - i,
    {
        if a[i] != b[i] {
            return false;
        }
        i = i + 1;
    }
    assert(a@ =~= b@);
    true
}

/// Whether `s` equals the literal `lit`.
pub fn is_lit(s: &[char], lit: &str) -> (r: bool)
    ensures
        r == (s@ == lit@),
{
    let l = chars_of(lit);
    chars_eq(s, l.as_slice())
}

/// Whether `p` is a prefix of `s`.
pub open spec fn starts_with(s: Seq<char>, p: Seq<char>) -> bool {
    p.len() <= s.len() && s.take(p.len() as int) == p
}

/// Whether `s` starts with the literal `lit`.
pub fn has_prefix(s: &[char], lit: &str) -> (r: bool)
    ensures
        r == starts_with(s@, lit@),
{
    let l = chars_of(lit);
    if l.len() > s.len() {
        return false;
    }
    let head = slice_range(s, 0, l.len());
    chars_eq(head, l.as_slice())
}

/// Index of the first occurrence of `c` in `s`, or `s.len()` when there is none.
pub open spec fn first_index(s: Seq<char>, c: char) -> int
    decreases s.len(),
{
    if s.len() == 0 {
        0
    } else if s[0] == c {
        0
    } else {
        1 + first_index(s.drop_first(), c)
    }
}

pub proof fn lemma_first_index(s: Seq<char>, c: char)
    ensures
        0 <= first_index(s, c) <= s.len(),
        first_index(s, c) < s.len() ==> s[first_index(s, c)] == c,
        forall|j: int| 0 <= j < first_index(s, c) ==> s[j] != c,
    decreases s.len(),
{
    if s.len() > 0 && s[0] != c {
        lemma_first_index(s.drop_first(), c);
        assert forall|j: int| 0 <= j < first_index(s, c) implies s[j] != c by {
            if j > 0 {
                assert(s[j] == s.drop_first()[j - 1]);
            }
        }
    }
}

pub proof fn lemma_first_index_unique(s: Seq<char>, c: char, k: int)
    requires
        0 <= k <= s.len(),
        k < s.len() ==> s[k] == c,
        forall|j: int| 0 <= j < k ==> s[j] != c,
    ensures
        first_index(s, c) == k,
    decreases s.len(),
{
    if s.len() > 0 && s[0] != c {
        assert forall|j: int| 0 <= j < k - 1 implies s.drop_first()[j] != c by {
            assert(s.drop_first()[j] == s[j + 1]);
        }
        lemma_first_index_unique(s.drop_first(), c, k - 1);
    }
}

/// Index of the first occurrence of `c` in `s`, or `s.len()` when there is none.
pub fn find_char(s: &[char], c: char) -> (r: usize)
    ensures
        r == first_index(s@, c),
{
    let mut i: usize = 0;
    while i < s.len() && s[i] != c
        invariant
            i <= s@.len(),
            forall|j: int| 0 <= j < i ==> s@[j] != c,
        decreases s@.len() - i,
    {
        i = i + 1;
    }
    proof {
        lemma_first_index_unique(s@, c, i as int);
    }
    i
}

/// Whether `needle` occurs in `hay` as a contiguous piece (`str::contains`).
pub open spec fn contains_seq(hay: Seq<char>, needle: Seq<char>) -> bool {
    exists|i: int|
        0 <= i && i + needle.len() <= hay.len() && #[trigger] hay.subrange(i, i + needle.len())
            == needle
}

pub fn contains_chars(hay: &[char], needle: &[char]) -> (r: bool)
    ensures
        r == contains_seq(hay@, needle@),
{
    if needle.len() > hay.len() {
        return false;
    }
    let last = hay.len() - needle.len();
    let mut i: usize = 0;
    while i <= last
        invariant
            i <= last,
            last + needle.len() == hay.len(),
            last + needle@.len() == hay@.len(),
            forall|k: int|
                0 <= k < i ==> #[trigger] hay@.subrange(k, k + needle@.len()) != needle@,
        decreases last + 1 - i,
    {
        let piece = slice_range(hay, i, i + needle.len());
        if chars_eq(piece, needle) {
            return true;
        }
        if i == last {
            return false;
        }
        i = i + 1;
    }
    false
}

// ── Line handling ──────────────────────────────────────────────────────────

/// `s` with every `"\r\n"` replaced by `"\n"`, scanning left to right.
pub open spec fn crlf_to_lf(s: Seq<char>) -> Seq<char>
    decreases s.len(),
{
    if s.len() == 0 {
        s
    } else if s.len() >= 2 && s[0] == '\r' && s[1] == '\n' {
        seq!['\n'] + crlf_to_lf(s.skip(2))
    } else {
        seq![s[0]] + crlf_to_lf(s.drop_first())
    }
}

pub fn normalize_newlines(s: &[char]) -> (r: Vec<char>)
    ensures
        r@ == crlf_to_lf(s@),
{
    let mut out: Vec<char> = Vec::new();
    let n = s.len();
    let mut i: usize = 0;
    assert(s@.skip(0) =~= s@);
    while i < n
        invariant
            i <= n,
            n == s@.len(),
            crlf_to_lf(s@) == out@ + crlf_to_lf(s@.skip(i as int)),
        decreases n - i,
    {
        let ghost rest = s@.skip(i as int);
        if i + 1 < n && s[i] == '\r' && s[i + 1] == '\n' {
            assert(rest.skip(2) =~= s@.skip(i + 2));
            out.push('\n');
            i = i + 2;
        } else {
            assert(rest.drop_first() =~= s@.skip(i + 1));
            out.push(s[i]);
            i = i + 1;
        }
    }
    assert(s@.skip(n as int) =~= Seq::<char>::empty());
    assert(out@ + Seq::<char>::empty() =~= out@);
    out
}

/// `l` without one trailing `'\r'`.
pub open spec fn strip_cr(l: Seq<char>) -> Seq<char> {
    if l.len() > 0 && l.last() == '\r' {
        l.drop_last()
    } else {
        l
    }
}

/// The lines of `s` as `str::lines` yields them: split after each `'\n'`,
/// each piece without its `'\n'` and then without one `'\r'` before it; a
/// final piece without `'\n'` is kept as it is, and an empty remainder
/// gives no line.
pub open spec fn split_lines(s: Seq<char>) -> Seq<Seq<char>>
    decreases s.len(),
{
    if s.len() == 0 {
        seq![]
    } else {
        let i = first_index(s, '\n');
        proof {
            lemma_first_index(s, '\n');
        }
        if i < s.len() {
            seq![strip_cr(s.take(i))] + split_lines(s.skip(i + 1))
        } else {
            seq![s]
        }
    }
}

/// A line of a text: the bounds of its characters in the text.
pub struct LineSpan {
    pub start: usize,
    pub end: usize,
}

pub open spec fn spans_view(s: Seq<char>, v: Seq<LineSpan>) -> Seq<Seq<char>> {
    Seq::new(v.len(), |k: int| s.subrange(v[k].start as int, v[k].end as int))
}

pub open spec fn spans_ok(s: Seq<char>, v: Seq<LineSpan>) -> bool {
    forall|k: int| 0 <= k < v.len() ==> (#[trigger] v[k]).start <= v[k].end <= s.len()
}

/// The lines of `s` (see `split_lines`), as bounds into `s`.
pub fn line_spans(s: &[char]) -> (r: Vec<LineSpan>)
    ensures
        spans_ok(s@, r@),
        spans_view(s@, r@) == split_lines(s@),
{
    let n = s.len();
    let mut out: Vec<LineSpan> = Vec::new();
    let mut i: usize = 0;
    assert(s@.skip(0) =~= s@);
    while i < n
        invariant
            i <= n,
            n == s@.len(),
            spans_ok(s@, out@),
            split_lines(s@) == spans_view(s@, out@) + split_lines(s@.skip(i as int)),
        decreases n - i,
    {
        let ghost rest = s@.skip(i as int);
        let rest_slice = slice_range(s, i, n);
        let k = find_char(rest_slice, '\n');
        proof {
            lemma_first_index(rest, '\n');
        }
        let ghost old_out = out@;
        if k < rest_slice.len() {
            let mut e = i + k;
            if e > i && s[e - 1] == '\r' {
                e = e - 1;
            }
            assert(s@.subrange(i as int, e as int) =~= strip_cr(rest.take(k as int)));
            out.push(LineSpan { start: i, end: e });
            assert(rest.skip(k + 1) =~= s@.skip(i + k + 1));
            assert(spans_view(s@, out@) =~= spans_view(s@, old_out).push(
                strip_cr(rest.take(k as int)),
            ));
            assert(spans_view(s@, out@) + split_lines(s@.skip(i + k + 1)) =~= spans_view(
                s@,
                old_out,
            ) + split_lines(rest));
            i = i + k + 1;
        } else {
            out.push(LineSpan { start: i, end: n });
            assert(s@.subrange(i as int, n as int) =~= rest);
            assert(spans_view(s@, out@) =~= spans_view(s@, old_out).push(rest));
            assert(s@.skip(n as int) =~= Seq::<char>::empty());
            assert(spans_view(s@, out@) + split_lines(s@.skip(n as int)) =~= spans_view(
                s@,
                old_out,
            ) + split_lines(rest));
            i = n;
        }
    }
    assert(s@.skip(n as int) =~= Seq::<char>::empty());
    assert(spans_view(s@, out@) + Seq::<Seq<char>>::empty() =~= spans_view(s@, out@));
    out
}

// ── Integers ──────────────────────────────────────────────────────────────

pub open spec fn is_digit(c: char) -> bool {
    '0' <= c && c <= '9'
}

pub open spec fn all_digits(s: Seq<char>) -> bool {
    forall|i: int| 0 <= i < s.len() ==> is_digit(#[trigger] s[i])
}

/// The number written by the decimal digits `s`.
pub open spec fn digits_value(s: Seq<char>) -> int
    decreases s.len(),
{
    if s.len() == 0 {
        0
    } else {
        digits_value(s.drop_last()) * 10 + (s.last() as int - '0' as int)
    }
}

/// What `str::parse` gives for an integer type with bounds `min..=max`:
/// an optional sign (`'-'` only when `signed`) followed by at least one
/// decimal digit, with the value in range.
pub open spec fn parse_int(s: Seq<char>, signed: bool, min: int, max: int) -> Option<int> {
    let neg = signed && s.len() > 0 && s[0] == '-';
    let has_sign = s.len() > 0 && (s[0] == '+' || neg);
    let digits = if has_sign {
        s.drop_first()
    } else {
        s
    };
    let mag = digits_value(digits);
    let v = if neg {
        -mag
    } else {
        mag
    };
    if digits.len() == 0 || !all_digits(digits) || v < min || v > max {
        None
    } else {
        Some(v)
    }
}

proof fn lemma_digits_value_nonneg(s: Seq<char>)
    requires
        all_digits(s),
    ensures
        digits_value(s) >= 0,
    decreases s.len(),
{
    if s.len() > 0 {
        assert(all_digits(s.drop_last())) by {
            assert forall|i: int| 0 <= i < s.drop_last().len() implies is_digit(
                #[trigger] s.drop_last()[i],
            ) by {
                assert(s.drop_last()[i] == s[i]);
            }
        }
        lemma_digits_value_nonneg(s.drop_last());
        assert(is_digit(s[s.len() - 1]));
    }
}

proof fn lemma_digits_value_monotone(s: Seq<char>, k: int)
    requires
        all_digits(s),
        0 <= k <= s.len(),
    ensures
        digits_value(s.take(k)) <= digits_value(s),
    decreases s.len(),
{
    if k < s.len() {
        assert(all_digits(s.drop_last())) by {
            assert forall|i: int| 0 <= i < s.drop_last().len() implies is_digit(
                #[trigger] s.drop_last()[i],
            ) by {
                assert(s.drop_last()[i] == s[i]);
            }
        }
        lemma_digits_value_monotone(s.drop_last(), k);
        assert(s.drop_last().take(k) =~= s.take(k));
        lemma_digits_value_nonneg(s.drop_last());
        assert(is_digit(s[s.len() - 1]));
    } else {
        assert(s.take(k) =~= s);
    }
}

/// Parses `s` as `str::parse` does for an integer type with bounds
/// `min..=max` (which fit in `i64`).
pub fn parse_int_chars(s: &[char], signed: bool, min: i64, max: i64) -> (r: Option<i64>)
    requires
        -0x8000_0000_0000 <= min <= 0 <= max <= 0x7fff_ffff_ffff,
    ensures
        r matches Some(v) ==> parse_int(s@, signed, min as int, max as int) == Some(v as int),
        r is None ==> parse_int(s@, signed, min as int, max as int) is None,
{
    let n = s.len();
    let neg = signed && n > 0 && s[0] == '-';
    let has_sign = n > 0 && (s[0] == '+' || neg);
    let start: usize = if has_sign {
        1
    } else {
        0
    };
    let ghost digits = if has_sign {
        s@.drop_first()
    } else {
        s@
    };
    assert(digits =~= s@.subrange(start as int, n as int));
    if start >= n {
        return None;
    }
    let bound: i64 = if neg {
        -min
    } else {
        max
    };
    let mut acc: i64 = 0;
    let mut i: usize = start;
    while i < n
        invariant
            start <= i <= n,
            n == s@.len(),
            digits == s@.subrange(start as int, n as int),
            neg == (signed && s@.len() > 0 && s@[0] == '-'),
            has_sign == (s@.len() > 0 && (s@[0] == '+' || neg)),
            digits == (if has_sign {
                s@.drop_first()
            } else {
                s@
            }),
            bound == (if neg {
                -min
            } else {
                max as int
            }),
            -0x8000_0000_0000 <= min <= 0 <= max <= 0x7fff_ffff_ffff,
            0 <= bound <= 0x8000_0000_0000,
            0 <= acc <= bound,
            all_digits(s@.subrange(start as int, i as int)),
            acc == digits_value(s@.subrange(start as int, i as int)),
        decreases n - i,
    {
        let c = s[i];
        assert(s@.subrange(start as int, i + 1).drop_last() =~= s@.subrange(
            start as int,
            i as int,
        ));
        assert(digits[i - start] == c);
        if !('0' <= c && c <= '9') {
            assert(!is_digit(digits[i - start]));
            assert(!all_digits(digits));
            assert(parse_int(s@, signed, min as int, max as int) is None);
            return None;
        }
        let d: i64 = (c as u32 - '0' as u32) as i64;
        assert(d == c as int - '0' as int);
        assert(s@.subrange(start as int, i + 1).last() == c);
        assert(digits_value(s@.subrange(start as int, i + 1)) == acc * 10 + d);
        if d > bound || acc > (bound - d) / 10 {
            proof {
                assert(all_digits(s@.subrange(start as int, i + 1))) by {
                    assert forall|j: int| 0 <= j < i + 1 - start implies is_digit(
                        #[trigger] s@.subrange(start as int, i + 1)[j],
                    ) by {
                        if j < i - start {
                            assert(s@.subrange(start as int, i + 1)[j] == s@.subrange(
                                start as int,
                                i as int,
                            )[j]);
                        }
                    }
                }
                assert(digits_value(s@.subrange(start as int, i + 1)) > bound) by (nonlinear_arith)
                    requires
                        digits_value(s@.subrange(start as int, i + 1)) == acc * 10 + d,
                        d > bound || (bound - d >= 0 && acc > (bound - d) / 10),
                        0 <= d <= 9,
                        acc >= 0,
                        bound >= 0,
                ;
                if all_digits(digits) {
                    lemma_digits_value_monotone(digits, i + 1 - start);
                    assert(digits.take(i + 1 - start) =~= s@.subrange(start as int, i + 1));
                    assert(digits_value(digits) > bound);
                }
                assert(parse_int(s@, signed, min as int, max as int) is None);
            }
            return None;
        }
        proof {
            assert((acc * 10 + d) <= bound) by (nonlinear_arith)
                requires
                    bound - d >= 0,
                    acc <= (bound - d) / 10,
                    0 <= d <= 9,
                    acc >= 0,
            ;
            assert(all_digits(s@.subrange(start as int, i + 1))) by {
                assert forall|j: int| 0 <= j < i + 1 - start implies is_digit(
                    #[trigger] s@.subrange(start as int, i + 1)[j],
                ) by {
                    if j < i - start {
                        assert(s@.subrange(start as int, i + 1)[j] == s@.subrange(
                            start as int,
                            i as int,
                        )[j]);
                    }
                }
            }
        }
        acc = acc * 10 + d;
        i = i + 1;
    }
    if neg {
        Some(-acc)
    } else {
        Some(acc)
    }
}

// ── Ordering of strings ─────────────────────────────────────────────────────

/// The three outcomes of a comparison.
#[derive(Clone, Copy, Debug, PartialEq, Eq, Structural)]
pub enum Order {
    Less,
    Equal,
    Greater,
}

pub open spec fn flip(o: Order) -> Order {
    match o {
        Order::Less => Order::Greater,
        Order::Equal => Order::Equal,
        Order::Greater => Order::Less,
    }
}

/// Lexicographic order of byte sequences.
pub open spec fn lex_order(a: Seq<u8>, b: Seq<u8>) -> Order
    decreases a.len(),
{
    if a.len() == 0 {
        if b.len() == 0 {
            Order::Equal
        } else {
            Order::Less
        }
    } else if b.len() == 0 {
        Order::Greater
    } else if a[0] < b[0] {
        Order::Less
    } else if a[0] > b[0] {
        Order::Greater
    } else {
        lex_order(a.drop_first(), b.drop_first())
    }
}

/// The order of two strings given by their characters: byte-wise on their
/// UTF-8 encodings, as `str` orders.
pub open spec fn str_order(a: Seq<char>, b: Seq<char>) -> Order {
    lex_order(encode_utf8(a), encode_utf8(b))
}

pub proof fn lemma_lex_order_flip(a: Seq<u8>, b: Seq<u8>)
    ensures
        lex_order(b, a) == flip(lex_order(a, b)),
    decreases a.len(),
{
    if a.len() > 0 && b.len() > 0 && a[0] == b[0] {
        lemma_lex_order_flip(a.drop_first(), b.drop_first());
    }
}

pub proof fn lemma_lex_order_equal(a: Seq<u8>, b: Seq<u8>)
    ensures
        (lex_order(a, b) == Order::Equal) == (a == b),
    decreases a.len(),
{
    if a.len() > 0 && b.len() > 0 {
        lemma_lex_order_equal(a.drop_first(), b.drop_first());
        if a.drop_first() == b.drop_first() && a[0] == b[0] {
            assert(a =~= seq![a[0]] + a.drop_first());
            assert(b =~= seq![b[0]] + b.drop_first());
        }
        if a == b {
            assert(a.drop_first() == b.drop_first());
        }
    } else if a.len() == 0 && b.len() == 0 {
        assert(a =~= b);
    }
}

pub proof fn lemma_lex_order_trans(a: Seq<u8>, b: Seq<u8>, c: Seq<u8>)
    requires
        lex_order(a, b) == Order::Less,
        lex_order(b, c) == Order::Less,
    ensures
        lex_order(a, c) == Order::Less,
    decreases a.len(),
{
    if a.len() > 0 && b.len() > 0 && c.len() > 0 && a[0] == b[0] && b[0] == c[0] {
        lemma_lex_order_trans(a.drop_first(), b.drop_first(), c.drop_first());
    }
}

/// Compares two byte strings lexicographically.
pub fn compare_bytes(a: &[u8], b: &[u8]) -> (r: Order)
    ensures
        r == lex_order(a@, b@),
{
    let mut i: usize = 0;
    assert(a@.skip(0) =~= a@);
    assert(b@.skip(0) =~= b@);
    while i < a.len() && i < b.len() && a[i] == b[i]
        invariant
            i <= a@.len(),
            i <= b@.len(),
            lex_order(a@, b@) == lex_order(a@.skip(i as int), b@.skip(i as int)),
        decreases a@.len() - i,
    {
        assert(a@.skip(i as int).drop_first() =~= a@.skip(i + 1));
        assert(b@.skip(i as int).drop_first() =~= b@.skip(i + 1));
        i = i + 1;
    }
    if i == a.len() {
        if i == b.len() {
            Order::Equal
        } else {
            Order::Less
        }
    } else if i == b.len() {
        Order::Greater
    } else if a[i] < b[i] {
        Order::Less
    } else {
        Order::Greater
    }
}

/// Compares two strings as `str` does.
pub fn compare_str(a: &str, b: &str) -> (r: Order)
    ensures
        r == str_order(a@, b@),
{
    compare_bytes(a.as_bytes(), b.as_bytes())
}

pub proof fn lemma_str_order_equal(a: Seq<char>, b: Seq<char>)
    ensures
        (str_order(a, b) == Order::Equal) == (a == b),
{
    lemma_lex_order_equal(encode_utf8(a), encode_utf8(b));
    if encode_utf8(a) == encode_utf8(b) {
        vstd::utf8::encode_utf8_decode_utf8(a);
        vstd::utf8::encode_utf8_decode_utf8(b);
    }
}

/// Strings in strictly increasing order.
pub open spec fn increasing(keys: Seq<Seq<char>>) -> bool {
    forall|i: int, j: int| 0 <= i < j < keys.len() ==> str_order(keys[i], keys[j]) == Order::Less
}

pub open spec fn strs(v: Seq<String>) -> Seq<Seq<char>> {
    v.map_values(|s: String| s@)
}

/// Adds `k` to strictly increasing strings, unless it is there already.
pub fn insert_sorted_unique(keys: &mut Vec<String>, k: String)
    requires
        increasing(strs(old(keys)@)),
    ensures
        increasing(strs(final(keys)@)),
        forall|x: Seq<char>| strs(final(keys)@).contains(x) <==> (strs(old(keys)@).contains(x) || x == k@),
{
    let ghost kv = strs(keys@);
    let ghost kk = k@;
    let mut p: usize = 0;
    while p < keys.len() && compare_str(keys[p].as_str(), k.as_str()) == Order::Less
        invariant
            p <= keys@.len(),
            kv == strs(keys@),
            kk == k@,
            forall|j: int| 0 <= j < p ==> str_order(#[trigger] kv[j], k@) == Order::Less,
        decreases keys@.len() - p,
    {
        p = p + 1;
    }
    if p < keys.len() && compare_str(keys[p].as_str(), k.as_str()) == Order::Equal {
        proof {
            lemma_str_order_equal(kv[p as int], k@);
            assert forall|x: Seq<char>| kv.contains(x) <==> (kv.contains(x) || x == kk) by {
                if x == kk {
                    assert(kv[p as int] == x);
                }
            }
        }
        return;
    }
    proof {
        if p < kv.len() {
            lemma_str_order_equal(kv[p as int], k@);
            lemma_lex_order_flip(encode_utf8(kv[p as int]), encode_utf8(k@));
        }
        let n = kv.insert(p as int, kk);
        assert forall|a: int, b: int| 0 <= a < b < n.len() implies str_order(n[a], n[b]) == Order::Less by {
            if b < p {
                assert(n[a] == kv[a] && n[b] == kv[b]);
            } else if b == p {
                assert(n[a] == kv[a] && n[b] == kk);
            } else if a < p {
                assert(n[a] == kv[a] && n[b] == kv[b - 1]);
            } else if a == p {
                assert(n[a] == kk && n[b] == kv[b - 1]);
                if b - 1 > p {
                    assert(str_order(kv[p as int], kv[b - 1]) == Order::Less);
                    lemma_lex_order_trans(
                        encode_utf8(kk),
                        encode_utf8(kv[p as int]),
                        encode_utf8(kv[b - 1]),
                    );
                }
            } else {
                assert(n[a] == kv[a - 1] && n[b] == kv[b - 1]);
            }
        }
        assert forall|x: Seq<char>| n.contains(x) <==> (kv.contains(x) || x == kk) by {
            if n.contains(x) {
                let w = choose|w: int| 0 <= w < n.len() && n[w] == x;
                if w < p {
                    assert(kv[w] == x);
                } else if w > p {
                    assert(kv[w - 1] == x);
                }
            }
            if kv.contains(x) {
                let w = choose|w: int| 0 <= w < kv.len() && kv[w] == x;
                if w < p {
                    assert(n[w] == x);
                } else {
                    assert(n[w + 1] == x);
                }
            }
            if x == kk {
                assert(n[p as int] == x);
            }
        }
    }
    keys.insert(p, k);
    assert(strs(keys@) =~= kv.insert(p as int, kk));
}

} // verus!
