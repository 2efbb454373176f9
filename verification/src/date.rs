//! Calendar arithmetic on `YYYY-MM-DD` dates through Julian day numbers.
use vstd::prelude::*;
use vstd::utf8::{encode_utf8, is_ascii_chars, is_char_boundary};
use vstd::string::StringSliceAdditionalSpecFns;
use crate::text::{
    all_digits, digits_value, is_digit, lemma_lex_order_flip, lemma_str_order_equal, lex_order,
    parse_int, parse_int_chars, str_order, string_of, Order,
};

verus! {

/// Division rounding toward zero, as `/` on signed integers does.
pub open spec fn tdiv(a: int, b: int) -> int {
    if a >= 0 {
        a / b
    } else {
        -((-a) / b)
    }
}

/// The Julian day number of a Gregorian calendar date.
pub open spec fn spec_julian_day(year: int, month: int, day: int) -> int {
    let a = tdiv(14 - month, 12);
    let y = year + 4800 - a;
    let m = month + 12 * a - 3;
    day + tdiv(153 * m + 2, 5) + 365 * y + tdiv(y, 4) - tdiv(y, 100) + tdiv(y, 400) - 32045
}

/// The Gregorian calendar date `(year, month, day)` of a Julian day number,
/// with month and day as the unsigned values the conversion stores.
pub open spec fn spec_from_julian_day(jdn: int) -> (int, u32, u32) {
    let a = jdn + 32044;
    let b = tdiv(4 * a + 3, 146097);
    let c = a - tdiv(146097 * b, 4);
    let d = tdiv(4 * c + 3, 1461);
    let e = c - tdiv(1461 * d, 4);
    let m = tdiv(5 * e + 2, 153);
    let day = (e - tdiv(153 * m + 2, 5) + 1) as u32;
    let month = (m + 3 - 12 * tdiv(m, 10)) as u32;
    let year = 100 * b + d - 4800 + tdiv(m, 10);
    (year, month, day)
}

/// The Julian day numbers whose conversion stays within `i32`.
pub open spec fn jdn_in_range(jdn: int) -> bool {
    -536902956 <= jdn <= 536838867
}

proof fn lemma_tdiv_bounds(a: int, b: int)
    requires
        b > 0,
    ensures
        a >= 0 ==> 0 <= tdiv(a, b) <= a,
        a < 0 ==> a <= tdiv(a, b) <= 0,
        b * tdiv(a, b) <= a || a < 0,
        a >= 0 ==> a - b < b * tdiv(a, b),
        a < 0 ==> b * tdiv(a, b) >= a,
        a < 0 ==> b * tdiv(a, b) < a + b,
{
    if a >= 0 {
        assert(0 <= a / b <= a) by (nonlinear_arith)
            requires
                a >= 0,
                b > 0,
        ;
        assert(b * (a / b) <= a && a - b < b * (a / b)) by (nonlinear_arith)
            requires
                a >= 0,
                b > 0,
        ;
    } else {
        let na = -a;
        assert(0 <= na / b <= na) by (nonlinear_arith)
            requires
                na > 0,
                b > 0,
        ;
        assert(b * (na / b) <= na && na - b < b * (na / b)) by (nonlinear_arith)
            requires
                na > 0,
                b > 0,
        ;
        assert(b * (-(na / b)) == -(b * (na / b))) by (nonlinear_arith);
    }
}

fn julian_day(year: i32, month: u32, day: u32) -> (r: i32)
    requires
        -999 <= year <= 9999,
        month <= 99,
        day <= 99,
    ensures
        r as int == spec_julian_day(year as int, month as int, day as int),
{
    let a = (14 - month as i32) / 12;
    proof {
        lemma_tdiv_bounds(14 - month as int, 12);
    }
    let y = year + 4800 - a;
    let m = month as i32 + 12 * a - 3;
    proof {
        lemma_tdiv_bounds(153 * m + 2, 5);
        lemma_tdiv_bounds(y as int, 4);
        lemma_tdiv_bounds(y as int, 100);
        lemma_tdiv_bounds(y as int, 400);
    }
    day as i32 + (153 * m + 2) / 5 + 365 * y + y / 4 - y / 100 + y / 400 - 32045
}

fn from_julian_day(jdn: i32) -> (r: (i32, u32, u32))
    requires
        jdn_in_range(jdn as int),
    ensures
        (r.0 as int, r.1, r.2) == spec_from_julian_day(jdn as int),
{
    let a = jdn + 32044;
    proof {
        lemma_tdiv_bounds(4 * a + 3, 146097);
    }
    let b = (4 * a + 3) / 146097;
    assert(-14700 <= b <= 14700) by (nonlinear_arith)
        requires
            b == tdiv(4 * a + 3, 146097),
            -2147483648 <= 4 * a + 3 <= 2147483647,
            (4 * a + 3 >= 0 ==> 0 <= b <= (4 * a + 3)),
            (4 * a + 3 < 0 ==> (4 * a + 3) <= b <= 0),
            146097 * b <= 4 * a + 3 || 4 * a + 3 < 0,
            4 * a + 3 < 0 ==> 146097 * b >= 4 * a + 3,
    ;
    assert(-2147483648 <= 146097 * b <= 2147483647) by (nonlinear_arith)
        requires
            -14700 <= b <= 14700,
            4 * a + 3 >= 0 ==> 146097 * b <= 4 * a + 3 && b >= 0,
            4 * a + 3 < 0 ==> 146097 * b >= 4 * a + 3 && b <= 0,
            -2147483648 <= 4 * a + 3 <= 2147483647,
    ;
    proof {
        lemma_tdiv_bounds(146097 * b, 4);
    }
    let c = a - (146097 * b) / 4;
    assert(-40000 <= c <= 40000) by (nonlinear_arith)
        requires
            c == a - tdiv(146097 * b, 4),
            b == tdiv(4 * a + 3, 146097),
            4 * a + 3 >= 0 ==> 4 * a + 3 - 146097 < 146097 * b <= 4 * a + 3,
            4 * a + 3 < 0 ==> 4 * a + 3 <= 146097 * b < 4 * a + 3 + 146097,
            146097 * b >= 0 ==> 146097 * b - 4 < 4 * tdiv(146097 * b, 4) <= 146097 * b,
            146097 * b < 0 ==> 146097 * b <= 4 * tdiv(146097 * b, 4) < 146097 * b + 4,
    ;
    proof {
        lemma_tdiv_bounds(4 * c + 3, 1461);
    }
    let d = (4 * c + 3) / 1461;
    proof {
        lemma_tdiv_bounds(1461 * d, 4);
    }
    let e = c - (1461 * d) / 4;
    proof {
        lemma_tdiv_bounds(5 * e + 2, 153);
    }
    let m = (5 * e + 2) / 153;
    proof {
        lemma_tdiv_bounds(153 * m + 2, 5);
        lemma_tdiv_bounds(m as int, 10);
    }
    let day = (e - (153 * m + 2) / 5 + 1) as u32;
    let month = (m + 3 - 12 * (m / 10)) as u32;
    let year = 100 * b + d - 4800 + m / 10;
    (year, month, day)
}

// ── Reading and writing dates ───────────────────────────────────────────────

/// The characters of ASCII-range bytes, one per byte.
pub open spec fn byte_chars(b: Seq<u8>) -> Seq<char> {
    b.map_values(|x: u8| x as char)
}

fn chars_of_bytes(b: &[u8]) -> (r: Vec<char>)
    ensures
        r@ == byte_chars(b@),
{
    let mut out: Vec<char> = Vec::new();
    let mut i: usize = 0;
    while i < b.len()
        invariant
            i <= b@.len(),
            out@ == byte_chars(b@.take(i as int)),
        decreases b@.len() - i,
    {
        out.push(b[i] as char);
        assert(byte_chars(b@.take(i + 1)) =~= byte_chars(b@.take(i as int)).push(b@[i as int] as char));
        i = i + 1;
    }
    assert(b@.take(b@.len() as int) =~= b@);
    out
}

/// The number in bytes `a..b` of `s` read as `str::parse` reads it, or
/// `default` when it is not one.
pub open spec fn date_part(s: Seq<u8>, a: int, b: int, signed: bool, default: int) -> int {
    let max: int = if signed {
        0x7fff_ffff
    } else {
        0xffff_ffff
    };
    let min: int = if signed {
        -0x8000_0000
    } else {
        0
    };
    match parse_int(byte_chars(s.subrange(a, b)), signed, min, max) {
        Some(v) => v,
        None => default,
    }
}

/// The year (bytes 0..4), month (5..7) and day (8..10) of a date string;
/// an unreadable year is 0 and an unreadable month or day is 1.
pub open spec fn date_fields(s: Seq<u8>) -> (int, int, int) {
    (date_part(s, 0, 4, true, 0), date_part(s, 5, 7, false, 1), date_part(s, 8, 10, false, 1))
}

pub open spec fn pow10(n: nat) -> int
    decreases n,
{
    if n == 0 {
        1
    } else {
        10 * pow10((n - 1) as nat)
    }
}

proof fn lemma_digits_value_bound(s: Seq<char>)
    requires
        all_digits(s),
    ensures
        0 <= digits_value(s) < pow10(s.len()),
    decreases s.len(),
{
    if s.len() > 0 {
        assert(all_digits(s.drop_last())) by {
            assert forall|i: int| 0 <= i < s.drop_last().len() implies is_digit(
                #[trigger] s.drop_last()[i],
            ) by {
                assert(s.drop_last()[i] == s[i]);
            }
        }
        lemma_digits_value_bound(s.drop_last());
        assert(is_digit(s[s.len() - 1]));
    }
}

/// The year part, four bytes read as a signed number, lies in `-999..=9999`.
proof fn lemma_year_part_bounds(s: Seq<u8>)
    requires
        4 <= s.len(),
    ensures
        -999 <= date_part(s, 0, 4, true, 0) <= 9999,
{
    let t = byte_chars(s.subrange(0, 4));
    let neg = t.len() > 0 && t[0] == '-';
    let has_sign = t.len() > 0 && (t[0] == '+' || neg);
    let digits = if has_sign {
        t.drop_first()
    } else {
        t
    };
    if parse_int(t, true, -0x8000_0000, 0x7fff_ffff) is Some {
        lemma_digits_value_bound(digits);
        reveal_with_fuel(pow10, 5);
    }
}

/// A month or day part, two bytes read as an unsigned number, lies in `0..=99`.
proof fn lemma_two_digit_part_bounds(s: Seq<u8>, a: int)
    requires
        0 <= a,
        a + 2 <= s.len(),
    ensures
        0 <= date_part(s, a, a + 2, false, 1) <= 99,
{
    let t = byte_chars(s.subrange(a, a + 2));
    let has_sign = t.len() > 0 && t[0] == '+';
    let digits = if has_sign {
        t.drop_first()
    } else {
        t
    };
    if parse_int(t, false, 0, 0xffff_ffff) is Some {
        lemma_digits_value_bound(digits);
        reveal_with_fuel(pow10, 3);
    }
}

/// The Julian day number of the date string `s`.
pub open spec fn date_jdn(s: Seq<u8>) -> int {
    let f = date_fields(s);
    spec_julian_day(f.0, f.1, f.2)
}

/// Whether `add_days_to_date(s, days)` can run: the string has at least ten
/// bytes, the byte positions it cuts at are character boundaries, and the
/// shifted day number stays in the range the conversion handles.
pub open spec fn add_days_ok(s: Seq<u8>, days: int) -> bool {
    &&& s.len() >= 10
    &&& is_char_boundary(s, 4)
    &&& is_char_boundary(s, 5)
    &&& is_char_boundary(s, 7)
    &&& is_char_boundary(s, 8)
    &&& is_char_boundary(s, 10)
    &&& jdn_in_range(date_jdn(s) + days)
}

pub open spec fn digit_char(d: int) -> char {
    ('0' as int + d) as char
}

/// The decimal digits of `n`.
pub open spec fn decimal(n: nat) -> Seq<char>
    decreases n,
{
    if n < 10 {
        seq![digit_char(n as int)]
    } else {
        decimal(n / 10).push(digit_char((n % 10) as int))
    }
}

/// `s` with zeros before it up to `width` characters.
pub open spec fn zero_pad(s: Seq<char>, width: int) -> Seq<char> {
    if s.len() < width {
        Seq::new((width - s.len()) as nat, |i: int| '0') + s
    } else {
        s
    }
}

/// `v` written as `format!("{:0w$}", v)` writes it: zeros go between the
/// sign and the digits.
pub open spec fn fmt_padded(v: int, width: int) -> Seq<char> {
    if v < 0 {
        seq!['-'] + zero_pad(decimal((-v) as nat), width - 1)
    } else {
        zero_pad(decimal(v as nat), width)
    }
}

/// A date written as `{:04}-{:02}-{:02}`.
pub open spec fn fmt_date(year: int, month: int, day: int) -> Seq<char> {
    fmt_padded(year, 4) + seq!['-'] + fmt_padded(month, 2) + seq!['-'] + fmt_padded(day, 2)
}

/// The date `days` days after the date string `s`.
pub open spec fn spec_add_days(s: Seq<u8>, days: int) -> Seq<char> {
    let r = spec_from_julian_day(date_jdn(s) + days);
    fmt_date(r.0, r.1 as int, r.2 as int)
}

/// The decimal digits of `n`.
pub(crate) fn decimal_digits(n: u64) -> (r: Vec<char>)
    ensures
        r@ == decimal(n as nat),
{
    let mut q = n;
    let mut acc: Vec<char> = Vec::new();
    while q >= 10
        invariant
            decimal(n as nat) == decimal(q as nat) + acc@,
        decreases q,
    {
        let d = (q % 10) as u8;
        let c = (48 + d) as char;
        assert(c == digit_char((q % 10) as int));
        let ghost old_acc = acc@;
        acc.insert(0, c);
        assert(decimal(q as nat) =~= decimal((q / 10) as nat).push(c));
        assert(decimal((q / 10) as nat) + acc@ =~= decimal((q / 10) as nat).push(c) + old_acc);
        q = q / 10;
    }
    let c = (48 + q as u8) as char;
    let ghost old_acc = acc@;
    acc.insert(0, c);
    assert(acc@ =~= seq![c] + old_acc);
    acc
}

/// `v` zero-padded to `width` as `{:0width$}` writes it.
fn padded(v: i64, width: usize) -> (r: Vec<char>)
    requires
        v > i64::MIN,
        1 <= width <= 8,
    ensures
        r@ == fmt_padded(v as int, width as int),
{
    let neg = v < 0;
    let mag: u64 = if neg {
        (-v) as u64
    } else {
        v as u64
    };
    let digits = decimal_digits(mag);
    let w = if neg {
        width - 1
    } else {
        width
    };
    let zeros: usize = if digits.len() < w {
        w - digits.len()
    } else {
        0
    };
    let mut out: Vec<char> = Vec::new();
    if neg {
        out.push('-');
    }
    let ghost start = out@;
    let mut i: usize = 0;
    while i < zeros
        invariant
            i <= zeros,
            out@ == start + Seq::new(i as nat, |k: int| '0'),
        decreases zeros - i,
    {
        out.push('0');
        assert(start + Seq::new((i + 1) as nat, |k: int| '0') =~= (start + Seq::new(
            i as nat,
            |k: int| '0',
        )).push('0'));
        i = i + 1;
    }
    let ghost pad = out@;
    let mut j: usize = 0;
    while j < digits.len()
        invariant
            j <= digits@.len(),
            out@ == pad + digits@.take(j as int),
        decreases digits@.len() - j,
    {
        out.push(digits[j]);
        assert(pad + digits@.take(j + 1) =~= (pad + digits@.take(j as int)).push(digits@[j as int]));
        j = j + 1;
    }
    assert(digits@.take(digits@.len() as int) =~= digits@);
    let ghost z = Seq::new(zeros as nat, |k: int| '0');
    assert(zero_pad(decimal(mag as nat), w as int) =~= z + digits@);
    if neg {
        assert(start =~= seq!['-']);
        assert(out@ =~= seq!['-'] + (z + digits@));
    } else {
        assert(start =~= Seq::<char>::empty());
        assert(out@ =~= z + digits@);
    }
    out
}

fn date_number(s: &[u8], a: usize, b: usize, signed: bool, default: i64) -> (r: i64)
    requires
        a <= b <= s@.len(),
    ensures
        r as int == date_part(s@, a as int, b as int, signed, default as int),
{
    let part = chars_of_bytes(&s[a..b]);
    let (min, max): (i64, i64) = if signed {
        (-0x8000_0000, 0x7fff_ffff)
    } else {
        (0, 0xffff_ffff)
    };
    match parse_int_chars(part.as_slice(), signed, min, max) {
        Some(v) => v,
        None => default,
    }
}

/// The date `days` days after `date_str` (`YYYY-MM-DD`), through Julian day
/// numbers; unreadable parts count as year 0, month 1, day 1.
pub fn add_days_to_date(date_str: &str, days: i32) -> (r: String)
    requires
        add_days_ok(date_str.spec_bytes(), days as int),
    ensures
        r@ == spec_add_days(date_str.spec_bytes(), days as int),
{
    let bytes = date_str.as_bytes();
    let year = date_number(bytes, 0, 4, true, 0);
    let month = date_number(bytes, 5, 7, false, 1);
    let day = date_number(bytes, 8, 10, false, 1);
    proof {
        lemma_year_part_bounds(bytes@);
        lemma_two_digit_part_bounds(bytes@, 5);
        lemma_two_digit_part_bounds(bytes@, 8);
    }
    let jdn = julian_day(year as i32, month as u32, day as u32) + days;
    let (y, mo, d) = from_julian_day(jdn);
    let mut out = padded(y as i64, 4);
    out.push('-');
    let mut mo_text = padded(mo as i64, 2);
    let mut d_text = padded(d as i64, 2);
    out.append(&mut mo_text);
    out.push('-');
    out.append(&mut d_text);
    string_of(out.as_slice())
}

/// Whether `add_days_to_date(date_str, days)` can run (see `add_days_ok`).
pub fn add_days_can_run(date_str: &str, days: i32) -> (r: bool)
    ensures
        r == add_days_ok(date_str.spec_bytes(), days as int),
{
    let bytes = date_str.as_bytes();
    if bytes.len() < 10 || !date_str.is_char_boundary(4) || !date_str.is_char_boundary(5)
        || !date_str.is_char_boundary(7) || !date_str.is_char_boundary(8)
        || !date_str.is_char_boundary(10) {
        return false;
    }
    let year = date_number(bytes, 0, 4, true, 0);
    let month = date_number(bytes, 5, 7, false, 1);
    let day = date_number(bytes, 8, 10, false, 1);
    proof {
        lemma_year_part_bounds(bytes@);
        lemma_two_digit_part_bounds(bytes@, 5);
        lemma_two_digit_part_bounds(bytes@, 8);
    }
    let jdn = julian_day(year as i32, month as u32, day as u32) as i64 + days as i64;
    -536902956 <= jdn && jdn <= 536838867
}

// ── Laws of the calendar arithmetic ─────────────────────────────────────────

/// The parts of the conversion from a day number, for day numbers from
/// the start of year -4800 on: every division there is of a number that is
/// not negative.
proof fn lemma_from_julian_day_parts(j: int)
    requires
        j + 32044 >= 0,
    ensures
        ({
            let a = j + 32044;
            let b = (4 * a + 3) / 146097;
            let c = a - (146097 * b) / 4;
            let d = (4 * c + 3) / 1461;
            let e = c - (1461 * d) / 4;
            let m = (5 * e + 2) / 153;
            &&& b >= 0
            &&& 0 <= c <= 36524
            &&& (146097 * b) / 4 == 36524 * b + b / 4
            &&& 0 <= d <= 99
            &&& (1461 * d) / 4 == 365 * d + d / 4
            &&& 0 <= e <= 365
            &&& 0 <= m <= 11
            &&& 1 <= e - (153 * m + 2) / 5 + 1 <= 31
            &&& spec_from_julian_day(j) == (
                100 * b + d - 4800 + m / 10,
                (m + 3 - 12 * (m / 10)) as u32,
                (e - (153 * m + 2) / 5 + 1) as u32,
            )
        }),
{
    let a = j + 32044;
    let b = (4 * a + 3) / 146097;
    assert(b >= 0);
    assert(146097 * b <= 4 * a + 3 < 146097 * b + 146097);
    assert((146097 * b) / 4 == 36524 * b + b / 4);
    let c = a - (146097 * b) / 4;
    assert(0 <= c <= 36524);
    let d = (4 * c + 3) / 1461;
    assert(1461 * d <= 4 * c + 3 < 1461 * d + 1461);
    assert(0 <= d <= 99);
    assert((1461 * d) / 4 == 365 * d + d / 4);
    let e = c - (1461 * d) / 4;
    assert(0 <= e <= 365);
    let m = (5 * e + 2) / 153;
    assert(153 * m <= 5 * e + 2 < 153 * m + 153);
    assert(0 <= m <= 11);
    assert(5 * ((153 * m + 2) / 5) <= 153 * m + 2 < 5 * ((153 * m + 2) / 5) + 5);
    assert(1 <= e - (153 * m + 2) / 5 + 1 <= 31);
    assert(tdiv(4 * a + 3, 146097) == b);
    assert(tdiv(146097 * b, 4) == (146097 * b) / 4);
    assert(tdiv(4 * c + 3, 1461) == d);
    assert(tdiv(1461 * d, 4) == (1461 * d) / 4);
    assert(tdiv(5 * e + 2, 153) == m);
    assert(tdiv(153 * m + 2, 5) == (153 * m + 2) / 5);
    assert(tdiv(m, 10) == m / 10);
}

/// The day number of the date a day number converts to is that day number,
/// for day numbers from the start of year -4800 on.
pub proof fn lemma_julian_day_of_date(j: int)
    requires
        j + 32044 >= 0,
    ensures
        ({
            let r = spec_from_julian_day(j);
            &&& 1 <= r.1 <= 12
            &&& 1 <= r.2 <= 31
            &&& spec_julian_day(r.0, r.1 as int, r.2 as int) == j
        }),
{
    lemma_from_julian_day_parts(j);
    let a = j + 32044;
    let b = (4 * a + 3) / 146097;
    let c = a - (146097 * b) / 4;
    let d = (4 * c + 3) / 1461;
    let e = c - (1461 * d) / 4;
    let m = (5 * e + 2) / 153;
    let r = spec_from_julian_day(j);
    let month = m + 3 - 12 * (m / 10);
    let day = e - (153 * m + 2) / 5 + 1;
    assert(r.1 as int == month);
    assert(r.2 as int == day);
    assert(tdiv(14 - month, 12) == m / 10);
    let y = 100 * b + d;
    assert(r.0 + 4800 - tdiv(14 - month, 12) == y);
    assert(month + 12 * tdiv(14 - month, 12) - 3 == m);
    assert(y / 4 == 25 * b + d / 4);
    assert(y / 100 == b);
    assert(y / 400 == b / 4);
    assert(tdiv(y, 4) == y / 4);
    assert(tdiv(y, 100) == y / 100);
    assert(tdiv(y, 400) == y / 400);
    assert(tdiv(153 * m + 2, 5) == (153 * m + 2) / 5);
}

proof fn lemma_digit_char(x: int)
    requires
        0 <= x <= 9,
    ensures
        digit_char(x) as int == '0' as int + x,
        is_digit(digit_char(x)),
{
}

proof fn lemma_decimal(n: nat, k: nat)
    requires
        k >= 1,
        n < pow10(k),
    ensures
        all_digits(decimal(n)),
        digits_value(decimal(n)) == n,
        1 <= decimal(n).len() <= k,
    decreases n,
{
    lemma_digit_char((n % 10) as int);
    let c = digit_char((n % 10) as int);
    if n < 10 {
        assert(decimal(n).drop_last() =~= Seq::<char>::empty());
        assert(decimal(n).last() == c);
        assert(digits_value(Seq::<char>::empty()) == 0);
        assert(digits_value(decimal(n)) == 0 * 10 + (c as int - '0' as int));
    }
    if n >= 10 {
        assert(k >= 2) by {
            if k == 1 {
                reveal_with_fuel(pow10, 2);
            }
        }
        assert(pow10(k) == 10 * pow10((k - 1) as nat));
        lemma_decimal(n / 10, (k - 1) as nat);
        let s = decimal(n);
        assert(s == decimal(n / 10).push(digit_char((n % 10) as int)));
        assert(s.drop_last() =~= decimal(n / 10));
        assert(s.last() == c);
        assert(digits_value(s) == (n / 10) as int * 10 + (c as int - '0' as int));
        assert(all_digits(s)) by {
            assert forall|i: int| 0 <= i < s.len() implies is_digit(#[trigger] s[i]) by {
                if i < s.len() - 1 {
                    assert(s[i] == decimal(n / 10)[i]);
                }
            }
        }
    }
}

proof fn lemma_zeros_value(z: Seq<char>, s: Seq<char>)
    requires
        forall|i: int| 0 <= i < z.len() ==> z[i] == '0',
    ensures
        digits_value(z + s) == digits_value(s),
    decreases s.len() + z.len(),
{
    if s.len() > 0 {
        assert((z + s).drop_last() =~= z + s.drop_last());
        lemma_zeros_value(z, s.drop_last());
    } else if z.len() > 0 {
        assert(z + s =~= z);
        assert(z.drop_last() + s =~= z.drop_last());
        lemma_zeros_value(z.drop_last(), s);
    } else {
        assert(z + s =~= s);
    }
}

/// A number below `10^w` written zero-padded to `w` places takes `w`
/// digits and reads back as itself.
proof fn lemma_padded_digits(v: int, w: nat)
    requires
        w >= 1,
        0 <= v < pow10(w),
    ensures
        fmt_padded(v, w as int).len() == w,
        all_digits(fmt_padded(v, w as int)),
        digits_value(fmt_padded(v, w as int)) == v,
{
    lemma_decimal(v as nat, w);
    let d = decimal(v as nat);
    let p = fmt_padded(v, w as int);
    if d.len() < w {
        let z = Seq::new((w - d.len()) as nat, |i: int| '0');
        assert(p == z + d);
        lemma_zeros_value(z, d);
        assert(all_digits(p)) by {
            assert forall|i: int| 0 <= i < p.len() implies is_digit(#[trigger] p[i]) by {
                if i >= z.len() {
                    assert(p[i] == d[i - z.len()]);
                }
            }
        }
    }
}

/// The characters of a date string are ASCII digits and dashes.
proof fn lemma_date_text(y: int, mo: int, d: int)
    requires
        0 <= y <= 9999,
        0 <= mo <= 99,
        0 <= d <= 99,
    ensures
        fmt_date(y, mo, d).len() == 10,
        is_ascii_chars(fmt_date(y, mo, d)),
        fmt_date(y, mo, d).subrange(0, 4) == fmt_padded(y, 4),
        fmt_date(y, mo, d).subrange(5, 7) == fmt_padded(mo, 2),
        fmt_date(y, mo, d).subrange(8, 10) == fmt_padded(d, 2),
{
    reveal_with_fuel(pow10, 5);
    lemma_padded_digits(y, 4);
    lemma_padded_digits(mo, 2);
    lemma_padded_digits(d, 2);
    let t = fmt_date(y, mo, d);
    let py = fmt_padded(y, 4);
    let pm = fmt_padded(mo, 2);
    let pd = fmt_padded(d, 2);
    assert(t == py + seq!['-'] + pm + seq!['-'] + pd);
    assert(t.subrange(0, 4) =~= py);
    assert(t.subrange(5, 7) =~= pm);
    assert(t.subrange(8, 10) =~= pd);
    assert forall|i: int| 0 <= i < t.len() implies '\0' <= #[trigger] t[i] <= '\u{7f}' by {
        if i < 4 {
            assert(t[i] == py[i] && is_digit(py[i]));
        } else if 5 <= i < 7 {
            assert(t[i] == pm[i - 5] && is_digit(pm[i - 5]));
        } else if 8 <= i < 10 {
            assert(t[i] == pd[i - 8] && is_digit(pd[i - 8]));
        }
    }
}

/// The bytes `a..b` of an ASCII text, read as characters, are its
/// characters `a..b`.
proof fn lemma_ascii_part(t: Seq<char>, a: int, b: int)
    requires
        is_ascii_chars(t),
        0 <= a <= b <= t.len(),
    ensures
        byte_chars(encode_utf8(t).subrange(a, b)) == t.subrange(a, b),
{
    vstd::utf8::is_ascii_chars_encode_utf8(t);
    let bytes = encode_utf8(t);
    assert forall|i: int| 0 <= i < b - a implies #[trigger] byte_chars(bytes.subrange(a, b))[i]
        == t.subrange(a, b)[i] by {
        assert(t[a + i] as u8 == bytes[a + i]);
        assert('\0' <= t[a + i] <= '\u{7f}');
        assert((t[a + i] as u8) as char == t[a + i]);
    }
    assert(byte_chars(bytes.subrange(a, b)) =~= t.subrange(a, b));
}

/// Reading back a date written with a four-digit year gives its parts.
proof fn lemma_read_date(y: int, mo: int, d: int)
    requires
        0 <= y <= 9999,
        0 <= mo <= 99,
        0 <= d <= 99,
    ensures
        fmt_date(y, mo, d).len() == 10,
        is_ascii_chars(fmt_date(y, mo, d)),
        date_fields(encode_utf8(fmt_date(y, mo, d))) == (y, mo, d),
{
    reveal_with_fuel(pow10, 5);
    lemma_date_text(y, mo, d);
    lemma_padded_digits(y, 4);
    lemma_padded_digits(mo, 2);
    lemma_padded_digits(d, 2);
    let t = fmt_date(y, mo, d);
    vstd::utf8::is_ascii_chars_encode_utf8(t);
    lemma_ascii_part(t, 0, 4);
    lemma_ascii_part(t, 5, 7);
    lemma_ascii_part(t, 8, 10);
    let py = fmt_padded(y, 4);
    let pm = fmt_padded(mo, 2);
    let pd = fmt_padded(d, 2);
    assert(is_digit(py[0]) && is_digit(pm[0]) && is_digit(pd[0]));
}

/// A day number before the start of year -4800 converts to a year below
/// zero: a date with a year from zero on has a day number the conversion
/// takes apart without negative numbers.
proof fn lemma_early_day_year(j: int)
    requires
        j + 32044 < 0,
    ensures
        spec_from_julian_day(j).0 < 0,
{
    let a = j + 32044;
    let q = (-(4 * a + 3)) / 146097;
    assert(q >= 0);
    assert(146097 * q <= -(4 * a + 3));
    let b = tdiv(4 * a + 3, 146097);
    assert(b == -q);
    assert(tdiv(146097 * b, 4) == -((146097 * q) / 4));
    assert((146097 * q) / 4 <= -a - 1);
    let c = a - tdiv(146097 * b, 4);
    assert(c <= -1);
    let r = (-(4 * c + 3)) / 1461;
    assert(r >= 0);
    assert(1461 * r <= -(4 * c + 3));
    let d = tdiv(4 * c + 3, 1461);
    assert(d == -r);
    assert(tdiv(1461 * d, 4) == -((1461 * r) / 4));
    assert((1461 * r) / 4 <= -c - 1);
    let e = c - tdiv(1461 * d, 4);
    assert(e <= -1);
    let m = tdiv(5 * e + 2, 153);
    assert(m <= 0);
    assert(tdiv(m, 10) <= 0);
}

/// The day number of a date whose year is zero or more is one the
/// conversion takes apart without negative numbers.
proof fn lemma_day_of_year_from_zero(j: int)
    requires
        spec_from_julian_day(j).0 >= 0,
    ensures
        j + 32044 >= 0,
{
    if j + 32044 < 0 {
        lemma_early_day_year(j);
    }
}

/// Adding days twice is adding their sum: `add_days_to_date` on what it
/// gave for `a` days, with `b` days, gives what it gives for `a + b` days,
/// whenever the first result has a four-digit year.
pub proof fn law_add_days_compose(s: Seq<u8>, a: int, b: int)
    requires
        0 <= spec_from_julian_day(date_jdn(s) + a).0 <= 9999,
    ensures
        spec_add_days(encode_utf8(spec_add_days(s, a)), b) == spec_add_days(s, a + b),
{
    let j = date_jdn(s) + a;
    lemma_day_of_year_from_zero(j);
    lemma_julian_day_of_date(j);
    let r = spec_from_julian_day(j);
    lemma_read_date(r.0, r.1 as int, r.2 as int);
    assert(date_jdn(encode_utf8(spec_add_days(s, a))) == j);
}

/// Whether `y` is a leap year of the Gregorian calendar.
pub open spec fn is_leap(y: int) -> bool {
    (y % 4 == 0 && y % 100 != 0) || y % 400 == 0
}

/// The number of days of month `m` of year `y`.
pub open spec fn days_in_month(y: int, m: int) -> int {
    if m == 2 {
        if is_leap(y) {
            29
        } else {
            28
        }
    } else if m == 4 || m == 6 || m == 9 || m == 11 {
        30
    } else {
        31
    }
}

/// Whether `(y, m, d)` is a date of the calendar with a four-digit year.
pub open spec fn valid_date(y: int, m: int, d: int) -> bool {
    &&& 0 <= y <= 9999
    &&& 1 <= m <= 12
    &&& 1 <= d <= days_in_month(y, m)
}

/// The month of the March-based year that day `k + t` falls in is `mm`,
/// for `k` the first day of month `mm` and `t` within the month.
proof fn lemma_month_of_day(mm: int, t: int)
    requires
        0 <= mm <= 11,
        0 <= t,
        t < (if mm == 11 {
            29int
        } else if mm == 1 || mm == 3 || mm == 6 || mm == 8 {
            30int
        } else {
            31int
        }),
    ensures
        (5 * ((153 * mm + 2) / 5 + t) + 2) / 153 == mm,
{
    if mm == 0 {
    } else if mm == 1 {
    } else if mm == 2 {
    } else if mm == 3 {
    } else if mm == 4 {
    } else if mm == 5 {
    } else if mm == 6 {
    } else if mm == 7 {
    } else if mm == 8 {
    } else if mm == 9 {
    } else if mm == 10 {
    } else {
    }
}

/// The conversion from a day number takes apart the day number of the
/// `e0`-th day of the March-based year `100 * bb + dd`.
proof fn lemma_from_parts_inverse(bb: int, dd: int, e0: int)
    requires
        bb >= 0,
        0 <= dd <= 99,
        0 <= e0 <= 365,
        e0 == 365 ==> dd % 4 == 3,
        e0 == 365 && dd == 99 ==> bb % 4 == 3,
    ensures
        ({
            let a2 = e0 + 36524 * bb + bb / 4 + 365 * dd + dd / 4;
            let b2 = (4 * a2 + 3) / 146097;
            let c2 = a2 - (146097 * b2) / 4;
            let d2 = (4 * c2 + 3) / 1461;
            let e2 = c2 - (1461 * d2) / 4;
            b2 == bb && d2 == dd && e2 == e0
        }),
{
    let cc = 365 * dd + dd / 4 + e0;
    assert(0 <= cc <= 36524);
    assert(cc == 36524 ==> bb % 4 == 3);
    let a2 = e0 + 36524 * bb + bb / 4 + 365 * dd + dd / 4;
    assert(4 * a2 + 3 == 146097 * bb + 4 * cc + 3 - bb % 4);
    assert(0 <= 4 * cc + 3 - bb % 4 < 146097);
    let b2 = (4 * a2 + 3) / 146097;
    assert(b2 == bb);
    assert((146097 * b2) / 4 == 36524 * bb + bb / 4);
    let c2 = a2 - (146097 * b2) / 4;
    assert(c2 == cc);
    assert(4 * c2 + 3 == 1461 * dd + 4 * e0 + 3 - dd % 4);
    assert(0 <= 4 * e0 + 3 - dd % 4 < 1461);
    let d2 = (4 * c2 + 3) / 1461;
    assert(d2 == dd);
    assert((1461 * d2) / 4 == 365 * dd + dd / 4);
}

/// The date of the day number of a date is that date.
#[verifier::spinoff_prover]
#[verifier::rlimit(40)]
pub proof fn lemma_date_of_julian_day(y: int, m: int, d: int)
    requires
        valid_date(y, m, d),
    ensures
        spec_julian_day(y, m, d) + 32044 >= 0,
        spec_from_julian_day(spec_julian_day(y, m, d)) == (y, m as u32, d as u32),
{
    let a = (14 - m) / 12;
    assert(tdiv(14 - m, 12) == a);
    assert(a == if m <= 2 {
        1int
    } else {
        0int
    });
    let yy = y + 4800 - a;
    let mm = m + 12 * a - 3;
    assert(0 <= mm <= 11);
    let k = (153 * mm + 2) / 5;
    assert(tdiv(153 * mm + 2, 5) == k);
    let e0 = d - 1 + k;
    let bb = yy / 100;
    let dd = yy % 100;
    assert(yy == 100 * bb + dd);
    assert(tdiv(yy, 4) == yy / 4);
    assert(tdiv(yy, 100) == yy / 100);
    assert(tdiv(yy, 400) == yy / 400);
    assert(yy / 4 == 25 * bb + dd / 4);
    assert(yy / 400 == bb / 4);
    let j = spec_julian_day(y, m, d);
    assert(j + 32044 == e0 + 36524 * bb + bb / 4 + 365 * dd + dd / 4);
    lemma_month_of_day(mm, d - 1);
    assert(0 <= e0 <= 365);
    assert(e0 == 365 ==> dd % 4 == 3) by {
        if e0 == 365 {
            assert(mm == 11 && d == 29 && is_leap(y));
            assert(y == yy - 4799);
        }
    }
    assert(e0 == 365 && dd == 99 ==> bb % 4 == 3) by {
        if e0 == 365 && dd == 99 {
            assert(mm == 11 && d == 29 && is_leap(y));
            assert(y == 100 * bb - 4700);
        }
    }
    lemma_from_parts_inverse(bb, dd, e0);
    lemma_from_julian_day_parts(j);
}

/// Going `days` days forward and then as many back gives the date back,
/// for a date written `YYYY-MM-DD` with a four-digit year, when the date
/// in between has a four-digit year too.
pub proof fn law_add_days_round_trip(y: int, m: int, d: int, days: int)
    requires
        valid_date(y, m, d),
        0 <= spec_from_julian_day(spec_julian_day(y, m, d) + days).0 <= 9999,
    ensures
        spec_add_days(encode_utf8(spec_add_days(encode_utf8(fmt_date(y, m, d)), days)), -days)
            == fmt_date(y, m, d),
{
    let s = encode_utf8(fmt_date(y, m, d));
    lemma_read_date(y, m, d);
    assert(date_jdn(s) == spec_julian_day(y, m, d));
    law_add_days_compose(s, days, -days);
    lemma_date_of_julian_day(y, m, d);
    assert(days + -days == 0);
}

/// Whether the date `p` comes before the date `q` in the calendar.
pub open spec fn date_precedes(p: (int, u32, u32), q: (int, u32, u32)) -> bool {
    ||| p.0 < q.0
    ||| p.0 == q.0 && p.1 < q.1
    ||| p.0 == q.0 && p.1 == q.1 && p.2 < q.2
}

/// The day number splits into 400-year cycles `b`, years `d` of the
/// century and days `e` of the March-based year; a full century only in
/// the last of four, a 366th day only in the last of four years.
proof fn lemma_parts_limits(j: int)
    requires
        j + 32044 >= 0,
    ensures
        ({
            let a = j + 32044;
            let b = (4 * a + 3) / 146097;
            let c = a - (146097 * b) / 4;
            let d = (4 * c + 3) / 1461;
            let e = c - (1461 * d) / 4;
            &&& a == 36524 * b + b / 4 + 365 * d + d / 4 + e
            &&& c == 36524 ==> b % 4 == 3
            &&& e == 365 ==> d % 4 == 3
        }),
{
    lemma_from_julian_day_parts(j);
    let a = j + 32044;
    let b = (4 * a + 3) / 146097;
    let c = a - (146097 * b) / 4;
    let d = (4 * c + 3) / 1461;
    let e = c - (1461 * d) / 4;
    assert(4 * a + 3 < 146097 * b + 146097);
    assert(4 * (b / 4) == b - b % 4);
    assert(4 * c == 4 * a - 146097 * b + b % 4);
    assert(4 * c + 3 < 1461 * d + 1461);
    assert(4 * (d / 4) == d - d % 4);
    assert(4 * e == 4 * c - 1461 * d + d % 4);
}

/// Cycles, years and days in a later order give a later day number.
proof fn lemma_parts_order(b1: int, d1: int, e1: int, b2: int, d2: int, e2: int)
    requires
        b1 >= 0,
        b2 >= 0,
        0 <= d1 <= 99,
        0 <= d2 <= 99,
        0 <= e1 <= 365,
        0 <= e2 <= 365,
        365 * d1 + d1 / 4 + e1 <= 36524,
        365 * d2 + d2 / 4 + e2 <= 36524,
        365 * d1 + d1 / 4 + e1 == 36524 ==> b1 % 4 == 3,
        e1 == 365 ==> d1 % 4 == 3,
        b1 < b2 || (b1 == b2 && d1 < d2),
    ensures
        36524 * b1 + b1 / 4 + 365 * d1 + d1 / 4 + e1 < 36524 * b2 + b2 / 4 + 365 * d2 + d2 / 4 + e2,
{
    if b1 < b2 {
        assert(b2 / 4 >= (b1 + 1) / 4);
        assert(365 * d1 + d1 / 4 + e1 < 36524 ==> 36524 * b1 + 365 * d1 + d1 / 4 + e1 < 36524 * b2);
        assert(b1 % 4 == 3 ==> (b1 + 1) / 4 == b1 / 4 + 1);
    } else {
        assert(d2 / 4 >= (d1 + 1) / 4);
        assert(d1 % 4 == 3 ==> (d1 + 1) / 4 == d1 / 4 + 1);
    }
}

/// A later day number converts to a later date.
proof fn lemma_from_julian_day_monotone(j1: int, j2: int)
    requires
        j1 + 32044 >= 0,
        j1 < j2,
    ensures
        date_precedes(spec_from_julian_day(j1), spec_from_julian_day(j2)),
{
    lemma_from_julian_day_parts(j1);
    lemma_from_julian_day_parts(j2);
    lemma_parts_limits(j1);
    lemma_parts_limits(j2);
    let a1 = j1 + 32044;
    let b1 = (4 * a1 + 3) / 146097;
    let c1 = a1 - (146097 * b1) / 4;
    let d1 = (4 * c1 + 3) / 1461;
    let e1 = c1 - (1461 * d1) / 4;
    let m1 = (5 * e1 + 2) / 153;
    let a2 = j2 + 32044;
    let b2 = (4 * a2 + 3) / 146097;
    let c2 = a2 - (146097 * b2) / 4;
    let d2 = (4 * c2 + 3) / 1461;
    let e2 = c2 - (1461 * d2) / 4;
    let m2 = (5 * e2 + 2) / 153;
    assert(c1 == 365 * d1 + d1 / 4 + e1);
    assert(c2 == 365 * d2 + d2 / 4 + e2);
    if b2 < b1 || (b2 == b1 && d2 < d1) {
        lemma_parts_order(b2, d2, e2, b1, d1, e1);
    }
    if b1 == b2 && d1 == d2 {
        assert(e1 < e2);
    }
    let y1 = 100 * b1 + d1;
    let y2 = 100 * b2 + d2;
    assert(y1 <= y2);
    assert(y1 == y2 ==> b1 == b2 && d1 == d2);
    if y1 == y2 {
        assert(m1 <= m2);
        assert(5 * ((153 * m1 + 2) / 5) <= 153 * m1 + 2);
    }
}

/// `x` sorts before `y` when they agree before position `k` and `x` has
/// the smaller byte there.
proof fn lemma_lex_less_at(x: Seq<u8>, y: Seq<u8>, k: int)
    requires
        0 <= k < x.len(),
        k < y.len(),
        x.take(k) == y.take(k),
        x[k] < y[k],
    ensures
        lex_order(x, y) == Order::Less,
    decreases k,
{
    if k > 0 {
        assert(x[0] == x.take(k)[0]);
        assert(y[0] == y.take(k)[0]);
        assert(x.drop_first().take(k - 1) =~= x.take(k).drop_first());
        assert(y.drop_first().take(k - 1) =~= y.take(k).drop_first());
        lemma_lex_less_at(x.drop_first(), y.drop_first(), k - 1);
    }
}

/// The digits of a digit string but its last.
proof fn lemma_all_digits_drop_last(s: Seq<char>)
    requires
        all_digits(s),
        s.len() > 0,
    ensures
        all_digits(s.drop_last()),
        is_digit(s.last()),
{
    assert forall|i: int| 0 <= i < s.drop_last().len() implies is_digit(#[trigger] s.drop_last()[i]) by {
        assert(s.drop_last()[i] == s[i]);
    }
}

/// Digit strings of one length with one value are one string.
proof fn lemma_digits_value_injective(s1: Seq<char>, s2: Seq<char>)
    requires
        all_digits(s1),
        all_digits(s2),
        s1.len() == s2.len(),
        digits_value(s1) == digits_value(s2),
    ensures
        s1 == s2,
    decreases s1.len(),
{
    if s1.len() > 0 {
        lemma_all_digits_drop_last(s1);
        lemma_all_digits_drop_last(s2);
        lemma_digits_value_injective(s1.drop_last(), s2.drop_last());
        assert(s1 =~= s1.drop_last().push(s1.last()));
        assert(s2 =~= s2.drop_last().push(s2.last()));
    } else {
        assert(s1 =~= s2);
    }
}

/// Of two digit strings of one length, the one of smaller value has the
/// smaller digit at the first place where they differ.
proof fn lemma_digits_order(s1: Seq<char>, s2: Seq<char>) -> (k: int)
    requires
        all_digits(s1),
        all_digits(s2),
        s1.len() == s2.len(),
        digits_value(s1) < digits_value(s2),
    ensures
        0 <= k < s1.len(),
        s1.take(k) == s2.take(k),
        s1[k] < s2[k],
    decreases s1.len(),
{
    if s1.len() == 0 {
        assert(false);
        0
    } else {
        lemma_all_digits_drop_last(s1);
        lemma_all_digits_drop_last(s2);
        let p1 = s1.drop_last();
        let p2 = s2.drop_last();
        if digits_value(p1) < digits_value(p2) {
            let k = lemma_digits_order(p1, p2);
            assert(s1.take(k) =~= p1.take(k));
            assert(s2.take(k) =~= p2.take(k));
            assert(s1[k] == p1[k] && s2[k] == p2[k]);
            k
        } else {
            lemma_digits_value_injective(p1, p2);
            assert(s1.take(s1.len() - 1) =~= p1);
            assert(s2.take(s2.len() - 1) =~= p2);
            s1.len() - 1
        }
    }
}

/// Dates written `YYYY-MM-DD` sort as the calendar orders them.
proof fn lemma_date_text_order(y1: int, m1: int, d1: int, y2: int, m2: int, d2: int)
    requires
        0 <= y1 <= 9999,
        0 <= y2 <= 9999,
        0 <= m1 <= 99,
        0 <= m2 <= 99,
        0 <= d1 <= 99,
        0 <= d2 <= 99,
        date_precedes((y1, m1 as u32, d1 as u32), (y2, m2 as u32, d2 as u32)),
    ensures
        str_order(fmt_date(y1, m1, d1), fmt_date(y2, m2, d2)) == Order::Less,
{
    reveal_with_fuel(pow10, 5);
    lemma_date_text(y1, m1, d1);
    lemma_date_text(y2, m2, d2);
    lemma_padded_digits(y1, 4);
    lemma_padded_digits(y2, 4);
    lemma_padded_digits(m1, 2);
    lemma_padded_digits(m2, 2);
    lemma_padded_digits(d1, 2);
    lemma_padded_digits(d2, 2);
    let t1 = fmt_date(y1, m1, d1);
    let t2 = fmt_date(y2, m2, d2);
    let (py1, pm1, pd1) = (fmt_padded(y1, 4), fmt_padded(m1, 2), fmt_padded(d1, 2));
    let (py2, pm2, pd2) = (fmt_padded(y2, 4), fmt_padded(m2, 2), fmt_padded(d2, 2));
    assert(t1 == py1 + seq!['-'] + pm1 + seq!['-'] + pd1);
    assert(t2 == py2 + seq!['-'] + pm2 + seq!['-'] + pd2);
    let pos: int = if y1 < y2 {
        lemma_digits_order(py1, py2)
    } else if m1 < m2 {
        5 + lemma_digits_order(pm1, pm2)
    } else {
        8 + lemma_digits_order(pd1, pd2)
    };
    assert(t1.take(pos) =~= t2.take(pos) && t1[pos] < t2[pos]) by {
        if y1 < y2 {
            let k = pos;
            assert(t1.take(k) =~= py1.take(k));
            assert(t2.take(k) =~= py2.take(k));
            assert(t1[k] == py1[k] && t2[k] == py2[k]);
        } else if m1 < m2 {
            let k = pos - 5;
            assert(t1.take(pos) =~= py1 + seq!['-'] + pm1.take(k));
            assert(t2.take(pos) =~= py2 + seq!['-'] + pm2.take(k));
            assert(t1[pos] == pm1[k] && t2[pos] == pm2[k]);
        } else {
            let k = pos - 8;
            assert(t1.take(pos) =~= py1 + seq!['-'] + pm1 + seq!['-'] + pd1.take(k));
            assert(t2.take(pos) =~= py2 + seq!['-'] + pm2 + seq!['-'] + pd2.take(k));
            assert(t1[pos] == pd1[k] && t2[pos] == pd2[k]);
        }
    }
    vstd::utf8::is_ascii_chars_encode_utf8(t1);
    vstd::utf8::is_ascii_chars_encode_utf8(t2);
    let x = encode_utf8(t1);
    let y = encode_utf8(t2);
    assert(x.take(pos) =~= y.take(pos)) by {
        assert forall|i: int| 0 <= i < pos implies x.take(pos)[i] == y.take(pos)[i] by {
            assert(t1.take(pos)[i] == t2.take(pos)[i]);
            assert(x[i] == t1[i] as u8 && y[i] == t2[i] as u8);
        }
    }
    assert('\0' <= t1[pos] <= '\u{7f}' && '\0' <= t2[pos] <= '\u{7f}');
    assert(x[pos] == t1[pos] as u8 && y[pos] == t2[pos] as u8);
    lemma_lex_less_at(x, y, pos);
}

/// A longer shift gives a later date: `a < b` exactly when the date `a`
/// days after `s` sorts before the date `b` days after it, whenever both
/// have four-digit years.
pub proof fn law_add_days_monotone(s: Seq<u8>, a: int, b: int)
    requires
        0 <= spec_from_julian_day(date_jdn(s) + a).0 <= 9999,
        0 <= spec_from_julian_day(date_jdn(s) + b).0 <= 9999,
    ensures
        (a < b) <==> str_order(spec_add_days(s, a), spec_add_days(s, b)) == Order::Less,
{
    let ja = date_jdn(s) + a;
    let jb = date_jdn(s) + b;
    lemma_day_of_year_from_zero(ja);
    lemma_day_of_year_from_zero(jb);
    lemma_julian_day_of_date(ja);
    lemma_julian_day_of_date(jb);
    let ra = spec_from_julian_day(ja);
    let rb = spec_from_julian_day(jb);
    let ta = spec_add_days(s, a);
    let tb = spec_add_days(s, b);
    if a < b {
        lemma_from_julian_day_monotone(ja, jb);
        lemma_date_text_order(ra.0, ra.1 as int, ra.2 as int, rb.0, rb.1 as int, rb.2 as int);
    } else if a == b {
        lemma_str_order_equal(ta, tb);
    } else {
        lemma_from_julian_day_monotone(jb, ja);
        lemma_date_text_order(rb.0, rb.1 as int, rb.2 as int, ra.0, ra.1 as int, ra.2 as int);
        lemma_lex_order_flip(encode_utf8(tb), encode_utf8(ta));
    }
}

/// Adding no days to a date written `YYYY-MM-DD` with a four-digit year
/// gives it back.
pub proof fn law_add_days_zero(y: int, m: int, d: int)
    requires
        valid_date(y, m, d),
    ensures
        spec_add_days(encode_utf8(fmt_date(y, m, d)), 0) == fmt_date(y, m, d),
{
    lemma_read_date(y, m, d);
    lemma_date_of_julian_day(y, m, d);
    assert(date_jdn(encode_utf8(fmt_date(y, m, d))) == spec_julian_day(y, m, d));
}

} // verus!
