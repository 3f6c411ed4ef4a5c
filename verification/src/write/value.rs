//! Values a writer stores that are more than a number: rationals kept as
//! given, and timestamps.

use vstd::prelude::*;

use crate::text::{chars_of, copy_range, decimal, is_whitespace, is_ws, push_char, push_decimal, push_str, trim_bounds,
    trim_end_ws, trim_start_ws, trim_ws, without, without_exec, zero_padded};

verus! {

/// A date and time of day, to the second.
///
/// AAF's `TimeStamp` has a hundredths-of-a-second field too, which is always
/// written as zero, so this has none.
#[derive(Debug, Clone, Copy, PartialEq, Eq, Hash, PartialOrd, Ord)]
pub struct Timestamp {
    /// The year.
    pub year: i16,
    /// The month, 1 to 12.
    pub month: u8,
    /// The day of the month, 1 to 31.
    pub day: u8,
    /// The hour, 0 to 23.
    pub hour: u8,
    /// The minute, 0 to 59.
    pub minute: u8,
    /// The second, 0 to 59.
    pub second: u8,
}

/// The days from 1970-01-01 to a date of the proleptic Gregorian calendar,
/// counting March as the first month of a year so that a leap day ends it.
pub open spec fn days_from_civil(y: int, m: int, d: int) -> int {
    let year = y - (if m <= 2 { 1int } else { 0int });
    let era = year / 400;
    let yoe = year % 400;
    let mp = (m + 9) % 12;
    let doy = (153 * mp + 2) / 5 + d - 1;
    let doe = yoe * 365 + yoe / 4 - yoe / 100 + doy;
    era * 146097 + doe - 719468
}

/// The date `days` days after 1970-01-01: year, month and day.
pub open spec fn civil_from_days(days: int) -> (int, int, int) {
    let z = days + 719468;
    let era = z / 146097;
    let doe = z % 146097;
    let yoe = (doe - doe / 1460 + doe / 36524 - doe / 146096) / 365;
    let doy = doe - (365 * yoe + yoe / 4 - yoe / 100);
    let mp = (5 * doy + 2) / 153;
    let day = doy - (153 * mp + 2) / 5 + 1;
    let month = if mp < 10 { mp + 3 } else { mp - 9 };
    (yoe + era * 400 + (if month <= 2 { 1int } else { 0int }), month, day)
}

/// The seconds after the Unix epoch of a timestamp taken as UTC.
pub open spec fn to_unix_spec(t: Timestamp) -> int {
    days_from_civil(t.year as int, t.month as int, t.day as int) * 86400 + t.hour as int * 3600
        + t.minute as int * 60 + t.second as int
}

/// The UTC time `seconds` after the Unix epoch; a year outside `i16`
/// wraps.
pub open spec fn from_unix_spec(seconds: int) -> Timestamp {
    let days = seconds / 86400;
    let secs = seconds % 86400;
    let date = civil_from_days(days);
    Timestamp {
        year: date.0 as i16,
        month: date.1 as u8,
        day: date.2 as u8,
        hour: (secs / 3600) as u8,
        minute: (secs / 60 % 60) as u8,
        second: (secs % 60) as u8,
    }
}

/// A year as at least four digits, a minus sign counted among them.
pub open spec fn year_text(y: i16) -> Seq<char> {
    if y < 0 { "-"@ + zero_padded(decimal((-(y as int)) as nat), 3) } else { zero_padded(decimal(y as nat), 4) }
}

/// Two digits at least.
pub open spec fn two(n: u8) -> Seq<char> {
    zero_padded(decimal(n as nat), 2)
}

/// A timestamp as `YYYY-MM-DDTHH:MM:SS`.
pub open spec fn timestamp_text(t: Timestamp) -> Seq<char> {
    year_text(t.year) + "-"@ + two(t.month) + "-"@ + two(t.day) + "T"@ + two(t.hour) + ":"@ + two(t.minute) + ":"@
        + two(t.second)
}

/// Appends `n` in decimal, zero-padded to `width` digits.
fn push_padded(out: &mut String, n: u64, width: usize)
    ensures
        final(out)@ == old(out)@ + zero_padded(decimal(n as nat), width as nat),
{
    let mut digits = String::new();
    push_decimal(&mut digits, n);
    let d = chars_of(digits.as_str());
    let mut k = d.len();
    while k < width
        invariant
            d@ == decimal(n as nat),
            d.len() <= k <= width || (k == d.len() && k >= width),
            out@ == old(out)@ + Seq::new((k - d.len()) as nat, |_i: int| '0'),
        decreases width - k,
    {
        push_char(out, '0');
        assert(Seq::new((k + 1 - d.len()) as nat, |_i: int| '0')
            =~= Seq::new((k - d.len()) as nat, |_i: int| '0').push('0'));
        k = k + 1;
    }
    let ghost pad = out@;
    push_str(out, digits.as_str());
    if d.len() >= width {
        assert(Seq::new((k - d.len()) as nat, |_i: int| '0') =~= Seq::<char>::empty());
    }
    assert(out@ =~= old(out)@ + zero_padded(decimal(n as nat), width as nat));
}

/// Whole days and the seconds left over, rounding down.
fn split_days(seconds: i64) -> (r: (i64, i64))
    ensures
        r.0 as int == seconds as int / 86400,
        r.1 as int == seconds as int % 86400,
        -106_751_991_167_301 <= r.0 <= 106_751_991_167_300,
{
    // Shifted by a whole number of days to be positive.
    let x: i128 = seconds as i128 + 86400 * 106_751_991_167_301;
    let q = x / 86400;
    let days: i64 = (q - 106_751_991_167_301) as i64;
    let secs: i64 = (x % 86400) as i64;
    (days, secs)
}

/// The date `days` days after 1970-01-01.
fn civil(days: i64) -> (r: (i64, i64, i64))
    requires
        -106_751_991_167_301 <= days <= 106_751_991_167_300,
    ensures
        (r.0 as int, r.1 as int, r.2 as int) == civil_from_days(days as int),
{
    let z: i64 = days + 719_468;
    // Shifted by a whole number of eras to be positive.
    let zs: i64 = z + 146_097 * 1_000_000_000;
    let era: i64 = zs / 146_097 - 1_000_000_000;
    let doe: i64 = zs % 146_097;
    assert(era as int == z as int / 146097 && doe as int == z as int % 146097);
    let yoe = (doe - doe / 1460 + doe / 36_524 - doe / 146_096) / 365;
    let doy = doe - (365 * yoe + yoe / 4 - yoe / 100);
    let mp = (5 * doy + 2) / 153;
    let day = doy - (153 * mp + 2) / 5 + 1;
    let month = if mp < 10 { mp + 3 } else { mp - 9 };
    (yoe + era * 400 + if month <= 2 { 1i64 } else { 0i64 }, month, day)
}

/// Where the first `c` in `s` is.
pub open spec fn find_char(s: Seq<char>, c: char) -> Option<int>
    decreases s.len(),
{
    if s.len() == 0 {
        None
    } else if s[0] == c {
        Some(0)
    } else {
        match find_char(s.drop_first(), c) {
            Some(i) => Some(i + 1),
            None => None,
        }
    }
}

/// `s` split at `c` into at most three parts, the last holding the rest.
pub open spec fn split3(s: Seq<char>, c: char) -> Seq<Seq<char>> {
    match find_char(s, c) {
        None => seq![s],
        Some(i) => {
            let rest = s.skip(i + 1);
            match find_char(rest, c) {
                None => seq![s.take(i), rest],
                Some(j) => seq![s.take(i), rest.take(j), rest.skip(j + 1)],
            }
        },
    }
}

/// Whether every character of `s` is a decimal digit.
pub open spec fn all_digits(s: Seq<char>) -> bool {
    forall|i: int| 0 <= i < s.len() ==> '0' <= #[trigger] s[i] && s[i] <= '9'
}

/// The number decimal digits spell.
pub open spec fn digits_value(s: Seq<char>) -> int
    decreases s.len(),
{
    if s.len() == 0 {
        0
    } else {
        digits_value(s.drop_last()) * 10 + (s.last() as int - 0x30)
    }
}

/// What an integer in the usual syntax reads as: an optional sign (a minus
/// only where `signed`), then one or more digits; `None` where the number
/// is not in `lo..=hi`.
pub open spec fn int_text(s: Seq<char>, signed: bool, lo: int, hi: int) -> Option<int> {
    let negative = s.len() > 0 && s[0] == '-' && signed;
    let d = if s.len() > 0 && (s[0] == '+' || negative) { s.drop_first() } else { s };
    if d.len() > 0 && all_digits(d) {
        let v = if negative { -digits_value(d) } else { digits_value(d) };
        if lo <= v <= hi { Some(v) } else { None }
    } else {
        None
    }
}

/// What `YYYY-MM-DDTHH:MM:SS` reads as: the text before the first `T` split
/// at hyphens and the text after it at colons, each part an integer that
/// fits its field.
pub open spec fn parse_iso_spec(s: Seq<char>) -> Option<Timestamp> {
    match find_char(s, 'T') {
        None => None,
        Some(at) => {
            let d = split3(s.take(at), '-');
            let t = split3(s.skip(at + 1), ':');
            if d.len() < 3 || t.len() < 3 {
                None
            } else {
                match (int_text(d[0], true, -32768, 32767), int_text(d[1], false, 0, 255), int_text(d[2], false, 0, 255),
                    int_text(t[0], false, 0, 255), int_text(t[1], false, 0, 255), int_text(t[2], false, 0, 255)) {
                    (Some(year), Some(month), Some(day), Some(hour), Some(minute), Some(second)) => Some(Timestamp {
                        year: year as i16,
                        month: month as u8,
                        day: day as u8,
                        hour: hour as u8,
                        minute: minute as u8,
                        second: second as u8,
                    }),
                    _ => None,
                }
            }
        },
    }
}

/// Where the first `c` in `s` is.
pub(crate) fn find(s: &[char], c: char) -> (r: Option<usize>)
    ensures
        r matches Some(i) ==> find_char(s@, c) == Some(i as int) && i < s@.len() && s@[i as int] == c,
        r is None ==> find_char(s@, c) is None,
{
    let mut i: usize = 0;
    assert(s@.skip(0) =~= s@);
    while i < s.len()
        invariant
            i <= s@.len(),
            forall|j: int| 0 <= j < i ==> s@[j] != c,
            find_char(s@, c) == match find_char(s@.skip(i as int), c) { Some(k) => Some(k + i), None => None::<int> },
        decreases s@.len() - i,
    {
        assert(s@.skip(i as int)[0] == s@[i as int]);
        if s[i] == c {
            return Some(i);
        }
        assert(s@.skip(i as int).drop_first() =~= s@.skip(i + 1));
        i = i + 1;
    }
    None
}

/// `s` split at `c` into at most three parts, the last holding the rest.
fn split_three(s: &[char], c: char) -> (r: Vec<Vec<char>>)
    ensures
        r@.len() == split3(s@, c).len(),
        forall|k: int| 0 <= k < r@.len() ==> (#[trigger] r@[k])@ == split3(s@, c)[k],
{
    let mut out: Vec<Vec<char>> = Vec::new();
    let found = find(s, c);
    match found {
        None => {
            out.push(copy_range(s, 0, s.len()));
            assert(s@.subrange(0, s@.len() as int) =~= s@);
        },
        Some(i) => {
            let n = s.len();
            assert(i < n);
            let rest = copy_range(s, i + 1, n);
            assert(rest@ =~= s@.skip(i + 1));
            let first = copy_range(s, 0, i);
            assert(first@ =~= s@.take(i as int));
            out.push(first);
            let again = find(rest.as_slice(), c);
            match again {
                None => {
                    out.push(rest);
                    assert(out@.len() == 2 && out@[0]@ == s@.take(i as int) && out@[1]@ == s@.skip(i + 1));
                },
                Some(j) => {
                    let second = copy_range(rest.as_slice(), 0, j);
                    let third = copy_range(rest.as_slice(), j + 1, rest.len());
                    assert(second@ =~= rest@.take(j as int));
                    assert(third@ =~= rest@.skip(j + 1));
                    out.push(second);
                    out.push(third);
                    assert(out@.len() == 3 && out@[0]@ == s@.take(i as int) && out@[1]@ == rest@.take(j as int)
                        && out@[2]@ == rest@.skip(j + 1));
                },
            }
        },
    }
    out
}

/// An integer in the usual syntax, if it is one and lies in `lo..=hi`.
pub(crate) fn parse_int(s: &[char], signed: bool, lo: i64, hi: i64) -> (r: Option<i64>)
    requires
        -0x8_0000_0000 <= lo,
        hi <= 0x8_0000_0000,
    ensures
        match int_text(s@, signed, lo as int, hi as int) { Some(v) => r == Some(v as i64), None => r is None },
{
    let negative = s.len() > 0 && s[0] == '-' && signed;
    let start: usize = if s.len() > 0 && (s[0] == '+' || negative) { 1 } else { 0 };
    let d = copy_range(s, start, s.len());
    assert(start == 1 ==> d@ =~= s@.drop_first());
    assert(start == 0 ==> d@ =~= s@);

    if d.len() == 0 {
        return None;
    }
    // The value, or a bound past every range asked for.
    let mut v: i64 = 0;
    let mut i: usize = 0;
    assert(d@.take(0) =~= Seq::<char>::empty());
    while i < d.len()
        invariant
            i <= d@.len(),
            all_digits(d@.take(i as int)),
            v == if digits_value(d@.take(i as int)) < 0x100_0000_0000 { digits_value(d@.take(i as int)) } else { 0x100_0000_0000 },
            0 <= v <= 0x100_0000_0000,
            negative == (s@.len() > 0 && s@[0] == '-' && signed),
            d@ == (if s@.len() > 0 && (s@[0] == '+' || negative) { s@.drop_first() } else { s@ }),
        decreases d@.len() - i,
    {
        let c = d[i];
        if c < '0' || c > '9' {
            assert(!all_digits(d@)) by {
                assert(d@[i as int] == c);
            }
            assert(int_text(s@, signed, lo as int, hi as int) is None);
            return None;
        }
        let digit = (c as u32 - 0x30) as i64;
        assert(d@.take(i + 1).drop_last() =~= d@.take(i as int));
        assert(d@.take(i + 1).last() == c);
        assert(digits_value(d@.take(i as int)) >= 0) by {
            lemma_digits_nonneg(d@.take(i as int));
        }
        v = if v >= 0x100_0000_0000 { 0x100_0000_0000 } else if v * 10 + digit >= 0x100_0000_0000 { 0x100_0000_0000 } else { v * 10 + digit };
        assert(all_digits(d@.take(i + 1))) by {
            assert forall|j: int| 0 <= j < i + 1 implies '0' <= #[trigger] d@.take(i + 1)[j] && d@.take(i + 1)[j] <= '9' by {
                if j < i { assert(d@.take(i + 1)[j] == d@.take(i as int)[j]); }
            }
        }
        i = i + 1;
    }
    assert(d@.take(d@.len() as int) =~= d@);
    let value = if negative { -v } else { v };
    if lo <= value && value <= hi { Some(value) } else { None }
}

/// Digits spell a number that is not negative.
proof fn lemma_digits_nonneg(s: Seq<char>)
    requires
        all_digits(s),
    ensures
        digits_value(s) >= 0,
    decreases s.len(),
{
    if s.len() > 0 {
        assert(all_digits(s.drop_last())) by {
            assert forall|j: int| 0 <= j < s.drop_last().len() implies '0' <= #[trigger] s.drop_last()[j] && s.drop_last()[j] <= '9' by {
                assert(s.drop_last()[j] == s[j]);
            }
        }
        lemma_digits_nonneg(s.drop_last());
        assert('0' <= s[s.len() - 1]);
    }
}

/// A rational number, as AAF stores one: a numerator over a denominator,
/// never reduced.
///
/// `48/2` stays `48/2`: a value is kept as it was given, so that a value
/// built the same way is stored the same way.
#[derive(Debug, Clone, Copy, PartialEq, Eq, Hash)]
pub struct Rational {
    /// The numerator.
    pub numerator: i64,
    /// The denominator.
    pub denominator: i64,
}

/// The error returned when a string is not a rational in Python's syntax.
#[derive(Debug, Clone, PartialEq, Eq)]
pub struct ParseRationalError {
    text: String,
}

/// The largest `i128`.
pub open spec fn i128_max() -> int {
    0x7fff_ffff_ffff_ffff_ffff_ffff_ffff_ffff
}

/// Ten to the power `n`.
pub open spec fn pow10(n: nat) -> int
    decreases n,
{
    if n == 0 { 1 } else { 10 * pow10((n - 1) as nat) }
}

/// Whether `c` is an ASCII digit.
pub open spec fn is_digit(c: char) -> bool {
    '0' <= c && c <= '9'
}

/// Whether underscores stand only singly between other characters.
pub open spec fn underscores_ok(t: Seq<char>) -> bool {
    &&& t.len() > 0
    &&& t[0] != '_'
    &&& t.last() != '_'
    &&& forall|i: int| 0 <= i < t.len() - 1 ==> !(#[trigger] t[i] == '_' && t[i + 1] == '_')
}

/// What digits with optional single underscores between them spell, where
/// it fits an `i128`.
pub open spec fn digits_spec(t: Seq<char>) -> Option<int> {
    let d = without(t, '_');
    if underscores_ok(t) && all_digits(d) && digits_value(d) <= i128_max() { Some(digits_value(d)) } else { None }
}

/// Where the first `e` or `E` in `s` is.
pub open spec fn find_exp(s: Seq<char>) -> Option<int>
    decreases s.len(),
{
    if s.len() == 0 {
        None
    } else if s[0] == 'e' || s[0] == 'E' {
        Some(0)
    } else {
        match find_exp(s.drop_first()) {
            Some(i) => Some(i + 1),
            None => None,
        }
    }
}

/// `s` without a leading sign, and whether that sign was a minus.
pub open spec fn unsigned_part(s: Seq<char>) -> (bool, Seq<char>) {
    if s.len() > 0 && (s[0] == '-' || s[0] == '+') { (s[0] == '-', s.drop_first()) } else { (false, s) }
}

/// A mantissa's digits before its point.
pub open spec fn int_digits(m: Seq<char>) -> Seq<char> {
    match find_char(m, '.') {
        Some(i) => m.take(i),
        None => m,
    }
}

/// A mantissa's digits after its point.
pub open spec fn point_digits(m: Seq<char>) -> Seq<char> {
    match find_char(m, '.') {
        Some(i) => m.skip(i + 1),
        None => Seq::empty(),
    }
}

/// What a mantissa's digits before its point spell: nothing is zero.
pub open spec fn int_value(m: Seq<char>) -> Option<int> {
    if int_digits(m).len() == 0 { Some(0) } else { digits_spec(int_digits(m)) }
}

/// A mantissa's digits before and after its point, as numerator and
/// denominator: `12.50` is `1250/100`.
pub open spec fn mantissa_spec(m: Seq<char>) -> Option<(int, int)> {
    let dec = point_digits(m);
    match int_value(m) {
        None => None,
        Some(n) => if dec.len() == 0 {
            Some((n, 1int))
        } else {
            let scale = pow10(without(dec, '_').len());
            match digits_spec(dec) {
                Some(dv) => if scale <= i128_max() && n * scale + dv <= i128_max() { Some((n * scale + dv, scale)) } else { None },
                None => None,
            }
        },
    }
}

/// A mantissa and what its exponent scales it by: the numerator, or the
/// denominator where the exponent is negative.
pub open spec fn scaled(m: Option<(int, int)>, x: Seq<char>) -> Option<(int, int)> {
    let neg = unsigned_part(x).0;
    match m {
        None => None,
        Some((n, d)) => match digits_spec(unsigned_part(x).1) {
            None => None,
            Some(ev) => if ev > u32::MAX || pow10(ev as nat) > i128_max() {
                None
            } else if neg {
                if d * pow10(ev as nat) <= i128_max() { Some((n, d * pow10(ev as nat))) } else { None }
            } else {
                if n * pow10(ev as nat) <= i128_max() { Some((n * pow10(ev as nat), d)) } else { None }
            },
        },
    }
}

/// A number with no `/`: a mantissa and an optional exponent, which scales
/// the numerator or the denominator.
pub open spec fn decimal_spec(b: Seq<char>) -> Option<(int, int)> {
    match find_exp(b) {
        None => mantissa_spec(b),
        Some(i) => scaled(mantissa_spec(b.take(i)), b.skip(i + 1)),
    }
}

/// The numerator and denominator a rational's text without its sign
/// spells.
pub open spec fn fraction_spec(b: Seq<char>) -> Option<(int, int)> {
    match find_char(b, '/') {
        Some(i) => match (digits_spec(trim_end_ws(b.take(i))), digits_spec(trim_start_ws(b.skip(i + 1)))) {
            (Some(n), Some(d)) => Some((n, d)),
            _ => None,
        },
        None => decimal_spec(b),
    }
}

/// Whether a rational's text without its sign starts as a number does:
/// with a digit, or a point and a digit.
pub open spec fn starts_number(b: Seq<char>) -> bool {
    b.len() > 0 && (is_digit(b[0]) || (b[0] == '.' && b.len() > 1 && is_digit(b[1])))
}

/// What a rational in Python's `Fraction` syntax reads as: `24000/1001`,
/// `25`, `23.976` (`23976/1000`, not reduced), `1e3`, with an optional sign
/// and white space around it; `0/0` is `0/1`.
pub open spec fn parse_rational_spec(text: Seq<char>) -> Option<(i64, i64)> {
    let s = trim_ws(text);
    let negative = unsigned_part(s).0;
    let b = unsigned_part(s).1;
    if !starts_number(b) {
        None
    } else {
        match fraction_spec(b) {
            None => None,
            Some((n, d)) => {
                let num = if negative { -n } else { n };
                if d == 0 {
                    if num == 0 { Some((0i64, 1i64)) } else { None }
                } else if i64::MIN <= num <= i64::MAX && d <= i64::MAX {
                    Some((num as i64, d as i64))
                } else {
                    None
                }
            },
        }
    }
}

/// A digit spells at most what the digits after it extend it to.
proof fn lemma_digits_prefix(s: Seq<char>, i: int)
    requires
        all_digits(s),
        0 <= i <= s.len(),
    ensures
        0 <= digits_value(s.take(i)) <= digits_value(s),
    decreases s.len() - i,
{
    lemma_digits_nonneg(s.take(i));
    if i < s.len() {
        lemma_digits_prefix(s, i + 1);
        assert(s.take(i + 1).drop_last() =~= s.take(i));
        assert(s.take(i + 1).last() == s[i]);
        assert(all_digits(s.take(i + 1))) by {
            assert forall|j: int| 0 <= j < i + 1 implies '0' <= #[trigger] s.take(i + 1)[j] && s.take(i + 1)[j] <= '9' by {
                assert(s.take(i + 1)[j] == s[j]);
            }
        }
    } else {
        assert(s.take(i) =~= s);
    }
}

/// What digits spell is not negative.
proof fn lemma_digits_spec_nonneg(t: Seq<char>)
    ensures
        digits_spec(t) matches Some(v) ==> v >= 0,
{
    if digits_spec(t) is Some {
        lemma_digits_nonneg(without(t, '_'));
    }
}

/// Powers of ten grow.
proof fn lemma_pow10_grows(a: nat, b: nat)
    requires
        a <= b,
    ensures
        1 <= pow10(a) <= pow10(b),
    decreases b,
{
    if a < b {
        lemma_pow10_grows(a, (b - 1) as nat);
    } else if a > 0 {
        lemma_pow10_grows((a - 1) as nat, (a - 1) as nat);
    }
}

/// What digits with single underscores between them spell, where it fits
/// an `i128`.
fn digits_exec(t: &[char]) -> (r: Option<i128>)
    ensures
        r matches Some(v) ==> digits_spec(t@) == Some(v as int),
        r is None ==> digits_spec(t@) is None,
        r matches Some(v) ==> v >= 0,
{
    let n = t.len();
    if n == 0 || t[0] == '_' || t[n - 1] == '_' {
        return None;
    }
    let mut i: usize = 0;
    while i < n - 1
        invariant
            n == t@.len(),
            n > 0,
            forall|j: int| 0 <= j < i ==> !(#[trigger] t@[j] == '_' && t@[j + 1] == '_'),
        decreases n - i,
    {
        if t[i] == '_' && t[i + 1] == '_' {
            return None;
        }
        i = i + 1;
    }
    assert(underscores_ok(t@));
    let d = without_exec(t, 0, n, '_');
    assert(t@.subrange(0, n as int) =~= t@);
    let mut v: i128 = 0;
    let mut k: usize = 0;
    assert(d@.take(0) =~= Seq::<char>::empty());
    while k < d.len()
        invariant
            d@ == without(t@, '_'),
            underscores_ok(t@),
            k <= d@.len(),
            all_digits(d@.take(k as int)),
            v as int == digits_value(d@.take(k as int)),
            v >= 0,
        decreases d@.len() - k,
    {
        let c = d[k];
        if c < '0' || c > '9' {
            assert(d@[k as int] == c);
            return None;
        }
        assert(d@.take(k + 1).drop_last() =~= d@.take(k as int));
        assert(d@.take(k + 1).last() == c);
        assert(all_digits(d@.take(k + 1))) by {
            assert forall|j: int| 0 <= j < k + 1 implies '0' <= #[trigger] d@.take(k + 1)[j] && d@.take(k + 1)[j] <= '9' by {
                if j < k { assert(d@.take(k + 1)[j] == d@.take(k as int)[j]); }
            }
        }
        let digit = (c as u32 - 0x30) as i128;
        let next = match v.checked_mul(10) {
            Some(x) => x.checked_add(digit),
            None => None,
        };
        match next {
            Some(x) => { v = x; },
            None => {
                proof {
                    if all_digits(d@) {
                        lemma_digits_prefix(d@, k + 1);
                    }
                }
                return None;
            },
        }
        k = k + 1;
    }
    assert(d@.take(d@.len() as int) =~= d@);
    Some(v)
}

/// Ten to the power `e`, where it fits an `i128`.
fn pow10_exec(e: u32) -> (r: Option<i128>)
    ensures
        pow10(e as nat) <= i128_max() ==> r == Some(pow10(e as nat) as i128),
        pow10(e as nat) > i128_max() ==> r is None,
{
    let mut p: i128 = 1;
    let mut k: u32 = 0;
    while k < e
        invariant
            k <= e,
            p as int == pow10(k as nat),
            p >= 1,
        decreases e - k,
    {
        match p.checked_mul(10) {
            Some(x) => { p = x; },
            None => {
                proof { lemma_pow10_grows((k + 1) as nat, e as nat); }
                return None;
            },
        }
        k = k + 1;
    }
    Some(p)
}

/// Where `s` ends once trailing white space is left out.
fn trim_end_at(s: &[char]) -> (r: usize)
    ensures
        r <= s@.len(),
        s@.take(r as int) == trim_end_ws(s@),
{
    let mut end = s.len();
    assert(s@.take(end as int) =~= s@);
    while end > 0 && is_whitespace(s[end - 1])
        invariant
            end <= s@.len(),
            trim_end_ws(s@.take(end as int)) == trim_end_ws(s@),
        decreases end,
    {
        assert(s@.take(end as int).drop_last() =~= s@.take(end - 1));
        end = end - 1;
    }
    end
}

/// Where `s` starts once leading white space is left out.
fn trim_start_at(s: &[char]) -> (r: usize)
    ensures
        r <= s@.len(),
        s@.skip(r as int) == trim_start_ws(s@),
{
    let mut start: usize = 0;
    assert(s@.skip(0) =~= s@);
    while start < s.len() && is_whitespace(s[start])
        invariant
            start <= s@.len(),
            trim_start_ws(s@.skip(start as int)) == trim_start_ws(s@),
        decreases s@.len() - start,
    {
        assert(s@.skip(start as int).drop_first() =~= s@.skip(start + 1));
        start = start + 1;
    }
    start
}

/// Where the first `e` or `E` in `s` is.
fn find_exp_exec(s: &[char]) -> (r: Option<usize>)
    ensures
        r matches Some(i) ==> find_exp(s@) == Some(i as int) && i < s@.len(),
        r is None ==> find_exp(s@) is None,
{
    let mut i: usize = 0;
    assert(s@.skip(0) =~= s@);
    while i < s.len()
        invariant
            i <= s@.len(),
            find_exp(s@) == match find_exp(s@.skip(i as int)) { Some(k) => Some(k + i), None => None::<int> },
        decreases s@.len() - i,
    {
        assert(s@.skip(i as int)[0] == s@[i as int]);
        if s[i] == 'e' || s[i] == 'E' {
            return Some(i);
        }
        assert(s@.skip(i as int).drop_first() =~= s@.skip(i + 1));
        i = i + 1;
    }
    None
}

/// A mantissa's digits before and after its point, as numerator and
/// denominator.
fn mantissa_exec(m: &[char]) -> (r: Option<(i128, i128)>)
    ensures
        r matches Some((n, d)) ==> mantissa_spec(m@) == Some((n as int, d as int)),
        r is None ==> mantissa_spec(m@) is None,
{
    let dot = find(m, '.');
    let (int_part, dec) = match dot {
        Some(i) => (copy_range(m, 0, i), copy_range(m, i + 1, m.len())),
        None => (copy_range(m, 0, m.len()), Vec::new()),
    };
    proof {
        if let Some(i) = dot {
            assert(int_part@ =~= m@.take(i as int));
            assert(dec@ =~= m@.skip(i + 1));
        } else {
            assert(int_part@ =~= m@);
            assert(dec@ =~= Seq::<char>::empty());
        }
    }
    assert(int_part@ == int_digits(m@) && dec@ == point_digits(m@));
    let n: i128 = if int_part.len() == 0 {
        0
    } else {
        match digits_exec(int_part.as_slice()) {
            Some(v) => v,
            None => { return None; },
        }
    };
    assert(int_value(m@) == Some(n as int));
    if dec.len() == 0 {
        return Some((n, 1));
    }
    let places = without_exec(dec.as_slice(), 0, dec.len(), '_');
    assert(dec@.subrange(0, dec@.len() as int) =~= dec@);
    if places.len() > 0xFFFF_FFFF {
        proof { lemma_pow10_grows(39, places@.len() as nat); lemma_pow10_39(); }
        return None;
    }
    let scale = match pow10_exec(places.len() as u32) {
        Some(p) => p,
        None => { return None; },
    };
    let dv = match digits_exec(dec.as_slice()) {
        Some(v) => v,
        None => { return None; },
    };
    proof { lemma_pow10_grows(0, places@.len() as nat); }
    assert(n >= 0 && dv >= 0 && scale >= 1);
    assert(digits_spec(dec@) == Some(dv as int));
    assert(scale as int == pow10(without(dec@, '_').len()));
    match n.checked_mul(scale) {
        Some(x) => match x.checked_add(dv) {
            Some(y) => {
                assert(mantissa_spec(m@) == Some((y as int, scale as int)));
                Some((y, scale))
            },
            None => None,
        },
        None => {
            assert(n * scale >= 0) by (nonlinear_arith)
                requires n >= 0, scale >= 1;
            assert(n * scale + dv > i128_max());
            None
        },
    }
}

/// Ten to the thirty-ninth is past every `i128`.
proof fn lemma_pow10_39()
    ensures
        pow10(39) > i128_max(),
{
    reveal_with_fuel(pow10, 40);
}

/// A number with no `/`: a mantissa and an optional exponent.
fn decimal_exec(b: &[char]) -> (r: Option<(i128, i128)>)
    ensures
        r matches Some((n, d)) ==> decimal_spec(b@) == Some((n as int, d as int)),
        r is None ==> decimal_spec(b@) is None,
{
    let at = find_exp_exec(b);
    let i = match at {
        None => { return mantissa_exec(b); },
        Some(i) => i,
    };
    let m = copy_range(b, 0, i);
    assert(m@ =~= b@.take(i as int));
    let (n, d) = match mantissa_exec(m.as_slice()) {
        Some(p) => p,
        None => { return None; },
    };
    let blen = b.len();
    assert(i < blen);
    let x = copy_range(b, i + 1, blen);
    assert(x@ =~= b@.skip(i + 1));
    let neg = x.len() > 0 && x[0] == '-';
    let start: usize = if x.len() > 0 && (x[0] == '-' || x[0] == '+') { 1 } else { 0 };
    let e = copy_range(x.as_slice(), start, x.len());
    assert(start == 1 ==> e@ =~= x@.drop_first());
    assert(start == 0 ==> e@ =~= x@);
    assert(unsigned_part(b@.skip(i + 1)).0 == neg && unsigned_part(b@.skip(i + 1)).1 == e@);
    assert(mantissa_spec(b@.take(i as int)) == Some((n as int, d as int)));
    let ev = match digits_exec(e.as_slice()) {
        Some(v) => v,
        None => { return None; },
    };
    if ev > 0xFFFF_FFFF {
        return None;
    }
    let power = match pow10_exec(ev as u32) {
        Some(p) => p,
        None => { return None; },
    };
    proof {
        lemma_pow10_grows(0, ev as nat);
        lemma_mantissa_signs(b@.take(i as int));
    }
    assert(n >= 0 && d >= 1);
    if neg {
        match d.checked_mul(power) {
            Some(y) => Some((n, y)),
            None => None,
        }
    } else {
        match n.checked_mul(power) {
            Some(y) => Some((y, d)),
            None => None,
        }
    }
}

impl Rational {
    /// A rational from its two parts, kept as given.
    pub fn new(numerator: i64, denominator: i64) -> (r: Self)
        ensures
            r.numerator == numerator,
            r.denominator == denominator,
    {
        Self { numerator, denominator }
    }

    /// Parses a rational in Python's `Fraction` syntax: `"24000/1001"`,
    /// `"25"`, `"23.976"` (which is `23976/1000`, not reduced), `"1e3"`,
    /// with an optional sign and surrounding white space. `"0/0"` is taken
    /// as `0/1`, which files from some applications hold.
    ///
    /// Fails if `text` is not in that syntax, has a zero denominator over a
    /// non-zero numerator, or does not fit.
    pub fn parse(text: &str) -> (r: core::result::Result<Self, ParseRationalError>)
        ensures
            match parse_rational_spec(text@) {
                Some((n, d)) => r == Ok::<Self, ParseRationalError>(Rational { numerator: n, denominator: d }),
                None => r matches Err(e) && e.text_spec() == text@,
            },
    {
        let cs = chars_of(text);
        let (a, z) = trim_bounds(cs.as_slice());
        let t = copy_range(cs.as_slice(), a, z);
        let negative = t.len() > 0 && t[0] == '-';
        let start: usize = if t.len() > 0 && (t[0] == '-' || t[0] == '+') { 1 } else { 0 };
        let b = copy_range(t.as_slice(), start, t.len());
        assert(start == 1 ==> b@ =~= t@.drop_first());
        assert(start == 0 ==> b@ =~= t@);
        let fail = ParseRationalError { text: text.to_owned() };
        let ok_start = b.len() > 0 && (('0' <= b[0] && b[0] <= '9')
            || (b[0] == '.' && b.len() > 1 && '0' <= b[1] && b[1] <= '9'));
        if !ok_start {
            return Err(fail);
        }
        assert(starts_number(b@));
        let (n, d) = match fraction_exec(b.as_slice()) {
            Some(p) => p,
            None => { return Err(fail); },
        };
        let num = if negative { -n } else { n };
        if d == 0 {
            if num == 0 {
                return Ok(Rational { numerator: 0, denominator: 1 });
            }
            return Err(fail);
        }
        if num < -0x8000_0000_0000_0000 || num > 0x7fff_ffff_ffff_ffff || d > 0x7fff_ffff_ffff_ffff {
            return Err(fail);
        }
        Ok(Rational { numerator: num as i64, denominator: d as i64 })
    }

    /// This rational as `numerator/denominator`.
    pub fn to_string(&self) -> (r: String)
        ensures
            r@ == int_text_of(self.numerator as int) + "/"@ + int_text_of(self.denominator as int),
    {
        let mut out = String::new();
        push_int(&mut out, self.numerator);
        push_str(&mut out, "/");
        push_int(&mut out, self.denominator);
        out
    }
}

/// A mantissa reads as a numerator that is not negative over a positive
/// denominator.
proof fn lemma_mantissa_signs(m: Seq<char>)
    ensures
        mantissa_spec(m) matches Some((n, d)) ==> n >= 0 && d >= 1,
{
    let dc = point_digits(m);
    lemma_digits_spec_nonneg(int_digits(m));
    lemma_digits_spec_nonneg(dc);
    lemma_pow10_grows(0, without(dc, '_').len());
    if let Some(n) = int_value(m) {
        let scale = pow10(without(dc, '_').len());
        assert(n * scale >= 0) by (nonlinear_arith)
            requires n >= 0, scale >= 1;
    }
}

/// What a number parsed without `/` reads as is not negative.
proof fn decimal_nonneg(b: Seq<char>)
    ensures
        decimal_spec(b) matches Some((n, d)) ==> n >= 0,
{
    match find_exp(b) {
        None => { lemma_mantissa_signs(b); },
        Some(i) => {
            lemma_mantissa_signs(b.take(i));
            let e = unsigned_part(b.skip(i + 1)).1;
            lemma_digits_spec_nonneg(e);
            if let Some(ev) = digits_spec(e) {
                lemma_pow10_grows(0, ev as nat);
                if let Some((n, d)) = mantissa_spec(b.take(i)) {
                    let p = pow10(ev as nat);
                    assert(n * p >= 0) by (nonlinear_arith)
                        requires n >= 0, p >= 1;
                }
            }
        },
    }
}

/// The numerator and denominator a rational's text without its sign
/// spells.
fn fraction_exec(b: &[char]) -> (r: Option<(i128, i128)>)
    ensures
        r matches Some((n, d)) ==> fraction_spec(b@) == Some((n as int, d as int)),
        r is None ==> fraction_spec(b@) is None,
        r matches Some((n, d)) ==> n >= 0,
{
    let slash = find(b, '/');
    match slash {
        Some(i) => {
            let num = copy_range(b, 0, i);
            let blen = b.len();
            assert(i < blen);
            let den = copy_range(b, i + 1, blen);
            assert(num@ =~= b@.take(i as int));
            assert(den@ =~= b@.skip(i + 1));
            let ne = trim_end_at(num.as_slice());
            let ds = trim_start_at(den.as_slice());
            let num_t = copy_range(num.as_slice(), 0, ne);
            let den_t = copy_range(den.as_slice(), ds, den.len());
            assert(num_t@ =~= num@.take(ne as int));
            assert(den_t@ =~= den@.skip(ds as int));
            match (digits_exec(num_t.as_slice()), digits_exec(den_t.as_slice())) {
                (Some(n), Some(d)) => Some((n, d)),
                _ => None,
            }
        },
        None => {
            proof { decimal_nonneg(b@); }
            decimal_exec(b)
        },
    }
}

/// An integer in decimal, with a minus sign where it is negative.
pub open spec fn int_text_of(n: int) -> Seq<char> {
    if n < 0 { "-"@ + decimal((-n) as nat) } else { decimal(n as nat) }
}

/// Appends an integer in decimal.
fn push_int(out: &mut String, n: i64)
    ensures
        final(out)@ == old(out)@ + int_text_of(n as int),
{
    let ghost before = out@;
    if n < 0 {
        push_str(out, "-");
        let m: u64 = if n == i64::MIN { 0x8000_0000_0000_0000 } else { (-n) as u64 };
        push_decimal(out, m);
        assert(out@ =~= before + int_text_of(n as int));
    } else {
        push_decimal(out, n as u64);
    }
}

impl ParseRationalError {
    /// The rejected text.
    pub closed spec fn text_spec(&self) -> Seq<char> {
        self.text@
    }

    /// What this error says, as text.
    pub fn to_string(&self) -> (r: String)
        ensures
            r@ == "'"@ + self.text_spec() + "' is not a rational number"@,
    {
        let mut out = String::new();
        push_str(&mut out, "'");
        push_str(&mut out, self.text.as_str());
        push_str(&mut out, "' is not a rational number");
        out
    }
}

/// A number in decimal is digits that spell it.
proof fn lemma_decimal_digits(n: nat)
    ensures
        decimal(n).len() > 0,
        all_digits(decimal(n)),
        digits_value(decimal(n)) == n,
        without(decimal(n), '_') == decimal(n),
        underscores_ok(decimal(n)),
        find_char(decimal(n), '/') is None,
        find_char(decimal(n), '.') is None,
        find_exp(decimal(n)) is None,
        !is_ws(decimal(n)[0]) && !is_ws(decimal(n).last()),
        is_digit(decimal(n)[0]),
    decreases n,
{
    if n >= 10 {
        lemma_decimal_digits(n / 10);
        let a = decimal(n / 10);
        let d = seq![(0x30 + n % 10) as char];
        let s = decimal(n);
        assert(s == a + d);
        assert(s.drop_last() =~= a);
        assert(s.last() == d[0]);
        assert((d[0] as int) == 0x30 + n % 10);
        assert forall|i: int| 0 <= i < s.len() implies '0' <= #[trigger] s[i] && s[i] <= '9' by {
            if i < a.len() { assert(s[i] == a[i]); }
        }
        assert(without(s, '_') =~= s);
        assert forall|i: int| 0 <= i < s.len() - 1 implies !(#[trigger] s[i] == '_' && s[i + 1] == '_') by {}
        lemma_find_none(s, '/');
        lemma_find_none(s, '.');
        lemma_exp_none(s);
        assert(s[0] == a[0]);
    } else {
        let s = decimal(n);
        assert(s.drop_last() =~= Seq::<char>::empty());
        assert(without(Seq::<char>::empty(), '_') =~= Seq::<char>::empty());
        assert(digits_value(Seq::<char>::empty()) == 0);
        assert((s.last() as int) == 0x30 + n);
        assert(without(s, '_') =~= s);
        lemma_find_none(s, '/');
        lemma_find_none(s, '.');
        lemma_exp_none(s);
    }
}

/// A character that is not in a text of digits is not found there.
proof fn lemma_find_none(s: Seq<char>, c: char)
    requires
        all_digits(s),
        !is_digit(c),
    ensures
        find_char(s, c) is None,
    decreases s.len(),
{
    if s.len() > 0 {
        assert(all_digits(s.drop_first())) by {
            assert forall|i: int| 0 <= i < s.drop_first().len() implies '0' <= #[trigger] s.drop_first()[i] && s.drop_first()[i] <= '9' by {
                assert(s.drop_first()[i] == s[i + 1]);
            }
        }
        lemma_find_none(s.drop_first(), c);
    }
}

/// A text of digits has no exponent.
proof fn lemma_exp_none(s: Seq<char>)
    requires
        all_digits(s),
    ensures
        find_exp(s) is None,
    decreases s.len(),
{
    if s.len() > 0 {
        assert(all_digits(s.drop_first())) by {
            assert forall|i: int| 0 <= i < s.drop_first().len() implies '0' <= #[trigger] s.drop_first()[i] && s.drop_first()[i] <= '9' by {
                assert(s.drop_first()[i] == s[i + 1]);
            }
        }
        lemma_exp_none(s.drop_first());
    }
}

/// A rational with a positive denominator reads back from its text as
/// itself: `Rational::parse(&r.to_string()) == Ok(r)`.
#[verifier::spinoff_prover]
#[verifier::rlimit(50)]
pub proof fn lemma_rational_text_round_trip(numerator: i64, denominator: i64)
    requires
        denominator > 0,
    ensures
        parse_rational_spec(int_text_of(numerator as int) + "/"@ + int_text_of(denominator as int))
            == Some((numerator, denominator)),
{
    let m = if numerator < 0 { -(numerator as int) } else { numerator as int };
    let dn = decimal(m as nat);
    let dd = decimal(denominator as nat);
    lemma_decimal_digits(m as nat);
    lemma_decimal_digits(denominator as nat);
    reveal_strlit("-");
    reveal_strlit("/");
    let body = dn + "/"@ + dd;
    let t = int_text_of(numerator as int) + "/"@ + int_text_of(denominator as int);
    if numerator < 0 {
        assert(t =~= "-"@ + body);
    } else {
        assert(t =~= body);
    }
    assert(t[0] == '-' || t[0] == dn[0]);
    assert(t.last() == dd.last());
    assert(trim_start_ws(t) == t);
    assert(trim_end_ws(t) == t);
    assert(trim_ws(t) == t);
    assert(unsigned_part(t).1 =~= body);
    assert(body[0] == dn[0]);
    assert(starts_number(body));
    lemma_find_first_at(body, '/', dn.len() as int);
    assert(body.take(dn.len() as int) =~= dn);
    assert(body.skip(dn.len() as int + 1) =~= dd);
    assert(trim_end_ws(dn) == dn);
    assert(trim_start_ws(dd) == dd);
    assert(fraction_spec(body) == Some((m, denominator as int)));
}

/// The first `c` of `s` is at `i` where it is there and not before.
proof fn lemma_find_first_at(s: Seq<char>, c: char, i: int)
    requires
        0 <= i < s.len(),
        s[i] == c,
        forall|j: int| 0 <= j < i ==> s[j] != c,
    ensures
        find_char(s, c) == Some(i),
    decreases i,
{
    if i > 0 {
        assert forall|j: int| 0 <= j < i - 1 implies s.drop_first()[j] != c by {
            assert(s.drop_first()[j] == s[j + 1]);
        }
        lemma_find_first_at(s.drop_first(), c, i - 1);
    }
}

/// Whether `y` is a leap year of the Gregorian calendar.
pub open spec fn is_leap(y: int) -> bool {
    y % 4 == 0 && (y % 100 != 0 || y % 400 == 0)
}

/// How many days month `m` of year `y` has.
pub open spec fn days_in_month(y: int, m: int) -> int {
    if m == 2 {
        if is_leap(y) { 29 } else { 28 }
    } else if m == 4 || m == 6 || m == 9 || m == 11 {
        30
    } else {
        31
    }
}

/// Whether a timestamp is a real date and time of day.
pub open spec fn valid_timestamp(t: Timestamp) -> bool {
    &&& 1 <= t.month <= 12
    &&& 1 <= t.day <= days_in_month(t.year as int, t.month as int)
    &&& t.hour < 24
    &&& t.minute < 60
    &&& t.second < 60
}

/// A day of a year counted from March: the day of the year and the month
/// and day it reads back as.
proof fn lemma_day_of_year(mp: int, d: int)
    requires
        0 <= mp < 12,
        1 <= d,
        d <= (if mp == 11 { 29int } else if mp == 1 || mp == 3 || mp == 6 || mp == 8 { 30int } else { 31int }),
    ensures
        ({
            let doy = (153 * mp + 2) / 5 + d - 1;
            &&& 0 <= doy <= 365
            &&& (5 * doy + 2) / 153 == mp
            &&& doy - (153 * mp + 2) / 5 + 1 == d
            &&& (doy == 365 <==> (mp == 11 && d == 29))
        }),
{
    if mp == 0 { } else if mp == 1 { } else if mp == 2 { } else if mp == 3 { } else if mp == 4 { }
    else if mp == 5 { } else if mp == 6 { } else if mp == 7 { } else if mp == 8 { } else if mp == 9 { }
    else if mp == 10 { } else { }
}

/// A year of an era and a day of it, counted as days of the era, read back
/// as that year and day.
#[verifier::spinoff_prover]
proof fn lemma_year_of_era(yoe: int, doy: int)
    requires
        0 <= yoe < 400,
        0 <= doy <= 365,
        doy == 365 ==> (yoe % 4 == 3 && ((yoe + 1) % 100 != 0 || yoe == 399)),
    ensures
        ({
            let doe = yoe * 365 + yoe / 4 - yoe / 100 + doy;
            let y2 = (doe - doe / 1460 + doe / 36524 - doe / 146096) / 365;
            &&& 0 <= doe < 146097
            &&& y2 == yoe
            &&& doe - (365 * y2 + y2 / 4 - y2 / 100) == doy
        }),
{
    let c = yoe / 100;
    let q = (yoe % 100) / 4;
    let r = yoe % 4;
    assert(yoe == 100 * c + 4 * q + r);
    assert(yoe / 4 == 25 * c + q);
    let doe = yoe * 365 + yoe / 4 - yoe / 100 + doy;
    assert(doe == 36524 * c + 1461 * q + 365 * r + doy);
    assert(0 <= c < 4 && 0 <= q < 25 && 0 <= r < 4);
    if doe == 146096 {
        assert(c == 3 && q == 24 && r == 3 && doy == 365);
    } else {
        assert(doe / 146096 == 0);
        assert(doe / 36524 == c);
        if r == 3 && doy >= 365 - 24 * c - q {
            assert(doe / 1460 == 25 * c + q + 1);
        } else {
            assert(doe / 1460 == 25 * c + q);
        }
    }
}

/// A real date, counted in days from the epoch, reads back as that date.
#[verifier::spinoff_prover]
proof fn lemma_civil_round_trip(y: int, m: int, d: int)
    requires
        1 <= m <= 12,
        1 <= d <= days_in_month(y, m),
    ensures
        civil_from_days(days_from_civil(y, m, d)) == (y, m, d),
{
    let year = y - (if m <= 2 { 1int } else { 0int });
    let era = year / 400;
    let yoe = year % 400;
    let mp = (m + 9) % 12;
    assert(mp == if m >= 3 { m - 3 } else { m + 9 });
    let doy = (153 * mp + 2) / 5 + d - 1;
    lemma_day_of_year(mp, d);
    assert(year == 400 * era + yoe);
    if doy == 365 {
        assert(m == 2 && d == 29);
        assert(is_leap(y));
        assert(y == 400 * era + yoe + 1);
        assert(yoe % 4 == 3);
        assert((yoe + 1) % 100 != 0 || yoe == 399);
    }
    lemma_year_of_era(yoe, doy);
    let doe = yoe * 365 + yoe / 4 - yoe / 100 + doy;
    let z = era * 146097 + doe;
    assert(days_from_civil(y, m, d) + 719468 == z);
    vstd::arithmetic::div_mod::lemma_fundamental_div_mod_converse_div(z, 146097, era, doe);
    vstd::arithmetic::div_mod::lemma_fundamental_div_mod_converse_mod(z, 146097, era, doe);
}

/// A time of day in seconds reads back as its hour, minute and second.
proof fn lemma_time_of_day(h: int, m: int, s: int)
    requires
        0 <= h < 24,
        0 <= m < 60,
        0 <= s < 60,
    ensures
        ({
            let secs = h * 3600 + m * 60 + s;
            &&& 0 <= secs < 86400
            &&& secs / 3600 == h
            &&& secs / 60 % 60 == m
            &&& secs % 60 == s
        }),
{
    let secs = h * 3600 + m * 60 + s;
    vstd::arithmetic::div_mod::lemma_fundamental_div_mod_converse_div(secs, 3600, h, m * 60 + s);
    vstd::arithmetic::div_mod::lemma_fundamental_div_mod_converse_div(secs, 60, h * 60 + m, s);
    vstd::arithmetic::div_mod::lemma_fundamental_div_mod_converse_mod(secs, 60, h * 60 + m, s);
    vstd::arithmetic::div_mod::lemma_fundamental_div_mod_converse_mod(h * 60 + m, 60, h, m);
}

/// A real date and time, taken to Unix time and back, is unchanged:
/// `Timestamp::from_unix(t.to_unix()) == t`.
#[verifier::spinoff_prover]
pub proof fn lemma_unix_round_trip(t: Timestamp)
    requires
        valid_timestamp(t),
    ensures
        from_unix_spec(to_unix_spec(t)) == t,
{
    let days = days_from_civil(t.year as int, t.month as int, t.day as int);
    let secs = t.hour as int * 3600 + t.minute as int * 60 + t.second as int;
    lemma_time_of_day(t.hour as int, t.minute as int, t.second as int);
    assert(to_unix_spec(t) == days * 86400 + secs);
    vstd::arithmetic::div_mod::lemma_fundamental_div_mod_converse_div(to_unix_spec(t), 86400, days, secs);
    vstd::arithmetic::div_mod::lemma_fundamental_div_mod_converse_mod(to_unix_spec(t), 86400, days, secs);
    lemma_civil_round_trip(t.year as int, t.month as int, t.day as int);
}

impl Timestamp {
    /// The UTC time `seconds` after the Unix epoch.
    pub fn from_unix(seconds: i64) -> (r: Self)
        ensures
            r == from_unix_spec(seconds as int),
    {
        let (days, secs) = split_days(seconds);
        let (year, month, day) = civil(days);
        Self {
            year: year as i16,
            month: month as u8,
            day: day as u8,
            hour: (secs / 3600) as u8,
            minute: (secs / 60 % 60) as u8,
            second: (secs % 60) as u8,
        }
    }

    /// The seconds after the Unix epoch, taking this as UTC.
    pub fn to_unix(self) -> (r: i64)
        ensures
            r as int == to_unix_spec(self),
    {
        let month = self.month as i64;
        let year = self.year as i64 - if month <= 2 { 1i64 } else { 0i64 };
        // Shifted by a whole number of eras to be positive.
        let ys = year + 400 * 100;
        let era = ys / 400 - 100;
        let yoe = ys % 400;
        assert(era as int == year as int / 400 && yoe as int == year as int % 400);
        let mp = (month + 9) % 12;
        let doy = (153 * mp + 2) / 5 + self.day as i64 - 1;
        let doe = yoe * 365 + yoe / 4 - yoe / 100 + doy;
        let days = era * 146_097 + doe - 719_468;
        days * 86_400 + self.hour as i64 * 3600 + self.minute as i64 * 60 + self.second as i64
    }

    /// Parses `YYYY-MM-DDTHH:MM:SS`.
    pub fn parse_iso(text: &str) -> (r: Option<Self>)
        ensures
            r == parse_iso_spec(text@),
    {
        let cs = chars_of(text);
        let at = match find(cs.as_slice(), 'T') {
            Some(i) => i,
            None => { return None; },
        };
        let date = copy_range(cs.as_slice(), 0, at);
        let total = cs.len();
        assert(at < total);
        let time = copy_range(cs.as_slice(), at + 1, total);
        assert(date@ =~= cs@.take(at as int));
        assert(time@ =~= cs@.skip(at + 1));
        let d = split_three(date.as_slice(), '-');
        let t = split_three(time.as_slice(), ':');
        if d.len() < 3 || t.len() < 3 {
            return None;
        }
        let year = parse_int(d[0].as_slice(), true, -32768, 32767);
        let month = parse_int(d[1].as_slice(), false, 0, 255);
        let day = parse_int(d[2].as_slice(), false, 0, 255);
        let hour = parse_int(t[0].as_slice(), false, 0, 255);
        let minute = parse_int(t[1].as_slice(), false, 0, 255);
        let second = parse_int(t[2].as_slice(), false, 0, 255);
        match (year, month, day, hour, minute, second) {
            (Some(year), Some(month), Some(day), Some(hour), Some(minute), Some(second)) => Some(Self {
                year: year as i16,
                month: month as u8,
                day: day as u8,
                hour: hour as u8,
                minute: minute as u8,
                second: second as u8,
            }),
            _ => None,
        }
    }

    /// This timestamp as `YYYY-MM-DDTHH:MM:SS`.
    pub fn to_string(&self) -> (r: String)
        ensures
            r@ == timestamp_text(*self),
    {
        let mut out = String::new();
        if self.year < 0 {
            push_str(&mut out, "-");
            push_padded(&mut out, (-(self.year as i64)) as u64, 3);
        } else {
            push_padded(&mut out, self.year as u64, 4);
        }
        push_str(&mut out, "-");
        push_padded(&mut out, self.month as u64, 2);
        push_str(&mut out, "-");
        push_padded(&mut out, self.day as u64, 2);
        push_str(&mut out, "T");
        push_padded(&mut out, self.hour as u64, 2);
        push_str(&mut out, ":");
        push_padded(&mut out, self.minute as u64, 2);
        push_str(&mut out, ":");
        push_padded(&mut out, self.second as u64, 2);
        assert(out@ =~= timestamp_text(*self));
        out
    }
}

} // verus!
