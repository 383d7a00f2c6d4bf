//! Daily log files: their dates, their names, and which of them are out of date.

use crate::clock::SECOND;
use crate::text::{ascii_string, chars_of, dec, lemma_dec, push_dec};
use vstd::prelude::*;
use vstd::string::StringExecFns;
use vstd::utf8::is_ascii_chars;

verus! {

// ── The calendar ──────────────────────────────────────────────────────

/// A year has a 29th of February.
pub open spec fn is_leap(y: int) -> bool {
    y % 4 == 0 && (y % 100 != 0 || y % 400 == 0)
}

/// How many days a year has.
pub open spec fn year_len(y: int) -> int {
    if is_leap(y) {
        366
    } else {
        365
    }
}

/// How many days a month has.
pub open spec fn month_len(y: int, m: int) -> int {
    if m == 2 {
        if is_leap(y) {
            29
        } else {
            28
        }
    } else if m == 4 || m == 6 || m == 9 || m == 11 {
        30
    } else {
        31
    }
}

/// A day of the Gregorian calendar.
pub open spec fn is_date(y: int, m: int, d: int) -> bool {
    1 <= m <= 12 && 1 <= d <= month_len(y, m)
}

/// How many days after the first day of 1970 a year begins.
pub open spec fn year_start(y: int) -> int
    decreases
            if y > 1970 {
                y - 1970
            } else {
                1970 - y
            },
{
    if y > 1970 {
        year_start(y - 1) + year_len(y - 1)
    } else if y < 1970 {
        year_start(y + 1) - year_len(y)
    } else {
        0
    }
}

/// How many days after the first day of its year a month begins.
pub open spec fn month_start(y: int, m: int) -> int
    decreases m,
{
    if m <= 1 {
        0
    } else {
        month_start(y, m - 1) + month_len(y, m - 1)
    }
}

/// How many days after the first day of 1970 a date is.
pub open spec fn day_number(y: int, m: int, d: int) -> int {
    year_start(y) + month_start(y, m) + d - 1
}

/// A quotient grows by one from a number to the next when the next can be divided.
proof fn lemma_next_quotient(y: int)
    ensures
        y / 4 - (y - 1) / 4 == if y % 4 == 0 { 1int } else { 0 },
        y / 100 - (y - 1) / 100 == if y % 100 == 0 { 1int } else { 0 },
        y / 400 - (y - 1) / 400 == if y % 400 == 0 { 1int } else { 0 },
{
}

/// How much longer than 365 days a year is, going by what divides it.
proof fn lemma_leap(y: int)
    ensures
        year_len(y) == 365 + (if y % 4 == 0 { 1int } else { 0 }) - (if y % 100 == 0 {
            1int
        } else {
            0
        }) + (if y % 400 == 0 { 1int } else { 0 }),
{
}

proof fn lemma_year_start(y: int)
    ensures
        year_start(y) == 365 * y + (y - 1) / 4 - (y - 1) / 100 + (y - 1) / 400 - 719527,
    decreases
            if y > 1970 {
                y - 1970
            } else {
                1970 - y
            },
{
    if y > 1970 {
        lemma_year_start(y - 1);
        lemma_next_quotient(y - 1);
        lemma_leap(y - 1);
    } else if y < 1970 {
        lemma_year_start(y + 1);
        lemma_next_quotient(y);
        lemma_leap(y);
    }
}

/// Where the months begin in a year that is counted from March.
proof fn lemma_month_start(y: int)
    ensures
        month_start(y, 1) == 0,
        month_start(y, 2) == 31,
        month_start(y, 3) == 31 + month_len(y, 2),
        month_start(y, 4) == month_start(y, 3) + 31,
        month_start(y, 5) == month_start(y, 3) + 61,
        month_start(y, 6) == month_start(y, 3) + 92,
        month_start(y, 7) == month_start(y, 3) + 122,
        month_start(y, 8) == month_start(y, 3) + 153,
        month_start(y, 9) == month_start(y, 3) + 184,
        month_start(y, 10) == month_start(y, 3) + 214,
        month_start(y, 11) == month_start(y, 3) + 245,
        month_start(y, 12) == month_start(y, 3) + 275,
{
    reveal_with_fuel(month_start, 13);
}

/// The year within a span of 400 years, counted from March, that a day falls into.
#[verifier::spinoff_prover]
#[verifier::rlimit(50)]
proof fn lemma_year_of_era(doe: int)
    requires
        0 <= doe < 146097,
    ensures
        ({
            let yoe = (doe - doe / 1460 + doe / 36524 - doe / 146096) / 365;
            let doy = doe - (365 * yoe + yoe / 4 - yoe / 100);
            &&& 0 <= yoe < 400
            &&& 0 <= doy <= 365
            &&& doy == 365 ==> is_leap(yoe + 1)
        }),
{
    let a = doe / 1460;
    let b = doe / 36524;
    let e = doe / 146096;
    let yoe = (doe - a + b - e) / 365;
    assert(b == 0 || b == 1 || b == 2 || b == 3 || b == 4);
}

/// The first of March of a year.
proof fn lemma_march(y: int)
    ensures
        year_start(y) + month_start(y, 3) == 365 * y + y / 4 - y / 100 + y / 400 - 719468,
        year_start(y + 1) == year_start(y) + month_start(y, 3) + 306,
{
    lemma_year_start(y);
    lemma_year_start(y + 1);
    lemma_month_start(y);
}

/// The month, counted from March, that a day of a year falls into, and where that
/// month begins.
proof fn lemma_month_of(doy: int)
    requires
        0 <= doy <= 365,
    ensures
        ({
            let mp = (5 * doy + 2) / 153;
            let start = (153 * mp + 2) / 5;
            &&& 0 <= mp <= 11
            &&& start <= doy
            &&& mp == 0 ==> start == 0 && doy < 31
            &&& mp == 1 ==> start == 31 && doy < 61
            &&& mp == 2 ==> start == 61 && doy < 92
            &&& mp == 3 ==> start == 92 && doy < 122
            &&& mp == 4 ==> start == 122 && doy < 153
            &&& mp == 5 ==> start == 153 && doy < 184
            &&& mp == 6 ==> start == 184 && doy < 214
            &&& mp == 7 ==> start == 214 && doy < 245
            &&& mp == 8 ==> start == 245 && doy < 275
            &&& mp == 9 ==> start == 275 && doy < 306
            &&& mp == 10 ==> start == 306 && doy < 337
            &&& mp == 11 ==> start == 337
        }),
{
}

/// A day of a year that is counted from March is a date.
proof fn lemma_date_of(y: int, doy: int)
    requires
        0 <= doy <= 365,
        doy == 365 ==> is_leap(y + 1),
    ensures
        ({
            let mp = (5 * doy + 2) / 153;
            let d = doy - (153 * mp + 2) / 5 + 1;
            let m = if mp < 10 {
                mp + 3
            } else {
                mp - 9
            };
            let year = if m <= 2 {
                y + 1
            } else {
                y
            };
            &&& is_date(year, m, d)
            &&& day_number(year, m, d) == year_start(y) + month_start(y, 3) + doy
        }),
{
    lemma_month_of(doy);
    lemma_month_start(y);
    lemma_month_start(y + 1);
    lemma_march(y);
}

/// Adding a multiple of the divisor adds to the quotient alone.
proof fn lemma_div_shift(a: int, k: int, d: int)
    requires
        d > 0,
    ensures
        (a + k * d) / d == a / d + k,
        (a + k * d) % d == a % d,
{
    assert(k * d == d * k) by (nonlinear_arith);
    vstd::arithmetic::div_mod::lemma_hoist_over_denominator(a, k, d as nat);
    vstd::arithmetic::div_mod::lemma_mod_multiples_vanish(k, a, d);
}

/// Years that lie 400 years apart are leap years together.
proof fn lemma_era_leap(era: int, y: int)
    ensures
        is_leap(y + era * 400) == is_leap(y),
{
    lemma_div_shift(y, era * 100, 4);
    lemma_div_shift(y, era * 4, 100);
    lemma_div_shift(y, era, 400);
}

/// A span of 400 years has the same number of days wherever it begins.
proof fn lemma_era(era: int, yoe: int)
    requires
        0 <= yoe < 400,
    ensures
        ({
            let y = yoe + era * 400;
            &&& year_start(y) + month_start(y, 3) == era * 146097 + 365 * yoe + yoe / 4 - yoe / 100
                - 719468
            &&& is_leap(y + 1) == is_leap(yoe + 1)
        }),
{
    let y = yoe + era * 400;
    lemma_march(y);
    lemma_div_shift(yoe, era * 100, 4);
    lemma_div_shift(yoe, era * 4, 100);
    lemma_div_shift(yoe, era, 400);
    lemma_era_leap(era, yoe + 1);
}

/// The date that is `days` days after the first day of 1970: year, month and day.
pub fn civil(days: i64) -> (r: (i64, u32, u32))
    requires
        days <= i64::MAX - 719468,
    ensures
        is_date(r.0 as int, r.1 as int, r.2 as int),
        day_number(r.0 as int, r.1 as int, r.2 as int) == days,
{
    let z: i64 = days + 719468;
    let era: i64 = if z >= 0 {
        z / 146097
    } else {
        -((146096 - z) / 146097)
    };
    let doe: u32 = (z - era * 146097) as u32;
    proof {
        lemma_year_of_era(doe as int);
    }
    let yoe: u32 = (doe - doe / 1460 + doe / 36524 - doe / 146096) / 365;
    let y: i64 = yoe as i64 + era * 400;
    let doy: u32 = doe - (365 * yoe + yoe / 4 - yoe / 100);
    let mp: u32 = (5 * doy + 2) / 153;
    proof {
        lemma_month_of(doy as int);
    }
    let d: u32 = doy - (153 * mp + 2) / 5 + 1;
    let m: u32 = if mp < 10 {
        mp + 3
    } else {
        mp - 9
    };
    let year: i64 = if m <= 2 {
        y + 1
    } else {
        y
    };
    proof {
        lemma_era(era as int, yoe as int);
        lemma_date_of(y as int, doy as int);
    }
    (year, m, d)
}

/// No two dates have the same day number.
pub proof fn law_one_date_per_day(y: int, m: int, d: int, y2: int, m2: int, d2: int)
    requires
        is_date(y, m, d),
        is_date(y2, m2, d2),
        day_number(y, m, d) == day_number(y2, m2, d2),
    ensures
        y == y2 && m == m2 && d == d2,
{
    lemma_within_year(y, m, d);
    lemma_within_year(y2, m2, d2);
    if y < y2 {
        lemma_years_in_order(y, y2);
    } else if y2 < y {
        lemma_years_in_order(y2, y);
    } else {
        lemma_month_start(y);
    }
}

/// A date falls into its year.
proof fn lemma_within_year(y: int, m: int, d: int)
    requires
        is_date(y, m, d),
    ensures
        year_start(y) <= day_number(y, m, d) < year_start(y) + year_len(y),
{
    lemma_month_start(y);
}

/// A later year begins after an earlier one has ended.
proof fn lemma_years_in_order(y: int, y2: int)
    requires
        y < y2,
    ensures
        year_start(y) + year_len(y) <= year_start(y2),
    decreases y2 - y,
{
    lemma_year_start(y);
    lemma_year_start(y + 1);
    if y + 1 < y2 {
        lemma_years_in_order(y + 1, y2);
    }
}

/// A number with zeros before it, so that it takes up `width` characters at least, its
/// sign included.
pub open spec fn padded(n: int, width: nat) -> Seq<char> {
    let digits = dec(if n < 0 {
        -n as nat
    } else {
        n as nat
    });
    let sign: Seq<char> = if n < 0 {
        seq!['-']
    } else {
        Seq::empty()
    };
    let missing = width - sign.len() - digits.len();
    sign + Seq::new(if missing > 0 {
        missing as nat
    } else {
        0
    }, |i: int| '0') + digits
}

/// A date as `YYYY-MM-DD`.
pub open spec fn date_text(y: int, m: int, d: int) -> Seq<char> {
    padded(y, 4) + seq!['-'] + padded(m, 2) + seq!['-'] + padded(d, 2)
}

/// How many digits a number has, up to four.
fn digits_of(n: u64) -> (r: usize)
    ensures
        n < 10000 ==> r == dec(n as nat).len(),
        n >= 10000 ==> r == 4 && dec(n as nat).len() > 4,
        r <= 4,
{
    proof {
        lemma_dec_len(n as nat);
    }
    if n < 10 {
        1
    } else if n < 100 {
        2
    } else if n < 1000 {
        3
    } else {
        4
    }
}

proof fn lemma_dec_len(n: nat)
    ensures
        n < 10 ==> dec(n).len() == 1,
        10 <= n < 100 ==> dec(n).len() == 2,
        100 <= n < 1000 ==> dec(n).len() == 3,
        1000 <= n < 10000 ==> dec(n).len() == 4,
        n >= 10000 ==> dec(n).len() > 4,
{
    reveal_with_fuel(dec, 6);
    if n >= 10000 {
        lemma_dec(n / 10000);
    }
}

/// Appends a number with zeros before it.
fn push_padded(out: &mut Vec<char>, n: i64, width: usize)
    requires
        n > i64::MIN,
        width <= 4,
    ensures
        final(out)@ == old(out)@ + padded(n as int, width as nat),
{
    let negative: bool = n < 0;
    let size: u64 = if negative {
        (-n) as u64
    } else {
        n as u64
    };
    let mut used: usize = digits_of(size);
    if negative {
        out.push('-');
        used = used + 1;
    }
    let ghost before = out@;
    let ghost start = used;
    let mut zeros: usize = 0;
    while used < width
        invariant
            width <= 4,
            used == start + zeros,
            start < width ==> used <= width,
            start >= width ==> zeros == 0,
            out@ == before + Seq::new(zeros as nat, |i: int| '0'),
        decreases width - used,
    {
        out.push('0');
        used = used + 1;
        zeros = zeros + 1;
        assert(out@ =~= before + Seq::new(zeros as nat, |i: int| '0'));
    }
    push_dec(out, size);
    proof {
        let digits = dec(size as nat);
        let sign: Seq<char> = if negative {
            seq!['-']
        } else {
            Seq::empty()
        };
        assert(before =~= old(out)@ + sign);
        assert(out@ =~= old(out)@ + (sign + Seq::new(zeros as nat, |i: int| '0') + digits));
        assert(out@ =~= old(out)@ + padded(n as int, width as nat));
    }
}

/// The date that is `days` days after the first day of 1970, as `YYYY-MM-DD`.
pub fn days_to_civil(days: i64) -> (r: String)
    requires
        days <= i64::MAX - 719468,
    ensures
        exists|y: int, m: int, d: int|
            is_date(y, m, d) && #[trigger] day_number(y, m, d) == days && r@ == date_text(y, m, d),
{
    let (y, m, d) = civil(days);
    proof {
        lemma_year_bound(y as int, m as int, d as int);
    }
    let mut out: Vec<char> = Vec::new();
    push_padded(&mut out, y, 4);
    out.push('-');
    push_padded(&mut out, m as i64, 2);
    out.push('-');
    push_padded(&mut out, d as i64, 2);
    proof {
        assert(out@ =~= date_text(y as int, m as int, d as int));
        lemma_padded_ascii(y as int, 4);
        lemma_padded_ascii(m as int, 2);
        lemma_padded_ascii(d as int, 2);
    }
    ascii_string(&out)
}

/// A year is smaller than the number of its days.
proof fn lemma_year_bound(y: int, m: int, d: int)
    requires
        is_date(y, m, d),
        day_number(y, m, d) >= i64::MIN,
    ensures
        y > i64::MIN,
{
    lemma_within_year(y, m, d);
    lemma_year_start(y);
}

proof fn lemma_padded_ascii(n: int, width: nat)
    ensures
        is_ascii_chars(padded(n, width)),
{
    let size = if n < 0 {
        -n as nat
    } else {
        n as nat
    };
    lemma_dec(size);
    let s = padded(n, width);
    let digits = dec(size);
    let k = s.len() - digits.len();
    assert forall|i: int| 0 <= i < s.len() implies '\0' <= #[trigger] s[i] <= '\u{7f}' by {
        if i >= k {
            assert(s[i] == digits[i - k]);
            assert(crate::text::is_digit(digits[i - k]));
        }
    }
}

/// The date of a time that is given in seconds since the first day of 1970.
pub fn today_utc(secs: u64) -> (r: String)
    requires
        secs <= i64::MAX,
    ensures
        exists|y: int, m: int, d: int|
            is_date(y, m, d) && #[trigger] day_number(y, m, d) == secs / 86400 && r@ == date_text(
                y,
                m,
                d,
            ),
{
    days_to_civil((secs / 86400) as i64)
}

// ── Log files ─────────────────────────────────────────────────────────

/// The name of the log file of a day: `prefix.YYYY-MM-DD.log`.
pub fn log_file_name(prefix: &str, date: &str) -> (r: String)
    ensures
        r@ == prefix@ + "."@ + date@ + ".log"@,
{
    let mut r = String::from_str(prefix);
    r.append(".");
    r.append(date);
    r.append(".log");
    r
}

/// A text begins with another.
pub open spec fn begins(s: Seq<char>, start: Seq<char>) -> bool {
    s.len() >= start.len() && s.take(start.len() as int) == start
}

/// A text ends with another.
pub open spec fn ends(s: Seq<char>, end: Seq<char>) -> bool {
    s.len() >= end.len() && s.skip(s.len() - end.len()) == end
}

/// Whether the part of a text from `from` on begins with another text.
fn matches_at(s: &Vec<char>, from: usize, t: &Vec<char>) -> (r: bool)
    requires
        from + t@.len() <= s@.len(),
    ensures
        r == (s@.subrange(from as int, from + t@.len()) == t@),
{
    let n: usize = s.len();
    let mut i: usize = 0;
    while i < t.len()
        invariant
            i <= t@.len(),
            n == s@.len(),
            from + t@.len() <= n,
            forall|j: int| 0 <= j < i ==> #[trigger] t@[j] == s@[from + j],
        decreases t.len() - i,
    {
        if s[from + i] != t[i] {
            assert(s@.subrange(from as int, from + t@.len())[i as int] != t@[i as int]);
            return false;
        }
        i = i + 1;
    }
    assert(s@.subrange(from as int, from + t@.len()) =~= t@);
    true
}

/// Whether a file is one of the daily log files with this prefix.
pub fn is_log_file(name: &str, prefix: &str) -> (r: bool)
    ensures
        r == (begins(name@, prefix@) && ends(name@, ".log"@)),
{
    let n = chars_of(name);
    let p = chars_of(prefix);
    let e = chars_of(".log");
    if n.len() < p.len() || n.len() < e.len() {
        return false;
    }
    assert(n@.subrange(0, p@.len() as int) =~= n@.take(p@.len() as int));
    assert(n@.subrange(n@.len() - e@.len(), n@.len() as int) =~= n@.skip(n@.len() - e@.len()));
    matches_at(&n, 0, &p) && matches_at(&n, n.len() - e.len(), &e)
}

/// Whether a log file that was last changed so long ago, in seconds and nanoseconds, has
/// been kept for more than `keep_days` days.
pub fn is_out_of_date(age_secs: u64, age_nanos: u32, keep_days: u64) -> (r: bool)
    requires
        age_nanos < SECOND,
    ensures
        r == (age_secs * SECOND + age_nanos > keep_days * 86400 * SECOND),
{
    match keep_days.checked_mul(86400) {
        Some(keep) => age_secs > keep || (age_secs == keep && age_nanos > 0),
        None => false,
    }
}

/// A file that is written under a name of its day is found as a log file.
pub proof fn law_own_files_are_found(prefix: Seq<char>, date: Seq<char>)
    ensures
        ({
            let name = prefix + "."@ + date + ".log"@;
            begins(name, prefix) && ends(name, ".log"@)
        }),
{
    let name = prefix + "."@ + date + ".log"@;
    assert(name.take(prefix.len() as int) =~= prefix);
    assert(name.skip(name.len() - ".log"@.len()) =~= ".log"@);
}

} // verus!
