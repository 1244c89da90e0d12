use vstd::prelude::*;
use crate::refs::{prefix_until, after_first, split_first};
use crate::text::{trim_trailing, trim_trailing_chars, chars_of, string_of, parse_i64, i64_value, all_digits, digits_value, lemma_zero_padded_value, lemma_digits_i64, push_char, push_zero_padded, zero_padded, owned, same_text, push_str};
use crate::models::{DeviceState, Event};
use crate::index::{store_type, department_type};
use vstd::arithmetic::div_mod::{lemma_fundamental_div_mod, lemma_fundamental_div_mod_converse, lemma_mod_bound};

verus! {

/// The three parts of `s` split at `c`, when it splits into exactly three.
pub open spec fn split_three(s: Seq<char>, c: char) -> Option<(Seq<char>, Seq<char>, Seq<char>)> {
    match after_first(s, c) {
        None => None,
        Some(r1) => match after_first(r1, c) {
            None => None,
            Some(r2) => if r2.contains(c) {
                None
            } else {
                Some((prefix_until(s, c), prefix_until(r1, c), r2))
            },
        },
    }
}

/// Seconds and milliseconds of the seconds field `"SS"` or `"SS.fff"`: the fraction is
/// read from its first three characters (all of it when shorter); a missing fraction
/// counts as 0 milliseconds.
pub open spec fn seconds_fields(text: Seq<char>) -> Option<(int, int)> {
    match after_first(text, '.') {
        Some(frac) => {
            let ms = if frac.len() >= 3 { frac.take(3) } else { frac };
            match (i64_value(prefix_until(text, '.')), i64_value(ms)) {
                (Some(s), Some(m)) => Some((s as int, m as int)),
                _ => None,
            }
        },
        None => match i64_value(text) {
            Some(s) => Some((s as int, 0)),
            None => None,
        },
    }
}

/// The fields `[year, month, day, hour, minute, second, millisecond]` of a timestamp
/// `YYYY-MM-DDTHH:MM:SS[.fff]` with any number of trailing `Z`: the text before the first
/// `T` must split at `-` into exactly three integers, the text after it at `:` into
/// exactly three fields.
pub open spec fn iso_fields(ts: Seq<char>) -> Option<Seq<int>> {
    let t = trim_trailing(ts, 'Z');
    match after_first(t, 'T') {
        None => None,
        Some(time) => match (split_three(prefix_until(t, 'T'), '-'), split_three(time, ':')) {
            (Some(d), Some(tm)) => match (
                i64_value(d.0),
                i64_value(d.1),
                i64_value(d.2),
                i64_value(tm.0),
                i64_value(tm.1),
                seconds_fields(tm.2),
            ) {
                (Some(y), Some(mo), Some(da), Some(h), Some(mi), Some(sm)) => Some(
                    seq![y as int, mo as int, da as int, h as int, mi as int, sm.0, sm.1],
                ),
                _ => None,
            },
            _ => None,
        },
    }
}

/// The days of the months before month `i` (0 is January) of a year.
pub open spec fn days_before_month(i: int, leap: bool) -> int
    decreases i,
{
    if i <= 0 {
        0
    } else {
        days_before_month(i - 1, leap) + month_length(i - 1, leap)
    }
}

/// The leap years among the years 1 to `y` (counted the same way for any integer `y`).
pub open spec fn leaps_through(y: int) -> int {
    y / 4 - y / 100 + y / 400
}

/// The days from the first day of 1970 to the first day of year `y` (negative before 1970).
pub open spec fn days_before_year(y: int) -> int {
    365 * (y - 1970) + leaps_through(y - 1) - leaps_through(1969)
}

/// The day number (days since 1970-01-01) of day `d` of month `m` of year `y` in the
/// Gregorian calendar.  Months beyond December or before January roll over into the
/// following or previous years, and days beyond the month into the following days.
pub open spec fn civil_days(y: int, m: int, d: int) -> int {
    let y2 = y + (m - 1) / 12;
    let mi = (m - 1) % 12;
    days_before_year(y2) + days_before_month(mi, leap_year(y2)) + d - 1
}

/// Milliseconds since 1970-01-01T00:00:00Z of the fields of a timestamp.
pub open spec fn iso_total(f: Seq<int>) -> int {
    ((civil_days(f[0], f[1], f[2]) * 24 + f[3]) * 60 + f[4]) * 60000 + f[5] * 1000 + f[6]
}

pub open spec fn fits_i64(x: int) -> bool {
    i64::MIN <= x <= i64::MAX
}

/// Each year has as many days as the calendar gives it.
pub proof fn lemma_year_length(y: int)
    ensures
        days_before_year(y + 1) - days_before_year(y) == days_in_year(y),
{
    lemma_div_step(y, 4);
    lemma_div_step(y, 100);
    lemma_div_step(y, 400);
    if y % 400 == 0 {
        lemma_fundamental_div_mod(y, 400);
        lemma_fundamental_div_mod_converse(y, 100, 4 * (y / 400), 0);
    }
    if y % 100 == 0 {
        lemma_fundamental_div_mod(y, 100);
        lemma_fundamental_div_mod_converse(y, 4, 25 * (y / 100), 0);
    }
}

/// `y / k` grows by one exactly at the multiples of `k`.
pub proof fn lemma_div_step(y: int, k: int)
    requires
        k > 0,
    ensures
        y / k - (y - 1) / k == if y % k == 0 { 1int } else { 0int },
{
    lemma_fundamental_div_mod(y, k);
    lemma_mod_bound(y, k);
    let q = y / k;
    let r = y % k;
    assert(q * k == k * q) by (nonlinear_arith);
    assert((q - 1) * k == q * k - k) by (nonlinear_arith);
    if r == 0 {
        lemma_fundamental_div_mod_converse(y - 1, k, q - 1, k - 1);
    } else {
        lemma_fundamental_div_mod_converse(y - 1, k, q, r - 1);
    }
}

/// The days before each month, as a table.
pub proof fn lemma_days_before_month(leap: bool)
    ensures
        days_before_month(0, leap) == 0,
        days_before_month(1, leap) == 31,
        days_before_month(2, leap) == 59 + if leap { 1int } else { 0int },
        days_before_month(3, leap) == 90 + if leap { 1int } else { 0int },
        days_before_month(4, leap) == 120 + if leap { 1int } else { 0int },
        days_before_month(5, leap) == 151 + if leap { 1int } else { 0int },
        days_before_month(6, leap) == 181 + if leap { 1int } else { 0int },
        days_before_month(7, leap) == 212 + if leap { 1int } else { 0int },
        days_before_month(8, leap) == 243 + if leap { 1int } else { 0int },
        days_before_month(9, leap) == 273 + if leap { 1int } else { 0int },
        days_before_month(10, leap) == 304 + if leap { 1int } else { 0int },
        days_before_month(11, leap) == 334 + if leap { 1int } else { 0int },
        days_before_month(12, leap) == 365 + if leap { 1int } else { 0int },
{
    reveal_with_fuel(days_before_month, 13);
}

/// The milliseconds of a timestamp, when it reads as one.
pub open spec fn iso_ms(ts: Seq<char>) -> Option<int> {
    match iso_fields(ts) {
        Some(f) => Some(iso_total(f)),
        None => None,
    }
}

/// The milliseconds of a timestamp, when it reads as one, fit in an `i64`.
pub open spec fn iso_ms_defined(ts: Seq<char>) -> bool {
    match iso_fields(ts) {
        Some(f) => fits_i64(iso_total(f)),
        None => true,
    }
}

/// Splits `s` into exactly three parts at `c`, if it has exactly two `c`.
fn split_into_three(s: &Vec<char>, c: char) -> (r: Option<(Vec<char>, Vec<char>, Vec<char>)>)
    ensures
        r matches Some((a, b, d)) ==> split_three(s@, c) == Some((a@, b@, d@)),
        r is None ==> split_three(s@, c) is None,
{
    let (p1, r1) = split_first(s, c);
    match r1 {
        None => None,
        Some(r1) => {
            let (p2, r2) = split_first(&r1, c);
            match r2 {
                None => None,
                Some(r2) => {
                    let (_, r3) = split_first(&r2, c);
                    if r3.is_some() {
                        None
                    } else {
                        Some((p1, p2, r2))
                    }
                },
            }
        },
    }
}

/// The integer written by the characters `v`, as `str::parse::<i64>` reads it.
fn parse_chars(v: &Vec<char>) -> (r: Option<i64>)
    ensures
        r == i64_value(v@),
{
    let s = string_of(v);
    parse_i64(s.as_str())
}

/// Seconds and milliseconds of a seconds field (see `seconds_fields`).
fn parse_seconds(text: &Vec<char>) -> (r: Option<(i64, i64)>)
    ensures
        r matches Some((s, m)) ==> seconds_fields(text@) == Some((s as int, m as int)),
        r is None ==> seconds_fields(text@) is None,
{
    let (whole, frac) = split_first(text, '.');
    match frac {
        Some(f) => {
            let ms: Vec<char> = if f.len() >= 3 {
                let mut t: Vec<char> = Vec::new();
                t.push(f[0]);
                t.push(f[1]);
                t.push(f[2]);
                assert(t@ =~= f@.take(3));
                t
            } else {
                f
            };
            let s = parse_chars(&whole);
            let m = parse_chars(&ms);
            match (s, m) {
                (Some(s), Some(m)) => Some((s, m)),
                _ => None,
            }
        },
        None => match parse_chars(text) {
            Some(s) => Some((s, 0)),
            None => None,
        },
    }
}

/// The fields of a timestamp (see `iso_fields`).
#[verifier::rlimit(40)]
fn parse_iso_fields(ts: &str) -> (r: Option<[i64; 7]>)
    ensures
        r matches Some(a) ==> iso_fields(ts@) == Some(a@.map_values(|x: i64| x as int)),
        r is None ==> iso_fields(ts@) is None,
{
    let t = trim_trailing_chars(&chars_of(ts), 'Z');
    let (date, time) = split_first(&t, 'T');
    let time = match time {
        Some(x) => x,
        None => return None,
    };
    let d = match split_into_three(&date, '-') {
        Some(d) => d,
        None => return None,
    };
    let tm = match split_into_three(&time, ':') {
        Some(x) => x,
        None => return None,
    };
    let y = parse_chars(&d.0);
    let mo = parse_chars(&d.1);
    let da = parse_chars(&d.2);
    let h = parse_chars(&tm.0);
    let mi = parse_chars(&tm.1);
    let sm = parse_seconds(&tm.2);
    match (y, mo, da, h, mi, sm) {
        (Some(y), Some(mo), Some(da), Some(h), Some(mi), Some((s, ms))) => {
            let a = [y, mo, da, h, mi, s, ms];
            assert(a@.map_values(|x: i64| x as int) =~= seq![y as int, mo as int, da as int, h as int, mi as int, s as int, ms as int]);
            Some(a)
        },
        _ => None,
    }
}

/// Removing `c` multiples of `k` from `w` lowers `w / k` by `c` and keeps `w % k`.
pub proof fn lemma_shift_div(w: int, c: int, k: int)
    requires
        k > 0,
    ensures
        (w - k * c) / k == w / k - c,
        (w - k * c) % k == w % k,
{
    lemma_fundamental_div_mod(w, k);
    lemma_mod_bound(w, k);
    assert(w - k * c == k * (w / k - c) + w % k) by (nonlinear_arith)
        requires
            w == k * (w / k) + w % k,
    ;
    lemma_fundamental_div_mod_converse(w - k * c, k, w / k - c, w % k);
}

/// `days_before_year(y)` (see there), for a year within `2^64` of year 0.
fn days_before_year_exec(y: i128) -> (r: i128)
    requires
        -0x1_0000_0000_0000_0000 <= y <= 0x1_0000_0000_0000_0000,
    ensures
        r == days_before_year(y as int),
        -0x40_0000_0000_0000_0000_0000 <= r <= 0x40_0000_0000_0000_0000_0000,
{
    let k: i128 = 0x1000_0000_0000_0000;
    let w: u128 = (y - 1 + 400 * k) as u128;
    let q4 = (w / 4) as i128;
    let q100 = (w / 100) as i128;
    let q400 = (w / 400) as i128;
    proof {
        let z = y - 1;
        let kk = k as int;
        lemma_shift_div(w as int, 100 * kk, 4);
        lemma_shift_div(w as int, 4 * kk, 100);
        lemma_shift_div(w as int, kk, 400);
        assert(w as int - 4 * (100 * kk) == z);
        assert(w as int - 100 * (4 * kk) == z);
        assert(w as int - 400 * kk == z);
        assert(leaps_through(1969) == 477);
    }
    365 * (y - 1970) + (q4 - 100 * k) - (q100 - 4 * k) + (q400 - k) - 477
}

/// Whether the year `y` (within `2^64` of year 0) is a leap year.
fn leap_exec(y: i128) -> (r: bool)
    requires
        -0x1_0000_0000_0000_0000 <= y <= 0x1_0000_0000_0000_0000,
    ensures
        r == leap_year(y as int),
{
    let k: i128 = 0x1000_0000_0000_0000;
    let w: u128 = (y + 400 * k) as u128;
    proof {
        let kk = k as int;
        lemma_shift_div(w as int, 100 * kk, 4);
        lemma_shift_div(w as int, 4 * kk, 100);
        lemma_shift_div(w as int, kk, 400);
        assert(w as int - 4 * (100 * kk) == y);
        assert(w as int - 100 * (4 * kk) == y);
        assert(w as int - 400 * kk == y);
    }
    (w % 4 == 0 && w % 100 != 0) || w % 400 == 0
}

/// `civil_days(y, m, d)` (see there).
fn civil_days_exec(y: i64, m: i64, d: i64) -> (r: i128)
    ensures
        r == civil_days(y as int, m as int, d as int),
        -0x80_0000_0000_0000_0000_0000 <= r <= 0x80_0000_0000_0000_0000_0000,
{
    let k: i128 = 0x1000_0000_0000_0000;
    let u: u128 = (m as i128 - 1 + 12 * k) as u128;
    let q = (u / 12) as i128 - k;
    let mi = (u % 12) as usize;
    proof {
        lemma_shift_div(u as int, k as int, 12);
        assert(u as int - 12 * (k as int) == m - 1);
    }
    let y2 = y as i128 + q;
    let leap = leap_exec(y2);
    let table: [i128; 12] = [0, 31, 59, 90, 120, 151, 181, 212, 243, 273, 304, 334];
    let extra: i128 = if leap && mi >= 2 { 1 } else { 0 };
    proof {
        lemma_days_before_month(leap);
        assert(days_before_month(mi as int, leap) == table@[mi as int] + extra);
    }
    days_before_year_exec(y2) + table[mi] + extra + d as i128 - 1
}

/// Reads a timestamp: its milliseconds (see `iso_total`) and whether they fit in `i64`.
fn iso_ms_wide(ts: &str) -> (r: Option<(i128, bool)>)
    ensures
        r is None <==> iso_fields(ts@) is None,
        r matches Some((t, ok)) ==> iso_fields(ts@) matches Some(f) && t == iso_total(f) && ok == fits_i64(iso_total(f)),
{
    match parse_iso_fields(ts) {
        None => None,
        Some(f) => {
            let ghost g = f@.map_values(|x: i64| x as int);
            assert(g[0] == f[0] as int && g[1] == f[1] as int && g[2] == f[2] as int && g[3] == f[3] as int);
            assert(g[4] == f[4] as int && g[5] == f[5] as int && g[6] == f[6] as int);
            let days = civil_days_exec(f[0], f[1], f[2]);
            let total = ((days * 24 + f[3] as i128) * 60 + f[4] as i128) * 60000 + f[5] as i128 * 1000 + f[6] as i128;
            let ok = i64::MIN as i128 <= total && total <= i64::MAX as i128;
            Some((total, ok))
        },
    }
}

/// Milliseconds since 1970-01-01T00:00:00Z of a timestamp `YYYY-MM-DDTHH:MM:SS[.fff][Z]`
/// in the Gregorian calendar (see `iso_total`); `None` when it does not read as one.
pub fn parse_iso_ms(ts: &str) -> (r: Option<i64>)
    requires
        iso_ms_defined(ts@),
    ensures
        r matches Some(v) ==> iso_ms(ts@) == Some(v as int),
        r is None ==> iso_ms(ts@) is None,
{
    match iso_ms_wide(ts) {
        None => None,
        Some((t, _)) => Some(t as i64),
    }
}

/// Whether the milliseconds of `ts`, when it reads as a timestamp, fit in an `i64`
/// (see `iso_ms_defined`).
pub fn iso_ms_representable(ts: &str) -> (r: bool)
    ensures
        r == iso_ms_defined(ts@),
{
    match iso_ms_wide(ts) {
        None => true,
        Some((_, ok)) => ok,
    }
}


/// The optional text of an optional string slice.
pub open spec fn opt_text(o: Option<&str>) -> Option<Seq<char>> {
    match o {
        Some(s) => Some(s@),
        None => None,
    }
}

/// Division rounding toward zero, as Rust's `/` on integers does.
pub open spec fn trunc_div(x: int, d: int) -> int {
    if x >= 0 {
        x / d
    } else {
        -((-x) / d)
    }
}

/// Whole seconds from `entered` to `exited`, when both read as timestamps.
pub open spec fn dwell_spec(entered: Option<Seq<char>>, exited: Seq<char>) -> Option<int> {
    match entered {
        None => None,
        Some(e) => match (iso_ms(e), iso_ms(exited)) {
            (Some(a), Some(b)) => Some(trunc_div(b - a, 1000)),
            _ => None,
        },
    }
}

/// Computing the dwell time stays within `i64`.
pub open spec fn dwell_defined(entered: Option<Seq<char>>, exited: Seq<char>) -> bool {
    match entered {
        None => true,
        Some(e) => iso_ms_defined(e) && (iso_ms(e) is Some ==> iso_ms_defined(exited) && (iso_ms(
            exited,
        ) is Some ==> fits_i64(iso_ms(exited).unwrap() - iso_ms(e).unwrap()))),
    }
}

/// Seconds between two timestamps, rounded toward zero; `None` when there is no entry
/// time or either does not read as a timestamp.
pub fn compute_dwell_seconds(entered_at: Option<&str>, exited_at: &str) -> (r: Option<i64>)
    requires
        dwell_defined(opt_text(entered_at), exited_at@),
    ensures
        r matches Some(v) ==> dwell_spec(opt_text(entered_at), exited_at@) == Some(v as int),
        r is None ==> dwell_spec(opt_text(entered_at), exited_at@) is None,
{
    let entered = match entered_at {
        Some(e) => e,
        None => return None,
    };
    let enter_ms = match parse_iso_ms(entered) {
        Some(v) => v,
        None => return None,
    };
    let exit_ms = match parse_iso_ms(exited_at) {
        Some(v) => v,
        None => return None,
    };
    let diff = exit_ms - enter_ms;
    if diff >= 0 {
        Some(diff / 1000)
    } else {
        let q: i128 = (0 - (diff as i128)) / 1000;
        Some((0 - q) as i64)
    }
}

/// Whether computing the dwell time between two timestamps stays within `i64`.
pub fn dwell_representable(entered_at: Option<&str>, exited_at: &str) -> (r: bool)
    ensures
        r == dwell_defined(opt_text(entered_at), exited_at@),
{
    let entered = match entered_at {
        Some(e) => e,
        None => return true,
    };
    if !iso_ms_representable(entered) {
        return false;
    }
    match iso_ms_wide(entered) {
        None => true,
        Some((a, _)) => {
            if !iso_ms_representable(exited_at) {
                return false;
            }
            match iso_ms_wide(exited_at) {
                None => true,
                Some((b, _)) => {
                    let diff = b - a;
                    i64::MIN as i128 <= diff && diff <= i64::MAX as i128
                },
            }
        },
    }
}

/// Gregorian leap years.
pub open spec fn leap_year(y: int) -> bool {
    (y % 4 == 0 && y % 100 != 0) || y % 400 == 0
}

/// Whether `year` is a leap year of the Gregorian calendar.
pub fn is_leap(year: u64) -> (r: bool)
    ensures
        r == leap_year(year as int),
{
    (year % 4 == 0 && year % 100 != 0) || year % 400 == 0
}

pub open spec fn days_in_year(y: int) -> nat {
    if leap_year(y) {
        366
    } else {
        365
    }
}

/// The year and day of that year (from 0) reached by counting `days` days from the first
/// day of year `y`.
pub open spec fn year_and_day(days: nat, y: nat) -> (nat, nat)
    decreases days,
{
    if days < days_in_year(y as int) {
        (y, days)
    } else {
        year_and_day((days - days_in_year(y as int)) as nat, y + 1)
    }
}

/// Length of month `i` (0 is January).
pub open spec fn month_length(i: int, leap: bool) -> nat {
    if i == 1 {
        if leap {
            29
        } else {
            28
        }
    } else if i == 3 || i == 5 || i == 8 || i == 10 {
        30
    } else {
        31
    }
}

/// The month (1 to 12) and day of that month (from 0) of day `d` of a year, counting
/// months from month `i`; month 0 if `d` lies beyond December.
pub open spec fn month_and_day(d: nat, leap: bool, i: nat) -> (nat, nat)
    decreases 12 - i,
{
    if i >= 12 {
        (0, d)
    } else if d < month_length(i as int, leap) {
        (i + 1, d)
    } else {
        month_and_day((d - month_length(i as int, leap)) as nat, leap, i + 1)
    }
}

/// `YYYY-MM-DDTHH:MM:SS.mmmZ` for `secs` seconds and `millis` milliseconds after the
/// start of 1970 (UTC, Gregorian calendar).
pub open spec fn iso_text(secs: nat, millis: nat) -> Seq<char> {
    let days = secs / 86400;
    let day_secs = secs % 86400;
    let (year, yday) = year_and_day(days, 1970);
    let (month, mday) = month_and_day(yday, leap_year(year as int), 0);
    zero_padded(year, 4) + seq!['-'] + zero_padded(month, 2) + seq!['-'] + zero_padded(mday + 1, 2)
        + seq!['T'] + zero_padded(day_secs / 3600, 2) + seq![':'] + zero_padded((day_secs % 3600) / 60, 2)
        + seq![':'] + zero_padded(day_secs % 60, 2) + seq!['.'] + zero_padded(millis, 3) + seq!['Z']
}

/// Splitting `x c y` at its first `c`, when `x` holds no `c`, gives `x` and `y`.
proof fn lemma_split_at(x: Seq<char>, c: char, y: Seq<char>)
    requires
        !x.contains(c),
    ensures
        prefix_until(x + seq![c] + y, c) == x,
        after_first(x + seq![c] + y, c) == Some(y),
{
    let s = x + seq![c] + y;
    assert forall|j: int| 0 <= j < x.len() implies s[j] != c by {
        assert(s[j] == x[j]);
        if x[j] == c {
            assert(x.contains(c));
        }
    }
    assert(s[x.len() as int] == c);
    crate::refs::lemma_prefix_until(s, c, x.len() as int);
    assert(s.take(x.len() as int) =~= x);
    assert(s.skip(x.len() as int + 1) =~= y);
}

/// Digits hold no character other than digits.
proof fn lemma_digits_lack(x: Seq<char>, c: char)
    requires
        all_digits(x),
        !('0' <= c <= '9'),
    ensures
        !x.contains(c),
{
    if x.contains(c) {
        let k = choose|k: int| 0 <= k < x.len() && x[k] == c;
        assert('0' <= x[k] <= '9');
    }
}

/// A timestamp written with digit fields reads back as those fields.
#[verifier::rlimit(80)]
#[verifier::spinoff_prover]
proof fn lemma_iso_fields_of_text(
    y: Seq<char>,
    mo: Seq<char>,
    d: Seq<char>,
    h: Seq<char>,
    mi: Seq<char>,
    s: Seq<char>,
    ms: Seq<char>,
)
    requires
        all_digits(y) && all_digits(mo) && all_digits(d) && all_digits(h) && all_digits(mi) && all_digits(s) && all_digits(ms),
        y.len() >= 1 && mo.len() >= 1 && d.len() >= 1 && h.len() >= 1 && mi.len() >= 1 && s.len() >= 1,
        ms.len() == 3,
        digits_value(y) <= i64::MAX && digits_value(mo) <= i64::MAX && digits_value(d) <= i64::MAX,
        digits_value(h) <= i64::MAX && digits_value(mi) <= i64::MAX && digits_value(s) <= i64::MAX,
        digits_value(ms) <= i64::MAX,
    ensures
        iso_fields(y + seq!['-'] + mo + seq!['-'] + d + seq!['T'] + h + seq![':'] + mi + seq![':'] + s + seq!['.'] + ms + seq!['Z'])
            == Some(seq![digits_value(y), digits_value(mo), digits_value(d), digits_value(h), digits_value(mi), digits_value(s), digits_value(ms)]),
{
    let text = y + seq!['-'] + mo + seq!['-'] + d + seq!['T'] + h + seq![':'] + mi + seq![':'] + s + seq!['.'] + ms + seq!['Z'];
    let secs_part = s + seq!['.'] + ms;
    let time = h + seq![':'] + (mi + seq![':'] + secs_part);
    let date_tail = mo + seq!['-'] + d;
    let date = y + seq!['-'] + date_tail;
    let body = date + seq!['T'] + time;
    assert(text =~= body + seq!['Z']);
    assert(text.drop_last() =~= body);
    assert(body.last() == ms[2]);
    assert('0' <= ms[2] <= '9');
    assert(trim_trailing(body, 'Z') == body);
    assert(trim_trailing(text, 'Z') == body);
    // the date holds no `T`
    lemma_digits_lack(y, 'T');
    lemma_digits_lack(mo, 'T');
    lemma_digits_lack(d, 'T');
    assert(!date.contains('T')) by {
        if date.contains('T') {
            let k = choose|k: int| 0 <= k < date.len() && date[k] == 'T';
            if k < y.len() {
                assert(date[k] == y[k]);
                assert(y.contains('T'));
            } else if k == y.len() {
            } else if k < y.len() + 1 + mo.len() {
                assert(date[k] == mo[k - y.len() - 1]);
                assert(mo.contains('T'));
            } else if k == y.len() + 1 + mo.len() {
            } else {
                assert(date[k] == d[k - y.len() - 2 - mo.len()]);
                assert(d.contains('T'));
            }
        }
    }
    lemma_split_at(date, 'T', time);
    lemma_digits_lack(y, '-');
    lemma_digits_lack(mo, '-');
    lemma_digits_lack(d, '-');
    lemma_split_at(y, '-', date_tail);
    lemma_split_at(mo, '-', d);
    assert(split_three(date, '-') == Some((y, mo, d)));
    lemma_digits_lack(h, ':');
    lemma_digits_lack(mi, ':');
    lemma_digits_lack(s, ':');
    lemma_digits_lack(ms, ':');
    assert(!secs_part.contains(':')) by {
        if secs_part.contains(':') {
            let k = choose|k: int| 0 <= k < secs_part.len() && secs_part[k] == ':';
            if k < s.len() {
                assert(secs_part[k] == s[k]);
                assert(s.contains(':'));
            } else if k > s.len() {
                assert(secs_part[k] == ms[k - s.len() - 1]);
                assert(ms.contains(':'));
            }
        }
    }
    lemma_split_at(h, ':', mi + seq![':'] + secs_part);
    lemma_split_at(mi, ':', secs_part);
    assert(split_three(time, ':') == Some((h, mi, secs_part)));
    lemma_digits_lack(s, '.');
    lemma_split_at(s, '.', ms);
    assert(ms.take(3) =~= ms);
    lemma_digits_i64(y);
    lemma_digits_i64(mo);
    lemma_digits_i64(d);
    lemma_digits_i64(h);
    lemma_digits_i64(mi);
    lemma_digits_i64(s);
    lemma_digits_i64(ms);
    assert(seconds_fields(secs_part) == Some((digits_value(s), digits_value(ms))));
}

/// Counting whole years from year `y`: the year reached starts as many days after
/// year `y` as were counted, less the days left over in it.
proof fn lemma_year_and_day(days: nat, y: nat)
    ensures
        ({
            let (yy, yd) = year_and_day(days, y);
            &&& y <= yy <= y + days
            &&& yd < days_in_year(yy as int)
            &&& days_before_year(yy as int) + yd == days_before_year(y as int) + days
        }),
    decreases days,
{
    if days >= days_in_year(y as int) {
        lemma_year_length(y as int);
        lemma_year_and_day((days - days_in_year(y as int)) as nat, y + 1);
    }
}

/// Counting whole months from month `i`: the month reached (1 to 12) starts as many days
/// after month `i` as were counted, less the days left over in it.
proof fn lemma_month_and_day(d: nat, leap: bool, i: nat)
    requires
        i <= 12,
        days_before_month(i as int, leap) + d < days_before_month(12, leap),
    ensures
        ({
            let (m, md) = month_and_day(d, leap, i);
            &&& i + 1 <= m <= 12
            &&& days_before_month(m - 1, leap) + md == days_before_month(i as int, leap) + d
            &&& md < month_length(m - 1, leap)
        }),
    decreases 12 - i,
{
    if i < 12 && d >= month_length(i as int, leap) {
        assert(days_before_month(i as int + 1, leap) == days_before_month(i as int, leap) + month_length(i as int, leap));
        lemma_month_and_day((d - month_length(i as int, leap)) as nat, leap, i + 1);
    }
}

/// Seconds split into days, hours, minutes and seconds add back up.
proof fn lemma_clock_split(secs: nat, millis: nat)
    ensures
        ((((secs / 86400) * 24 + (secs % 86400) / 3600) * 60 + ((secs % 86400) % 3600) / 60) * 60000
            + ((secs % 86400) % 60) * 1000 + millis) == secs * 1000 + millis,
{
    let days = secs / 86400;
    let ds = secs % 86400;
    let h = ds / 3600;
    let r = ds % 3600;
    let mi = r / 60;
    let s = r % 60;
    lemma_fundamental_div_mod(secs as int, 86400);
    lemma_fundamental_div_mod(ds as int, 3600);
    lemma_fundamental_div_mod(r as int, 60);
    assert(ds % 60 == s) by {
        lemma_fundamental_div_mod_converse(ds as int, 60, (h * 60 + mi) as int, s as int);
    }
    assert((((days * 24 + h) * 60 + mi) * 60000 + s * 1000 + millis) == secs * 1000 + millis) by (nonlinear_arith)
        requires
            secs == 86400 * days + ds,
            ds == 3600 * h + r,
            r == 60 * mi + s,
    ;
}

/// What `format_timestamp` writes reads back as the same instant: the timestamp of
/// `secs` seconds and `millis` milliseconds after the start of 1970 reads as
/// `secs * 1000 + millis` milliseconds.
#[verifier::rlimit(80)]
#[verifier::spinoff_prover]
pub proof fn lemma_timestamp_roundtrip(secs: nat, millis: nat)
    requires
        millis < 1000,
        secs * 1000 + millis <= i64::MAX,
    ensures
        iso_ms(iso_text(secs, millis)) == Some((secs * 1000 + millis) as int),
        iso_ms_defined(iso_text(secs, millis)),
{
    let days = secs / 86400;
    let ds = secs % 86400;
    let (year, yday) = year_and_day(days, 1970);
    let leap = leap_year(year as int);
    let (month, mday) = month_and_day(yday, leap, 0);
    lemma_year_and_day(days, 1970);
    assert(days_before_year(1970) == 0);
    lemma_days_before_month(leap);
    lemma_month_and_day(yday, leap, 0);
    let yv = year;
    let hv = ds / 3600;
    let miv = (ds % 3600) / 60;
    let sv = ds % 60;
    lemma_zero_padded_value(yv, 4);
    lemma_zero_padded_value(month, 2);
    lemma_zero_padded_value(mday + 1, 2);
    lemma_zero_padded_value(hv, 2);
    lemma_zero_padded_value(miv, 2);
    lemma_zero_padded_value(sv, 2);
    lemma_zero_padded_value(millis, 3);
    assert(month_length(month - 1, leap) <= 31);
    lemma_iso_fields_of_text(
        zero_padded(yv, 4),
        zero_padded(month, 2),
        zero_padded(mday + 1, 2),
        zero_padded(hv, 2),
        zero_padded(miv, 2),
        zero_padded(sv, 2),
        zero_padded(millis, 3),
    );
    let f = seq![yv as int, month as int, (mday + 1) as int, hv as int, miv as int, sv as int, millis as int];
    assert(iso_fields(iso_text(secs, millis)) == Some(f));
    assert((month - 1) / 12 == 0 && (month - 1) % 12 == month - 1);
    assert(civil_days(yv as int, month as int, (mday + 1) as int) == days);
    lemma_clock_split(secs, millis);
    assert(iso_total(f) == secs * 1000 + millis);
}

/// The form of a written timestamp: for a year below 10000 it is 24 characters,
/// `YYYY-MM-DDTHH:MM:SS.mmmZ`, and its fields name a real UTC time: a month from 1 to 12,
/// a day within that month (February by the leap-year rule), an hour below 24 and a
/// minute and second below 60.
#[verifier::rlimit(80)]
#[verifier::spinoff_prover]
pub proof fn lemma_timestamp_form(secs: nat, millis: nat)
    requires
        millis < 1000,
        year_and_day(secs / 86400, 1970).0 < 10000,
    ensures
        ({
            let t = iso_text(secs, millis);
            &&& t.len() == 24
            &&& t[4] == '-' && t[7] == '-' && t[10] == 'T' && t[13] == ':' && t[16] == ':' && t[19] == '.' && t[23] == 'Z'
            &&& iso_fields(t) matches Some(f) && {
                &&& 1 <= f[1] <= 12
                &&& 1 <= f[2] <= month_length(f[1] - 1, leap_year(f[0]))
                &&& 0 <= f[3] < 24 && 0 <= f[4] < 60 && 0 <= f[5] < 60 && f[6] == millis
            }
        }),
{
    let days = secs / 86400;
    let ds = secs % 86400;
    let (year, yday) = year_and_day(days, 1970);
    let leap = leap_year(year as int);
    let (month, mday) = month_and_day(yday, leap, 0);
    lemma_year_and_day(days, 1970);
    lemma_days_before_month(leap);
    lemma_month_and_day(yday, leap, 0);
    assert(month_length(month - 1, leap) <= 31);
    let hv = ds / 3600;
    let miv = (ds % 3600) / 60;
    let sv = ds % 60;
    lemma_zero_padded_value(year, 4);
    lemma_zero_padded_value(month, 2);
    lemma_zero_padded_value(mday + 1, 2);
    lemma_zero_padded_value(hv, 2);
    lemma_zero_padded_value(miv, 2);
    lemma_zero_padded_value(sv, 2);
    lemma_zero_padded_value(millis, 3);
    lemma_iso_fields_of_text(
        zero_padded(year, 4),
        zero_padded(month, 2),
        zero_padded(mday + 1, 2),
        zero_padded(hv, 2),
        zero_padded(miv, 2),
        zero_padded(sv, 2),
        zero_padded(millis, 3),
    );
    let t = iso_text(secs, millis);
    assert(t.len() == 24);
    assert(t[4] == '-' && t[7] == '-' && t[10] == 'T' && t[13] == ':' && t[16] == ':' && t[19] == '.' && t[23] == 'Z');
}

/// `a` comes before `b` or equals it in the order of `str` comparison (character by
/// character, a prefix first).
pub open spec fn text_le(a: Seq<char>, b: Seq<char>) -> bool
    decreases a.len(),
{
    if a.len() == 0 {
        true
    } else if b.len() == 0 {
        false
    } else if a[0] != b[0] {
        a[0] < b[0]
    } else {
        text_le(a.drop_first(), b.drop_first())
    }
}

/// Fields written one after the other, each followed by its separator.
pub open spec fn join_fields(fs: Seq<Seq<char>>, seps: Seq<char>, i: nat) -> Seq<char>
    decreases fs.len() - i,
{
    if i >= fs.len() {
        Seq::empty()
    } else {
        fs[i as int] + (seq![seps[i as int]] + join_fields(fs, seps, i + 1))
    }
}

/// The values of `v1` from index `i` on come before those of `v2`, or equal them, in
/// lexicographic order.
pub open spec fn values_le(v1: Seq<int>, v2: Seq<int>, i: nat) -> bool
    decreases v1.len() - i,
{
    if i >= v1.len() {
        true
    } else if v1[i as int] != v2[i as int] {
        v1[i as int] < v2[i as int]
    } else {
        values_le(v1, v2, i + 1)
    }
}

proof fn lemma_text_le_refl(a: Seq<char>)
    ensures
        text_le(a, a),
    decreases a.len(),
{
    if a.len() > 0 {
        lemma_text_le_refl(a.drop_first());
    }
}

/// A common prefix does not change the order.
proof fn lemma_text_le_prefix(p: Seq<char>, r1: Seq<char>, r2: Seq<char>)
    requires
        text_le(r1, r2),
    ensures
        text_le(p + r1, p + r2),
    decreases p.len(),
{
    if p.len() > 0 {
        assert((p + r1).drop_first() =~= p.drop_first() + r1);
        assert((p + r2).drop_first() =~= p.drop_first() + r2);
        lemma_text_le_prefix(p.drop_first(), r1, r2);
    }
}

/// Two texts of one length that first differ at `k`, smaller in `a`, put `a` first
/// whatever follows.
proof fn lemma_text_lt_at(a: Seq<char>, b: Seq<char>, k: int, r1: Seq<char>, r2: Seq<char>)
    requires
        a.len() == b.len(),
        0 <= k < a.len(),
        a.take(k) == b.take(k),
        a[k] < b[k],
    ensures
        text_le(a + r1, b + r2),
    decreases k,
{
    if k > 0 {
        assert(a[0] == a.take(k)[0] && b[0] == b.take(k)[0]);
        assert((a + r1).drop_first() =~= a.drop_first() + r1);
        assert((b + r2).drop_first() =~= b.drop_first() + r2);
        assert(a.drop_first().take(k - 1) =~= a.take(k).drop_first());
        assert(b.drop_first().take(k - 1) =~= b.take(k).drop_first());
        lemma_text_lt_at(a.drop_first(), b.drop_first(), k - 1, r1, r2);
    }
}

/// Digits of one length with the same value are the same digits.
proof fn lemma_digits_eq(a: Seq<char>, b: Seq<char>)
    requires
        all_digits(a),
        all_digits(b),
        a.len() == b.len(),
        digits_value(a) == digits_value(b),
    ensures
        a == b,
    decreases a.len(),
{
    if a.len() > 0 {
        let n = a.len() - 1;
        assert(all_digits(a.drop_last())) by {
            assert forall|i: int| 0 <= i < a.drop_last().len() implies '0' <= #[trigger] a.drop_last()[i] <= '9' by {
                assert(a.drop_last()[i] == a[i]);
            }
        }
        assert(all_digits(b.drop_last())) by {
            assert forall|i: int| 0 <= i < b.drop_last().len() implies '0' <= #[trigger] b.drop_last()[i] <= '9' by {
                assert(b.drop_last()[i] == b[i]);
            }
        }
        assert('0' <= a[n] <= '9' && '0' <= b[n] <= '9');
        crate::text::lemma_digits_value_nonneg(a.drop_last());
        crate::text::lemma_digits_value_nonneg(b.drop_last());
        let x = digits_value(a.drop_last());
        let y = digits_value(b.drop_last());
        let la = a[n] as int - 48;
        let lb = b[n] as int - 48;
        assert(x * 10 + la == y * 10 + lb);
        lemma_fundamental_div_mod_converse(x * 10 + la, 10, x, la);
        lemma_fundamental_div_mod_converse(y * 10 + lb, 10, y, lb);
        lemma_digits_eq(a.drop_last(), b.drop_last());
        assert(a =~= b) by {
            assert forall|i: int| 0 <= i < a.len() implies a[i] == b[i] by {
                if i < n {
                    assert(a[i] == a.drop_last()[i] && b[i] == b.drop_last()[i]);
                }
            }
        }
    }
}

/// Digits of one length with a smaller value first differ at a smaller digit.
proof fn lemma_digits_lt(a: Seq<char>, b: Seq<char>) -> (k: int)
    requires
        all_digits(a),
        all_digits(b),
        a.len() == b.len(),
        digits_value(a) < digits_value(b),
    ensures
        0 <= k < a.len(),
        a.take(k) == b.take(k),
        a[k] < b[k],
    decreases a.len(),
{
    let n = a.len() - 1;
    assert(a.len() > 0);
    let a0 = a.drop_last();
    let b0 = b.drop_last();
    assert(all_digits(a0)) by {
        assert forall|i: int| 0 <= i < a0.len() implies '0' <= #[trigger] a0[i] <= '9' by {
            assert(a0[i] == a[i]);
        }
    }
    assert(all_digits(b0)) by {
        assert forall|i: int| 0 <= i < b0.len() implies '0' <= #[trigger] b0[i] <= '9' by {
            assert(b0[i] == b[i]);
        }
    }
    assert('0' <= a[n] <= '9' && '0' <= b[n] <= '9');
    let x = digits_value(a0);
    let y = digits_value(b0);
    if x < y {
        let k = lemma_digits_lt(a0, b0);
        assert(a.take(k) =~= a0.take(k));
        assert(b.take(k) =~= b0.take(k));
        assert(a[k] == a0[k] && b[k] == b0[k]);
        k
    } else if x == y {
        lemma_digits_eq(a0, b0);
        assert(a.take(n) =~= a0);
        assert(b.take(n) =~= b0);
        n
    } else {
        assert(false);
        0
    }
}

/// A written field that is not larger puts the text first, given that what follows
/// does when the fields are equal.
proof fn lemma_field_le(a1: Seq<char>, a2: Seq<char>, r1: Seq<char>, r2: Seq<char>)
    requires
        all_digits(a1),
        all_digits(a2),
        a1.len() == a2.len(),
        digits_value(a1) <= digits_value(a2),
        digits_value(a1) == digits_value(a2) ==> text_le(r1, r2),
    ensures
        text_le(a1 + r1, a2 + r2),
{
    if digits_value(a1) < digits_value(a2) {
        let k = lemma_digits_lt(a1, a2);
        lemma_text_lt_at(a1, a2, k, r1, r2);
    } else {
        lemma_digits_eq(a1, a2);
        lemma_text_le_prefix(a1, r1, r2);
    }
}

/// Digit fields of matching lengths, in lexicographic order of their values, are written
/// in text order.
proof fn lemma_join_le(fs1: Seq<Seq<char>>, fs2: Seq<Seq<char>>, seps: Seq<char>, v1: Seq<int>, v2: Seq<int>, i: nat)
    requires
        fs1.len() == fs2.len(),
        v1.len() == fs1.len(),
        v2.len() == fs1.len(),
        seps.len() == fs1.len(),
        forall|j: int| 0 <= j < fs1.len() ==> all_digits(#[trigger] fs1[j]) && all_digits(fs2[j]) && fs1[j].len() == fs2[j].len()
            && digits_value(fs1[j]) == v1[j] && digits_value(fs2[j]) == v2[j],
        values_le(v1, v2, i),
    ensures
        text_le(join_fields(fs1, seps, i), join_fields(fs2, seps, i)),
    decreases fs1.len() - i,
{
    if i >= fs1.len() {
        lemma_text_le_refl(Seq::<char>::empty());
    } else {
        let j = i as int;
        assert(0 <= j < fs1.len());
        let a = fs1[j];
        assert(all_digits(a) && all_digits(fs2[j]) && a.len() == fs2[j].len());
        if v1[j] == v2[j] {
            lemma_join_le(fs1, fs2, seps, v1, v2, i + 1);
            lemma_text_le_prefix(seq![seps[j]], join_fields(fs1, seps, i + 1), join_fields(fs2, seps, i + 1));
        }
        lemma_field_le(
            fs1[j],
            fs2[j],
            seq![seps[j]] + join_fields(fs1, seps, i + 1),
            seq![seps[j]] + join_fields(fs2, seps, i + 1),
        );
    }
}

/// The days before a year grow with the year.
proof fn lemma_days_before_year_mono(a: int, b: int)
    requires
        a <= b,
    ensures
        days_before_year(a) + (b - a) * 365 <= days_before_year(b),
    decreases b - a,
{
    if a < b {
        lemma_days_before_year_mono(a, b - 1);
        lemma_year_length(b - 1);
    }
}

/// The days before a month grow with the month, by at least the lengths of the months
/// passed.
proof fn lemma_days_before_month_mono(i: int, j: int, leap: bool)
    requires
        0 <= i < j,
    ensures
        days_before_month(i, leap) + month_length(i, leap) <= days_before_month(j, leap),
    decreases j - i,
{
    if j > i + 1 {
        lemma_days_before_month_mono(i, j - 1, leap);
    }
}

/// Valid timestamp fields in lexicographic order name instants in the same order: if
/// the fields of `f1` come after those of `f2`, so does the instant.
#[verifier::rlimit(80)]
#[verifier::spinoff_prover]
proof fn lemma_fields_order(f1: Seq<int>, f2: Seq<int>)
    requires
        f1.len() == 7,
        f2.len() == 7,
        forall|k: int| #![trigger f1[k], f2[k]] 0 <= k < 7 ==> 0 <= f1[k] && 0 <= f2[k],
        1 <= f1[1] <= 12 && 1 <= f2[1] <= 12,
        1 <= f1[2] <= month_length(f1[1] - 1, leap_year(f1[0])),
        1 <= f2[2] <= month_length(f2[1] - 1, leap_year(f2[0])),
        f1[3] < 24 && f2[3] < 24 && f1[4] < 60 && f2[4] < 60 && f1[5] < 60 && f2[5] < 60,
        f1[6] < 1000 && f2[6] < 1000,
        iso_total(f1) <= iso_total(f2),
    ensures
        values_le(f1, f2, 0),
{
    reveal_with_fuel(values_le, 8);
    let c1 = civil_days(f1[0], f1[1], f1[2]);
    let c2 = civil_days(f2[0], f2[1], f2[2]);
    let l1 = leap_year(f1[0]);
    let l2 = leap_year(f2[0]);
    assert((f1[1] - 1) / 12 == 0 && (f1[1] - 1) % 12 == f1[1] - 1);
    assert((f2[1] - 1) / 12 == 0 && (f2[1] - 1) % 12 == f2[1] - 1);
    lemma_days_before_month(l1);
    lemma_days_before_month(l2);
    let t1 = ((f1[3] * 60 + f1[4]) * 60 + f1[5]) * 1000 + f1[6];
    let t2 = ((f2[3] * 60 + f2[4]) * 60 + f2[5]) * 1000 + f2[6];
    assert(iso_total(f1) == c1 * 86_400_000 + t1);
    assert(iso_total(f2) == c2 * 86_400_000 + t2);
    assert(0 <= t1 < 86_400_000 && 0 <= t2 < 86_400_000);
    if !values_le(f1, f2, 0) {
        if f1[0] != f2[0] {
            // a later year
            assert(f1[0] > f2[0]);
            lemma_days_before_year_mono(f2[0] + 1, f1[0]);
            lemma_year_length(f2[0]);
            if f2[1] - 1 < 12 {
                lemma_days_before_month_mono(f2[1] - 1, 12, l2);
            }
            assert(c1 > c2);
        } else if f1[1] != f2[1] {
            lemma_days_before_month_mono(f2[1] - 1, f1[1] - 1, l1);
            assert(c1 > c2);
        } else if f1[2] != f2[2] {
            assert(c1 > c2);
        } else {
            assert(c1 == c2);
        }
        assert(c1 * 86_400_000 + t1 > c2 * 86_400_000 + t2) by (nonlinear_arith)
            requires
                c1 >= c2,
                c1 > c2 || t1 > t2,
                0 <= t1 < 86_400_000,
                0 <= t2 < 86_400_000,
        ;
    }
}

/// The written fields of the timestamp of `secs` seconds and `millis` milliseconds, in
/// order, with the separators that follow each of them.
#[verifier::rlimit(80)]
#[verifier::spinoff_prover]
proof fn lemma_timestamp_fields(secs: nat, millis: nat) -> (fs: Seq<Seq<char>>)
    requires
        millis < 1000,
        year_and_day(secs / 86400, 1970).0 < 10000,
    ensures
        fs.len() == 7,
        iso_text(secs, millis) == join_fields(fs, seq!['-', '-', 'T', ':', ':', '.', 'Z'], 0),
        fs[0].len() == 4 && fs[1].len() == 2 && fs[2].len() == 2 && fs[3].len() == 2,
        fs[4].len() == 2 && fs[5].len() == 2 && fs[6].len() == 3,
        forall|k: int| 0 <= k < 7 ==> all_digits(#[trigger] fs[k]),
        iso_fields(iso_text(secs, millis)) == Some(fs.map_values(|x: Seq<char>| digits_value(x))),
{
    let days = secs / 86400;
    let ds = secs % 86400;
    let (year, yday) = year_and_day(days, 1970);
    let leap = leap_year(year as int);
    let (month, mday) = month_and_day(yday, leap, 0);
    lemma_year_and_day(days, 1970);
    lemma_days_before_month(leap);
    lemma_month_and_day(yday, leap, 0);
    assert(month_length(month - 1, leap) <= 31);
    let fs = seq![
        zero_padded(year, 4),
        zero_padded(month, 2),
        zero_padded(mday + 1, 2),
        zero_padded(ds / 3600, 2),
        zero_padded((ds % 3600) / 60, 2),
        zero_padded(ds % 60, 2),
        zero_padded(millis, 3),
    ];
    lemma_zero_padded_value(year, 4);
    lemma_zero_padded_value(month, 2);
    lemma_zero_padded_value(mday + 1, 2);
    lemma_zero_padded_value(ds / 3600, 2);
    lemma_zero_padded_value((ds % 3600) / 60, 2);
    lemma_zero_padded_value(ds % 60, 2);
    lemma_zero_padded_value(millis, 3);
    lemma_iso_fields_of_text(fs[0], fs[1], fs[2], fs[3], fs[4], fs[5], fs[6]);
    reveal_with_fuel(join_fields, 8);
    assert(iso_text(secs, millis) =~= join_fields(fs, seq!['-', '-', 'T', ':', ':', '.', 'Z'], 0));
    assert(fs.map_values(|x: Seq<char>| digits_value(x)) =~= seq![
        digits_value(fs[0]),
        digits_value(fs[1]),
        digits_value(fs[2]),
        digits_value(fs[3]),
        digits_value(fs[4]),
        digits_value(fs[5]),
        digits_value(fs[6]),
    ]);
    fs
}

/// Timestamps sort as text in the order of the instants they name: a reading that is
/// not later is written as a timestamp that does not come after (years below 10000).
#[verifier::rlimit(80)]
#[verifier::spinoff_prover]
pub proof fn lemma_timestamp_order(s1: nat, m1: nat, s2: nat, m2: nat)
    requires
        m1 < 1000,
        m2 < 1000,
        s1 * 1000 + m1 <= s2 * 1000 + m2,
        s2 * 1000 + m2 <= i64::MAX,
        year_and_day(s1 / 86400, 1970).0 < 10000,
        year_and_day(s2 / 86400, 1970).0 < 10000,
    ensures
        text_le(iso_text(s1, m1), iso_text(s2, m2)),
{
    let fs1 = lemma_timestamp_fields(s1, m1);
    let fs2 = lemma_timestamp_fields(s2, m2);
    lemma_timestamp_roundtrip(s1, m1);
    lemma_timestamp_roundtrip(s2, m2);
    lemma_timestamp_form(s1, m1);
    lemma_timestamp_form(s2, m2);
    let v1 = fs1.map_values(|x: Seq<char>| digits_value(x));
    let v2 = fs2.map_values(|x: Seq<char>| digits_value(x));
    assert forall|k: int| #![trigger v1[k], v2[k]] 0 <= k < 7 implies 0 <= v1[k] && 0 <= v2[k] by {
        crate::text::lemma_digits_value_nonneg(fs1[k]);
        crate::text::lemma_digits_value_nonneg(fs2[k]);
    }
    lemma_fields_order(v1, v2);
    let seps = seq!['-', '-', 'T', ':', ':', '.', 'Z'];
    assert forall|j: int| 0 <= j < fs1.len() implies all_digits(#[trigger] fs1[j]) && all_digits(fs2[j]) && fs1[j].len() == fs2[j].len()
        && digits_value(fs1[j]) == v1[j] && digits_value(fs2[j]) == v2[j] by {
        assert(all_digits(fs2[j]));
    }
    lemma_join_le(fs1, fs2, seps, v1, v2, 0);
}

/// The number of days of `year`.
fn year_length(year: u64) -> (r: u64)
    ensures
        r == days_in_year(year as int),
{
    if is_leap(year) {
        366
    } else {
        365
    }
}

/// Writes the timestamp `secs.millis` seconds after the start of 1970 (see `iso_text`).
pub fn format_timestamp(secs: u64, millis: u32) -> (r: String)
    ensures
        r@ == iso_text(secs as nat, millis as nat),
{
    let mut days: u64 = secs / 86400;
    let day_secs = secs % 86400;
    let hour = day_secs / 3600;
    let min = (day_secs % 3600) / 60;
    let sec = day_secs % 60;
    let mut year: u64 = 1970;
    let ghost start_days = days;
    while days >= year_length(year)
        invariant
            year_and_day(days as nat, year as nat) == year_and_day(start_days as nat, 1970),
            days <= start_days,
            start_days <= u64::MAX / 86400,
            year <= 1970 + (start_days - days),
        decreases days,
    {
        let len = year_length(year);
        days = days - len;
        year = year + 1;
    }
    let leap = is_leap(year);
    let lengths: [u64; 12] = [31, if leap { 29 } else { 28 }, 31, 30, 31, 30, 31, 31, 30, 31, 30, 31];
    let mut month: u64 = 0;
    let mut i: usize = 0;
    let ghost yday = days;
    assert(yday < days_in_year(year as int));
    while i < 12
        invariant_except_break
            month == 0,
            month_and_day(days as nat, leap, i as nat) == month_and_day(yday as nat, leap, 0),
        invariant
            i <= 12,
            days <= yday,
            yday < 366,
            lengths@.len() == 12,
            forall|k: int| 0 <= k < 12 ==> lengths@[k] == month_length(k, leap),
            leap == leap_year(year as int),
        ensures
            (month as nat, days as nat) == month_and_day(yday as nat, leap, 0),
        decreases 12 - i,
    {
        if days < lengths[i] {
            month = i as u64 + 1;
            break;
        }
        days = days - lengths[i];
        i += 1;
    }
    proof {
        assert(year_and_day(yday as nat, year as nat) == (year as nat, yday as nat));
    }
    let day = days + 1;
    let mut r = String::new();
    push_zero_padded(&mut r, year, 4);
    push_char(&mut r, '-');
    push_zero_padded(&mut r, month, 2);
    push_char(&mut r, '-');
    push_zero_padded(&mut r, day, 2);
    push_char(&mut r, 'T');
    push_zero_padded(&mut r, hour, 2);
    push_char(&mut r, ':');
    push_zero_padded(&mut r, min, 2);
    push_char(&mut r, ':');
    push_zero_padded(&mut r, sec, 2);
    push_char(&mut r, '.');
    push_zero_padded(&mut r, millis as u64, 3);
    push_char(&mut r, 'Z');
    assert(r@ =~= iso_text(secs as nat, millis as nat));
    r
}

#[verifier::external_type_specification]
#[verifier::external_body]
pub struct ExSystemTime(std::time::SystemTime);

/// `SystemTime::now`: the current time of the system clock.  Nothing is claimed of it.
#[verifier::external_body]
fn system_now() -> std::time::SystemTime {
    std::time::SystemTime::now()
}

/// `SystemTime::duration_since(UNIX_EPOCH)`: the time elapsed since the start of 1970,
/// zero for a clock set before it.  Nothing is claimed of the value.
#[verifier::external_body]
fn since_unix_epoch(t: std::time::SystemTime) -> std::time::Duration {
    t.duration_since(std::time::UNIX_EPOCH).unwrap_or_default()
}

/// `Duration::as_secs`: the whole seconds of a duration.  Nothing is claimed of the value.
#[verifier::external_body]
fn whole_seconds(d: &std::time::Duration) -> u64 {
    d.as_secs()
}

/// `Duration::subsec_millis`: the milliseconds beyond the whole seconds, documented to
/// be below 1000.
#[verifier::external_body]
fn subsec_millis(d: &std::time::Duration) -> (r: u32)
    ensures
        r < 1000,
{
    d.subsec_millis()
}

/// The current UTC time as `YYYY-MM-DDTHH:MM:SS.mmmZ`.
pub fn iso_timestamp() -> (r: String)
    ensures
        exists|secs: nat, millis: nat| millis < 1000 && r@ == iso_text(secs, millis),
{
    let elapsed = since_unix_epoch(system_now());
    let secs = whole_seconds(&elapsed);
    let millis = subsec_millis(&elapsed);
    let r = format_timestamp(secs, millis);
    assert(r@ == iso_text(secs as nat, millis as nat));
    r
}


/// What event detection reads of an object found around a device: its type, its id and,
/// for a department, the department name it was tagged with.
#[derive(Debug)]
pub struct ZoneObject {
    pub obj_type: String,
    pub id: String,
    pub department: Option<String>,
}

pub struct ZoneObjectSpec {
    pub obj_type: Seq<char>,
    pub id: Seq<char>,
    pub department: Option<Seq<char>>,
}

impl ZoneObject {
    pub open spec fn zone_view(self) -> ZoneObjectSpec {
        ZoneObjectSpec { obj_type: self.obj_type@, id: self.id@, department: self.department.deep_view() }
    }
}

pub open spec fn zone_views(objs: Seq<ZoneObject>) -> Seq<ZoneObjectSpec> {
    objs.map_values(|o: ZoneObject| o.zone_view())
}

/// The state of a device, as values.
pub struct DeviceStateSpec {
    pub device_id: Seq<char>,
    pub store_id: Option<Seq<char>>,
    pub department: Option<Seq<char>>,
    pub last_seen: Seq<char>,
    pub consecutive_outside: u32,
    pub entered_at: Option<Seq<char>>,
}

/// An event, as values.
pub struct EventSpec {
    pub event_type: Seq<char>,
    pub store_id: Seq<char>,
    pub department: Option<Seq<char>>,
    pub previous_department: Option<Seq<char>>,
    pub dwell_seconds: Option<int>,
    pub timestamp: Seq<char>,
}

impl DeviceState {
    pub open spec fn state_view(self) -> DeviceStateSpec {
        DeviceStateSpec {
            device_id: self.device_id@,
            store_id: self.store_id.deep_view(),
            department: self.department.deep_view(),
            last_seen: self.last_seen@,
            consecutive_outside: self.consecutive_outside,
            entered_at: self.entered_at.deep_view(),
        }
    }
}

impl Event {
    pub open spec fn event_view(self) -> EventSpec {
        EventSpec {
            event_type: self.event_type@,
            store_id: self.store_id@,
            department: self.department.deep_view(),
            previous_department: self.previous_department.deep_view(),
            dwell_seconds: match self.dwell_seconds {
                Some(d) => Some(d as int),
                None => None,
            },
            timestamp: self.timestamp@,
        }
    }
}

pub open spec fn event_views(events: Seq<Event>) -> Seq<EventSpec> {
    events.map_values(|e: Event| e.event_view())
}

/// The id of the first venue among the objects.
pub open spec fn first_store(objs: Seq<ZoneObjectSpec>) -> Option<Seq<char>>
    decreases objs.len(),
{
    if objs.len() == 0 {
        None
    } else if objs[0].obj_type == store_type() {
        Some(objs[0].id)
    } else {
        first_store(objs.drop_first())
    }
}

/// The name of the first department among the objects: its department tag, else its id.
pub open spec fn first_department(objs: Seq<ZoneObjectSpec>) -> Option<Seq<char>>
    decreases objs.len(),
{
    if objs.len() == 0 {
        None
    } else if objs[0].obj_type == department_type() {
        Some(
            match objs[0].department {
                Some(d) => d,
                None => objs[0].id,
            },
        )
    } else {
        first_department(objs.drop_first())
    }
}

pub open spec fn entered_store_type() -> Seq<char> {
    "device.entered_store"@
}

pub open spec fn exited_store_type() -> Seq<char> {
    "device.exited_store"@
}

pub open spec fn entered_department_type() -> Seq<char> {
    "device.entered_department"@
}

/// The device was in a venue according to its previous state.
pub open spec fn was_in_store(prev: Option<DeviceStateSpec>) -> bool {
    prev matches Some(p) && p.store_id is Some
}

/// One step of the enter / exit / department-change state machine of a device, given its
/// previous state and the venue and department it is found in now:
/// - outside before, in a venue now: `device.entered_store`, and the entry time is now;
/// - in a venue before, in none now: the count of consecutive outside readings grows and
///   the venue is kept, until the third such reading, which emits `device.exited_store`
///   with the dwell time and clears venue, department, entry time and count;
/// - in a venue before and now: `device.entered_department` when the department found now
///   differs from the previous one;
/// - otherwise no event.
pub open spec fn device_step(
    prev: Option<DeviceStateSpec>,
    store: Option<Seq<char>>,
    dept: Option<Seq<char>>,
    device_id: Seq<char>,
    ts: Seq<char>,
) -> (Seq<EventSpec>, DeviceStateSpec) {
    let was_in = was_in_store(prev);
    let is_in = store is Some;
    let prev_store = match prev { Some(p) => p.store_id, None => None };
    let prev_dept = match prev { Some(p) => p.department, None => None };
    let prev_entered = match prev { Some(p) => p.entered_at, None => None };
    let base = DeviceStateSpec {
        device_id,
        store_id: store,
        department: dept,
        last_seen: ts,
        consecutive_outside: 0,
        entered_at: prev_entered,
    };
    if !was_in && is_in {
        (
            seq![EventSpec { event_type: entered_store_type(), store_id: store.unwrap(), department: None, previous_department: None, dwell_seconds: None, timestamp: ts }],
            DeviceStateSpec { entered_at: Some(ts), ..base },
        )
    } else if was_in && !is_in {
        let consecutive = prev.unwrap().consecutive_outside + 1;
        if consecutive >= 3 {
            (
                seq![EventSpec { event_type: exited_store_type(), store_id: prev_store.unwrap(), department: None, previous_department: None, dwell_seconds: dwell_spec(prev_entered, ts), timestamp: ts }],
                DeviceStateSpec { store_id: None, department: None, entered_at: None, consecutive_outside: 0, ..base },
            )
        } else {
            (
                Seq::empty(),
                DeviceStateSpec { consecutive_outside: consecutive as u32, store_id: prev_store, department: prev_dept, ..base },
            )
        }
    } else if was_in && is_in {
        match dept {
            Some(d) => if prev_dept != Some(d) {
                (
                    seq![EventSpec { event_type: entered_department_type(), store_id: store.unwrap(), department: Some(d), previous_department: prev_dept, dwell_seconds: None, timestamp: ts }],
                    base,
                )
            } else {
                (Seq::empty(), base)
            },
            None => (Seq::empty(), base),
        }
    } else {
        (Seq::empty(), base)
    }
}

/// What `detect_events` needs to stay within machine integers: a further outside reading
/// must be countable, and the dwell time of an exit computable.
pub open spec fn step_defined(prev: Option<DeviceStateSpec>, store: Option<Seq<char>>, ts: Seq<char>) -> bool {
    was_in_store(prev) && store is None ==> {
        &&& prev.unwrap().consecutive_outside < u32::MAX
        &&& prev.unwrap().consecutive_outside + 1 >= 3 ==> dwell_defined(prev.unwrap().entered_at, ts)
    }
}

pub open spec fn state_views(s: Option<&DeviceState>) -> Option<DeviceStateSpec> {
    match s {
        Some(d) => Some(d.state_view()),
        None => None,
    }
}

/// The id of the first venue among the objects.
pub fn find_first_store(objs: &Vec<ZoneObject>) -> (r: Option<&String>)
    ensures
        r.deep_view() == first_store(zone_views(objs@)),
{
    let mut i: usize = 0;
    proof {
        assert(zone_views(objs@).skip(0) =~= zone_views(objs@));
        reveal_strlit("store");
        assert("store"@ =~= store_type());
    }
    while i < objs.len()
        invariant
            i <= objs@.len(),
            "store"@ == store_type(),
            first_store(zone_views(objs@).skip(i as int)) == first_store(zone_views(objs@)),
        decreases objs@.len() - i,
    {
        let ghost rest = zone_views(objs@).skip(i as int);
        assert(rest[0] == objs@[i as int].zone_view());
        assert(rest.drop_first() =~= zone_views(objs@).skip(i + 1));
        if same_text(objs[i].obj_type.as_str(), "store") {
            return Some(&objs[i].id);
        }
        i += 1;
    }
    proof {
        assert(zone_views(objs@).skip(i as int).len() == 0);
    }
    None
}

/// The name of the first department among the objects: its department tag, else its id.
pub fn find_first_department(objs: &Vec<ZoneObject>) -> (r: Option<&String>)
    ensures
        r.deep_view() == first_department(zone_views(objs@)),
{
    let mut i: usize = 0;
    proof {
        assert(zone_views(objs@).skip(0) =~= zone_views(objs@));
        reveal_strlit("department");
        assert("department"@ =~= department_type());
    }
    while i < objs.len()
        invariant
            i <= objs@.len(),
            "department"@ == department_type(),
            first_department(zone_views(objs@).skip(i as int)) == first_department(zone_views(objs@)),
        decreases objs@.len() - i,
    {
        let ghost rest = zone_views(objs@).skip(i as int);
        assert(rest[0] == objs@[i as int].zone_view());
        assert(rest.drop_first() =~= zone_views(objs@).skip(i + 1));
        if same_text(objs[i].obj_type.as_str(), "department") {
            return match &objs[i].department {
                Some(d) => Some(d),
                None => Some(&objs[i].id),
            };
        }
        i += 1;
    }
    proof {
        assert(zone_views(objs@).skip(i as int).len() == 0);
    }
    None
}

/// A copy of an optional string.
pub fn copy_opt(o: Option<&String>) -> (r: Option<String>)
    ensures
        r.deep_view() == o.deep_view(),
{
    match o {
        Some(s) => Some(owned(s.as_str())),
        None => None,
    }
}

/// A new event.
fn make_event(
    event_type: &str,
    store_id: &String,
    department: Option<String>,
    previous_department: Option<String>,
    dwell_seconds: Option<i64>,
    timestamp: &str,
) -> (e: Event)
    ensures
        e.event_type@ == event_type@,
        e.store_id@ == store_id@,
        e.department == department,
        e.previous_department == previous_department,
        e.dwell_seconds == dwell_seconds,
        e.timestamp@ == timestamp@,
{
    Event {
        event_type: owned(event_type),
        store_id: owned(store_id.as_str()),
        department,
        previous_department,
        dwell_seconds,
        timestamp: owned(timestamp),
    }
}

/// Compares the device's previous state with the objects found around it now (the
/// venue is the first `store` object, the department the first `department` object) and
/// returns the events this reading causes, at most one, with the device's new state
/// (see `device_step`).
pub fn detect_events(
    previous_state: Option<&DeviceState>,
    current_objects: &Vec<ZoneObject>,
    device_id: &str,
    timestamp: &str,
) -> (r: (Vec<Event>, DeviceState))
    requires
        step_defined(state_views(previous_state), first_store(zone_views(current_objects@)), timestamp@),
    ensures
        (event_views(r.0@), r.1.state_view()) == device_step(
            state_views(previous_state),
            first_store(zone_views(current_objects@)),
            first_department(zone_views(current_objects@)),
            device_id@,
            timestamp@,
        ),
        r.0@.len() <= 1,
{
    let current_store = find_first_store(current_objects);
    let current_dept = find_first_department(current_objects);
    let was_in_store = match previous_state {
        Some(s) => s.store_id.is_some(),
        None => false,
    };
    let is_in_store = current_store.is_some();
    let prev_store: Option<&String> = match previous_state {
        Some(s) => s.store_id.as_ref(),
        None => None,
    };
    let prev_dept: Option<&String> = match previous_state {
        Some(s) => s.department.as_ref(),
        None => None,
    };
    let prev_entered: Option<&String> = match previous_state {
        Some(s) => s.entered_at.as_ref(),
        None => None,
    };
    let ghost spec = device_step(
        state_views(previous_state),
        first_store(zone_views(current_objects@)),
        first_department(zone_views(current_objects@)),
        device_id@,
        timestamp@,
    );
    let mut events: Vec<Event> = Vec::new();
    let mut new_state = DeviceState {
        device_id: owned(device_id),
        store_id: copy_opt(current_store),
        department: copy_opt(current_dept),
        last_seen: owned(timestamp),
        consecutive_outside: 0,
        entered_at: copy_opt(prev_entered),
    };
    proof {
        reveal_strlit("device.entered_store");
        reveal_strlit("device.exited_store");
        reveal_strlit("device.entered_department");
    }
    if !was_in_store && is_in_store {
        let s = current_store.unwrap();
        events.push(make_event("device.entered_store", s, None, None, None, timestamp));
        new_state.entered_at = Some(owned(timestamp));
        assert(event_views(events@) =~= spec.0);
    } else if was_in_store && !is_in_store {
        let prev = previous_state.unwrap();
        let consecutive = prev.consecutive_outside + 1;
        new_state.consecutive_outside = consecutive;
        new_state.store_id = copy_opt(prev_store);
        new_state.department = copy_opt(prev_dept);
        new_state.entered_at = copy_opt(prev_entered);
        if consecutive >= 3 {
            let entered: Option<&str> = match prev_entered {
                Some(e) => Some(e.as_str()),
                None => None,
            };
            let dwell = compute_dwell_seconds(entered, timestamp);
            let ps = prev_store.unwrap();
            events.push(make_event("device.exited_store", ps, None, None, dwell, timestamp));
            new_state.store_id = None;
            new_state.department = None;
            new_state.entered_at = None;
            new_state.consecutive_outside = 0;
            assert(event_views(events@) =~= spec.0);
        } else {
            assert(event_views(events@) =~= spec.0);
        }
    } else if was_in_store && is_in_store {
        new_state.entered_at = copy_opt(prev_entered);
        match current_dept {
            Some(d) => {
                let same = match prev_dept {
                    Some(p) => same_text(p.as_str(), d.as_str()),
                    None => false,
                };
                if !same {
                    let s = current_store.unwrap();
                    events.push(make_event("device.entered_department", s, Some(owned(d.as_str())), copy_opt(prev_dept), None, timestamp));
                    assert(event_views(events@) =~= spec.0);
                } else {
                    assert(event_views(events@) =~= spec.0);
                }
            },
            None => {
                assert(event_views(events@) =~= spec.0);
            },
        }
    } else {
        assert(event_views(events@) =~= spec.0);
    }
    (events, new_state)
}


/// Exit hysteresis: from a state inside a venue with no outside reading counted, the
/// first two readings outside any venue emit nothing and keep the venue; the third emits
/// one `device.exited_store` event for that venue and leaves the device outside, with no
/// department, no entry time and the count reset.
pub proof fn lemma_exit_after_three_outside_readings(
    s0: DeviceStateSpec,
    id: Seq<char>,
    d1: Option<Seq<char>>,
    d2: Option<Seq<char>>,
    d3: Option<Seq<char>>,
    t1: Seq<char>,
    t2: Seq<char>,
    t3: Seq<char>,
)
    requires
        s0.store_id is Some,
        s0.consecutive_outside == 0,
    ensures
        ({
            let r1 = device_step(Some(s0), None, d1, id, t1);
            let r2 = device_step(Some(r1.1), None, d2, id, t2);
            let r3 = device_step(Some(r2.1), None, d3, id, t3);
            &&& r1.0.len() == 0 && r1.1.store_id == s0.store_id && r1.1.consecutive_outside == 1
            &&& r2.0.len() == 0 && r2.1.store_id == s0.store_id && r2.1.consecutive_outside == 2
            &&& r3.0.len() == 1 && r3.0[0].event_type == exited_store_type()
            &&& r3.0[0].store_id == s0.store_id.unwrap()
            &&& r3.1.store_id is None && r3.1.department is None && r3.1.entered_at is None
            &&& r3.1.consecutive_outside == 0
        }),
{
}

/// A reading outside any venue after fewer than two counted outside readings never emits
/// an exit: the device keeps its venue, department and entry time.
pub proof fn lemma_no_exit_before_third_outside_reading(
    s: DeviceStateSpec,
    dept: Option<Seq<char>>,
    id: Seq<char>,
    ts: Seq<char>,
)
    requires
        s.store_id is Some,
        s.consecutive_outside < 2,
    ensures
        ({
            let r = device_step(Some(s), None, dept, id, ts);
            &&& r.0.len() == 0
            &&& r.1.store_id == s.store_id
            &&& r.1.department == s.department
            &&& r.1.entered_at == s.entered_at
            &&& r.1.consecutive_outside == s.consecutive_outside + 1
        }),
{
}

/// A reading inside a venue resets the outside count and records that venue; coming
/// from outside it emits one `device.entered_store` event and sets the entry time.
pub proof fn lemma_reading_inside(
    prev: Option<DeviceStateSpec>,
    store: Seq<char>,
    dept: Option<Seq<char>>,
    id: Seq<char>,
    ts: Seq<char>,
)
    ensures
        ({
            let r = device_step(prev, Some(store), dept, id, ts);
            &&& r.1.consecutive_outside == 0
            &&& r.1.store_id == Some(store)
            &&& r.1.department == dept
            &&& !was_in_store(prev) ==> r.0 == seq![EventSpec { event_type: entered_store_type(), store_id: store, department: None, previous_department: None, dwell_seconds: None, timestamp: ts }]
                && r.1.entered_at == Some(ts)
        }),
{
}

/// Every reading emits at most one event, and the new state belongs to the device read.
pub proof fn lemma_at_most_one_event(
    prev: Option<DeviceStateSpec>,
    store: Option<Seq<char>>,
    dept: Option<Seq<char>>,
    id: Seq<char>,
    ts: Seq<char>,
)
    ensures
        device_step(prev, store, dept, id, ts).0.len() <= 1,
        device_step(prev, store, dept, id, ts).1.device_id == id,
        device_step(prev, store, dept, id, ts).1.last_seen == ts,
{
}

/// A device state as event detection leaves it: at most two readings outside counted,
/// readings outside counted only while in a venue, and an entry time exactly while in a
/// venue.
pub open spec fn state_consistent(s: DeviceStateSpec) -> bool {
    &&& s.consecutive_outside <= 2
    &&& s.consecutive_outside > 0 ==> s.store_id is Some
    &&& (s.store_id is Some <==> s.entered_at is Some)
}

/// Event detection keeps a device state consistent; after an exit event the device is in
/// no venue, and after an entry event its entry time is the time of the reading.
pub proof fn lemma_step_keeps_state_consistent(
    prev: Option<DeviceStateSpec>,
    store: Option<Seq<char>>,
    dept: Option<Seq<char>>,
    id: Seq<char>,
    ts: Seq<char>,
)
    requires
        prev matches Some(p) ==> state_consistent(p),
    ensures
        ({
            let (events, next) = device_step(prev, store, dept, id, ts);
            &&& state_consistent(next)
            &&& events.len() > 0 && events[0].event_type == exited_store_type() ==> next.store_id is None
            &&& events.len() > 0 && events[0].event_type == entered_store_type() ==> next.entered_at == Some(ts)
        }),
{
    reveal_strlit("device.entered_store");
    reveal_strlit("device.exited_store");
    reveal_strlit("device.entered_department");
    assert(exited_store_type().len() != entered_store_type().len());
    assert(entered_department_type().len() != entered_store_type().len());
    assert(entered_department_type().len() != exited_store_type().len());
}

/// Moving inside a venue: when the device was in a venue and is in one now, a
/// department found now that differs from the previous one (including when there was
/// none) emits exactly one `device.entered_department` event for it, naming the previous
/// department; the same department, or none found, emits nothing.  Either way the device
/// is now in the venue and the department found.
pub proof fn lemma_department_change_event(
    prev: DeviceStateSpec,
    store: Seq<char>,
    dept: Option<Seq<char>>,
    id: Seq<char>,
    ts: Seq<char>,
)
    requires
        prev.store_id is Some,
    ensures
        ({
            let (events, next) = device_step(Some(prev), Some(store), dept, id, ts);
            &&& dept matches Some(d) ==> prev.department != Some(d) ==> events == seq![
                EventSpec {
                    event_type: "device.entered_department"@,
                    store_id: store,
                    department: Some(d),
                    previous_department: prev.department,
                    dwell_seconds: None,
                    timestamp: ts,
                },
            ]
            &&& (dept is None || prev.department == dept) ==> events.len() == 0
            &&& next.store_id == Some(store)
            &&& next.department == dept
            &&& next.consecutive_outside == 0
            &&& next.entered_at == prev.entered_at
        }),
{
}

} // verus!
