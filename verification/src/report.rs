//! Execution report pieces: step records, RFC 3339 timestamps, backend and model names.

use vstd::prelude::*;

use crate::collections::NameMap;
use crate::schema::{
    capability_name, opt_string, option_text, ArgValue, Capability, ResolvedStep,
};
use crate::text::{clone_opt, concat, decimal, owned, u64_to_decimal};

verus! {

pub const REPORT_VERSION: u32 = 1;

/// Outcome of a whole run.
#[derive(Debug, Clone, Copy, PartialEq, Eq)]
pub enum JobReportStatus {
    Completed,
    Failed,
}

/// Outcome of one leaf.
#[derive(Debug, Clone, Copy, PartialEq, Eq)]
pub enum StepReportStatus {
    Completed,
    Skipped,
    Failed,
}

/// A file a leaf read or wrote, with its size when known.
#[derive(Debug, Clone, PartialEq, Eq)]
pub struct ArtifactStat {
    pub path: String,
    pub bytes: Option<u64>,
}

/// A named phase of a leaf and its duration.
#[derive(Debug, Clone, PartialEq, Eq)]
pub struct PhaseReport {
    pub name: String,
    pub duration_ms: u64,
}

/// The record of one leaf in an execution report.
#[derive(Debug, Clone, PartialEq, Eq)]
pub struct StepReport {
    pub id: String,
    pub capability: String,
    pub name: Option<String>,
    pub status: StepReportStatus,
    pub queued_at: String,
    pub started_at: String,
    pub finished_at: String,
    pub duration_ms: u64,
    pub backend: Option<String>,
    pub model: Option<String>,
    pub phases: Vec<PhaseReport>,
    pub inputs: Vec<ArtifactStat>,
    pub outputs: Vec<ArtifactStat>,
}

/// `s` left-padded with zeros to `width` characters.
pub open spec fn zero_pad(s: Seq<char>, width: nat) -> Seq<char> {
    if s.len() >= width {
        s
    } else {
        Seq::new((width - s.len()) as nat, |i: int| '0') + s
    }
}

/// `v` as `{:0width$}` formats it: a minus sign, then the digits zero-padded to fill.
pub open spec fn padded_int(v: int, width: nat) -> Seq<char> {
    if v < 0 {
        seq!['-'] + zero_pad(decimal((-v) as nat), if width >= 1 {
            (width - 1) as nat
        } else {
            0
        })
    } else {
        zero_pad(decimal(v as nat), width)
    }
}

fn pad_zeros(s: String, width: usize) -> (r: String)
    ensures
        r@ == zero_pad(s@, width as nat),
{
    let v = crate::text::chars_of(s.as_str());
    if v.len() >= width {
        return s;
    }
    let mut out: Vec<char> = Vec::new();
    let fill = width - v.len();
    let mut i: usize = 0;
    while i < fill
        invariant
            i <= fill,
            out@ =~= Seq::new(i as nat, |j: int| '0'),
        decreases fill - i,
    {
        out.push('0');
        i = i + 1;
    }
    let mut j: usize = 0;
    let ghost zeros = out@;
    while j < v.len()
        invariant
            j <= v@.len(),
            out@ =~= zeros + v@.subrange(0, j as int),
        decreases v@.len() - j,
    {
        out.push(v[j]);
        j = j + 1;
    }
    assert(v@.subrange(0, v@.len() as int) =~= v@);
    crate::text::string_of(&out)
}

fn padded_i64(v: i64, width: usize) -> (r: String)
    requires
        v > i64::MIN,
    ensures
        r@ == padded_int(v as int, width as nat),
{
    proof {
        reveal_strlit("-");
    }
    if v < 0 {
        let digits = u64_to_decimal((-v) as u64);
        let w = if width >= 1 {
            width - 1
        } else {
            0
        };
        concat("-", pad_zeros(digits, w).as_str())
    } else {
        pad_zeros(u64_to_decimal(v as u64), width)
    }
}

/// Calendar date and clock time of `secs` seconds after the Unix epoch (proleptic
/// Gregorian, UTC): `(year, month, day, hour, minute, second)`, the year as an `i32`,
/// by the era-based days-to-date conversion; `law_civil_round_trip` states what it gives.
pub open spec fn civil_of(secs: nat) -> (int, int, int, int, int, int) {
    let days: int = (secs / 86400) as int;
    let rem: nat = secs % 86400;
    let z: int = days + 719468;
    let era = z / 146097;
    let doe = z - era * 146097;
    let yoe = (doe - doe / 1460 + doe / 36524 - doe / 146096) / 365;
    let y = yoe + era * 400;
    let doy = doe - (365 * yoe + yoe / 4 - yoe / 100);
    let mp = (5 * doy + 2) / 153;
    let d = doy - (153 * mp + 2) / 5 + 1;
    let m = if mp < 10 {
        mp + 3
    } else {
        mp - 9
    };
    let y32 = (y as i32) as int;
    let year = if m <= 2 {
        if y32 == i32::MAX {
            i32::MIN as int
        } else {
            y32 + 1
        }
    } else {
        y32
    };
    (year, m, d, (rem / 3600) as int, ((rem % 3600) / 60) as int, (rem % 60) as int)
}

/// The RFC 3339 text (UTC, milliseconds) of `secs` seconds and `millis` milliseconds
/// after the Unix epoch.
pub open spec fn rfc3339_text(secs: nat, millis: nat) -> Seq<char> {
    let (y, mo, d, h, mi, s) = civil_of(secs);
    padded_int(y, 4) + "-"@ + padded_int(mo, 2) + "-"@ + padded_int(d, 2) + "T"@ + padded_int(
        h,
        2,
    ) + ":"@ + padded_int(mi, 2) + ":"@ + padded_int(s, 2) + "."@ + padded_int(millis as int, 3)
        + "Z"@
}

/// Days from March 1 of a year `0` (mod 400) to March 1 of `t` years later.
pub open spec fn era_days(t: int) -> int {
    365 * t + t / 4 - t / 100 + t / 400
}

/// `x / d` and `x % d` as quotient and remainder.
proof fn lemma_qr(x: int, d: int)
    requires
        d > 0,
    ensures
        x == d * (x / d) + x % d,
        0 <= x % d < d,
{
    vstd::arithmetic::div_mod::lemma_fundamental_div_mod(x, d);
    vstd::arithmetic::div_mod::lemma_mod_bound(x, d);
}

proof fn lemma_div_is(x: int, d: int, q: int)
    requires
        d > 0,
        d * q <= x < d * q + d,
    ensures
        x / d == q,
{
    assert(d * q == q * d) by (nonlinear_arith);
    vstd::arithmetic::div_mod::lemma_fundamental_div_mod_converse(x, d, q, x - d * q);
}

proof fn lemma_year_of_era(doe: int)
    requires
        0 <= doe < 146097,
    ensures
        0 <= (doe - doe / 1460 + doe / 36524 - doe / 146096) / 365 <= 399,
        era_days((doe - doe / 1460 + doe / 36524 - doe / 146096) / 365) <= doe,
        doe < era_days((doe - doe / 1460 + doe / 36524 - doe / 146096) / 365 + 1),
{
    if doe == 146096 {
        lemma_div_is(doe, 1460, 100);
        lemma_div_is(doe, 36524, 4);
        lemma_div_is(doe, 146096, 1);
        lemma_div_is(145999, 365, 399);
        lemma_div_is(399, 4, 99);
        lemma_div_is(399, 100, 3);
        lemma_div_is(399, 400, 0);
        lemma_div_is(400, 4, 100);
        lemma_div_is(400, 100, 4);
        lemma_div_is(400, 400, 1);
    } else {
        lemma_qr(doe, 36524);
        let b = doe / 36524;
        let rb = doe - 36524 * b;
        assert(0 <= b <= 3);
        lemma_div_is(doe, 146096, 0);
        lemma_qr(rb, 1461);
        let q = rb / 1461;
        let s = rb - 1461 * q;
        assert(0 <= q <= 24);
        assert(q == 24 ==> s <= 1459);
        let t = 24 * b + q + s;
        let e: int = if t >= 1460 { 1 } else { 0 };
        lemma_div_is(doe, 1460, 25 * b + q + e);
        assert(0 <= s - e <= 1459);
        let w = (s - e) / 365;
        lemma_qr(s - e, 365);
        assert(0 <= w <= 3);
        let yoe = 100 * b + 4 * q + w;
        lemma_div_is(doe - doe / 1460 + doe / 36524 - doe / 146096, 365, yoe);
        lemma_div_is(yoe, 4, 25 * b + q);
        lemma_div_is(yoe, 100, b);
        lemma_div_is(yoe, 400, 0);
        assert(era_days(yoe) == 36524 * b + 1461 * q + 365 * w);
        let y1 = yoe + 1;
        if w < 3 {
            lemma_div_is(y1, 4, 25 * b + q);
            lemma_div_is(y1, 100, b);
            lemma_div_is(y1, 400, 0);
        } else if q < 24 {
            lemma_div_is(y1, 4, 25 * b + q + 1);
            lemma_div_is(y1, 100, b);
            lemma_div_is(y1, 400, 0);
        } else if b < 3 {
            lemma_div_is(y1, 4, 25 * b + q + 1);
            lemma_div_is(y1, 100, b + 1);
            lemma_div_is(y1, 400, 0);
        } else {
            lemma_div_is(y1, 4, 100);
            lemma_div_is(y1, 100, 4);
            lemma_div_is(y1, 400, 1);
        }
    }
}


/// A leap year of the proleptic Gregorian calendar.
pub open spec fn is_leap(y: int) -> bool {
    y % 4 == 0 && (y % 100 != 0 || y % 400 == 0)
}

/// Leap years among `1..y` (counted back through year 0 for smaller `y`).
pub open spec fn leaps_before(y: int) -> int {
    (y - 1) / 4 - (y - 1) / 100 + (y - 1) / 400
}

/// Days of the month that begins `mp` months after March (31 for March, ..., February).
pub open spec fn march_month_len(mp: int, leap: bool) -> int {
    if mp == 11 {
        if leap { 29 } else { 28 }
    } else if mp == 1 || mp == 3 || mp == 6 || mp == 8 {
        30
    } else {
        31
    }
}

/// Days from March 1 to the first of the month `mp` months later.
pub open spec fn march_month_start(mp: int) -> int {
    if mp == 0 { 0 } else if mp == 1 { 31 } else if mp == 2 { 61 } else if mp == 3 { 92 }
    else if mp == 4 { 122 } else if mp == 5 { 153 } else if mp == 6 { 184 } else if mp == 7 { 214 }
    else if mp == 8 { 245 } else if mp == 9 { 275 } else if mp == 10 { 306 } else { 337 }
}

proof fn lemma_month_of_doy(doy: int, leap: bool)
    requires
        0 <= doy < 365 + (if leap { 1int } else { 0int }),
    ensures
        0 <= (5 * doy + 2) / 153 <= 11,
        (153 * ((5 * doy + 2) / 153) + 2) / 5 == march_month_start((5 * doy + 2) / 153),
        1 <= doy - march_month_start((5 * doy + 2) / 153) + 1 <= march_month_len((5 * doy + 2) / 153, leap),
{
    lemma_qr(5 * doy + 2, 153);
    let mp = (5 * doy + 2) / 153;
    assert(0 <= mp <= 11);
    if mp == 0 { lemma_div_is(2, 5, 0); }
    else if mp == 1 { lemma_div_is(155, 5, 31); }
    else if mp == 2 { lemma_div_is(308, 5, 61); }
    else if mp == 3 { lemma_div_is(461, 5, 92); }
    else if mp == 4 { lemma_div_is(614, 5, 122); }
    else if mp == 5 { lemma_div_is(767, 5, 153); }
    else if mp == 6 { lemma_div_is(920, 5, 184); }
    else if mp == 7 { lemma_div_is(1073, 5, 214); }
    else if mp == 8 { lemma_div_is(1226, 5, 245); }
    else if mp == 9 { lemma_div_is(1379, 5, 275); }
    else if mp == 10 { lemma_div_is(1532, 5, 306); }
    else { lemma_div_is(1685, 5, 337); }
}

/// `t / m` steps up by one exactly at the multiples of `m`.
proof fn lemma_div_step(t: int, m: int)
    requires
        m > 0,
    ensures
        t / m - (t - 1) / m == (if t % m == 0 { 1int } else { 0int }),
{
    lemma_qr(t, m);
    let q = t / m;
    if t % m == 0 {
        assert(m * (q - 1) == m * q - m) by (nonlinear_arith);
        lemma_div_is(t - 1, m, q - 1);
    } else {
        lemma_div_is(t - 1, m, q);
    }
}

/// Going from year `t` to `t + 1` adds one leap year exactly when `t` is one.
proof fn lemma_leaps_step(t: int)
    ensures
        leaps_before(t + 1) == leaps_before(t) + (if is_leap(t) { 1int } else { 0int }),
{
    lemma_div_step(t, 4);
    lemma_div_step(t, 100);
    lemma_div_step(t, 400);
    lemma_qr(t, 4);
    lemma_qr(t, 100);
    lemma_qr(t, 400);
    if t % 100 == 0 {
        lemma_div_is(t, 4, 25 * (t / 100));
        lemma_qr(t, 4);
    }
    if t % 400 == 0 {
        lemma_div_is(t, 100, 4 * (t / 400));
        lemma_div_is(t, 4, 100 * (t / 400));
    }
}

/// Whole eras of 400 years shift the count by 97 leap years and keep leap years.
proof fn lemma_era_shift(era: int, t: int)
    requires
        era >= 0,
    ensures
        leaps_before(400 * era + t) == 97 * era + leaps_before(t),
        is_leap(400 * era + t) == is_leap(t),
{
    let x = t - 1;
    lemma_qr(x, 4);
    lemma_qr(x, 100);
    lemma_qr(x, 400);
    lemma_div_is(400 * era + x, 4, 100 * era + x / 4);
    lemma_div_is(400 * era + x, 100, 4 * era + x / 100);
    lemma_div_is(400 * era + x, 400, era + x / 400);
    lemma_qr(t, 4);
    lemma_qr(t, 100);
    lemma_qr(t, 400);
    lemma_div_is(400 * era + t, 4, 100 * era + t / 4);
    lemma_div_is(400 * era + t, 100, 4 * era + t / 100);
    lemma_div_is(400 * era + t, 400, era + t / 400);
    lemma_qr(400 * era + t, 4);
    lemma_qr(400 * era + t, 100);
    lemma_qr(400 * era + t, 400);
}


/// Days in month `m` (1 to 12) of year `y`.
pub open spec fn days_in_month(y: int, m: int) -> int {
    if m == 2 {
        if is_leap(y) { 29 } else { 28 }
    } else if m == 4 || m == 6 || m == 9 || m == 11 {
        30
    } else {
        31
    }
}

/// Days of year `y` before the first of month `m` (1 to 12).
pub open spec fn days_before_month(y: int, m: int) -> int {
    (if m == 1 { 0int } else if m == 2 { 31 } else if m == 3 { 59 } else if m == 4 { 90 }
    else if m == 5 { 120 } else if m == 6 { 151 } else if m == 7 { 181 } else if m == 8 { 212 }
    else if m == 9 { 243 } else if m == 10 { 273 } else if m == 11 { 304 } else { 334 })
        + (if m > 2 && is_leap(y) { 1int } else { 0int })
}

/// Days from 1970-01-01 to the date `y-m-d` of the proleptic Gregorian calendar.
pub open spec fn days_from_civil(y: int, m: int, d: int) -> int {
    365 * (y - 1970) + leaps_before(y) - leaps_before(1970) + days_before_month(y, m) + d - 1
}

/// The date `civil_of` reads off day `doe` of 400-year era `era` (counted from
/// 0000-03-01): a real date, `146097 * era + doe - 719468` days after the epoch.
proof fn lemma_date_parts(era: int, doe: int)
    requires
        0 <= era,
        0 <= doe < 146097,
    ensures
        ({
            let yoe = (doe - doe / 1460 + doe / 36524 - doe / 146096) / 365;
            let doy = doe - (365 * yoe + yoe / 4 - yoe / 100);
            let mp = (5 * doy + 2) / 153;
            let d = doy - (153 * mp + 2) / 5 + 1;
            let m = if mp < 10 { mp + 3 } else { mp - 9 };
            let y = yoe + era * 400;
            let year = if m <= 2 { y + 1 } else { y };
            &&& 0 <= yoe <= 399
            &&& 1 <= m <= 12
            &&& 1 <= d <= days_in_month(year, m)
            &&& days_from_civil(year, m, d) == 146097 * era + doe - 719468
        }),
{
    lemma_year_of_era(doe);
    let yoe = (doe - doe / 1460 + doe / 36524 - doe / 146096) / 365;
    lemma_div_is(yoe, 400, 0);
    let doy = doe - (365 * yoe + yoe / 4 - yoe / 100);
    assert(doy == doe - era_days(yoe));
    lemma_leaps_step(yoe + 1);
    lemma_month_of_doy(doy, is_leap(yoe + 1));
    let mp = (5 * doy + 2) / 153;
    let d = doy - (153 * mp + 2) / 5 + 1;
    let m = if mp < 10 { mp + 3 } else { mp - 9 };
    let y = yoe + era * 400;
    if m <= 2 {
        lemma_era_shift(era, yoe + 1);
        assert(400 * era + yoe + 1 == y + 1);
        assert(days_from_civil(y + 1, m, d) == 146097 * era + doe - 719468);
    } else {
        lemma_era_shift(era, yoe);
        lemma_leaps_step(yoe);
        assert(400 * era + yoe == y);
        assert(days_from_civil(y, m, d) == 146097 * era + doe - 719468);
    }
}

/// The time of day `civil_of` reads off `rem` seconds counts back to them.
proof fn lemma_time_parts(rem: int)
    requires
        0 <= rem < 86400,
    ensures
        0 <= rem / 3600 < 24,
        0 <= (rem % 3600) / 60 < 60,
        0 <= rem % 60 < 60,
        (rem / 3600) * 3600 + ((rem % 3600) / 60) * 60 + rem % 60 == rem,
{
    lemma_qr(rem, 3600);
    lemma_qr(rem % 3600, 60);
    lemma_div_is(rem, 60, 60 * (rem / 3600) + (rem % 3600) / 60);
    lemma_qr(rem, 60);
}

/// The calendar date and clock time `civil_of` gives for `secs` name a real day and time,
/// and they count back to `secs`: the month is 1 to 12, the day within the month's
/// length, the clock fields within a day, and the date's days since the epoch times a
/// day's seconds plus the time of day is `secs` (for years that fit an `i32`; the bound
/// keeps them below two billion).
pub proof fn law_civil_round_trip(secs: nat)
    requires
        secs < 63113904000000000,
    ensures
        ({
            let (y, m, d, h, mi, s) = civil_of(secs);
            &&& 1 <= m <= 12
            &&& 1 <= d <= days_in_month(y, m)
            &&& 0 <= h < 24
            &&& 0 <= mi < 60
            &&& 0 <= s < 60
            &&& days_from_civil(y, m, d) * 86400 + h * 3600 + mi * 60 + s == secs
        }),
{
    lemma_qr(secs as int, 86400);
    let days: int = (secs / 86400) as int;
    let rem: int = (secs % 86400) as int;
    let z = days + 719468;
    lemma_qr(z, 146097);
    let era = z / 146097;
    let doe = z - era * 146097;
    assert(0 <= era <= 5000004);
    lemma_date_parts(era, doe);
    lemma_time_parts(rem);
    let yoe = (doe - doe / 1460 + doe / 36524 - doe / 146096) / 365;
    let y = yoe + era * 400;
    assert(0 <= y < 2147483646);
    assert((y as i32) as int == y);
}

#[verifier::nonlinear]
fn civil_from_unix(secs: u64) -> (r: (i32, u32, u32, u32, u32, u32))
    ensures
        (r.0 as int, r.1 as int, r.2 as int, r.3 as int, r.4 as int, r.5 as int) == civil_of(
            secs as nat,
        ),
{
    let days: u64 = secs / 86400;
    let rem: u64 = secs % 86400;
    let h: u32 = (rem / 3600) as u32;
    let mi: u32 = ((rem % 3600) / 60) as u32;
    let s: u32 = (rem % 60) as u32;
    let z: u64 = days + 719468;
    let era: u64 = z / 146097;
    let doe: u64 = z - era * 146097;
    assert(doe < 146097);
    let yoe: u64 = (doe - doe / 1460 + doe / 36524 - doe / 146096) / 365;
    assert(yoe <= 400);
    let y: i64 = yoe as i64 + (era as i64) * 400;
    let doy: u64 = doe - (365 * yoe + yoe / 4 - yoe / 100);
    let mp: u64 = (5 * doy + 2) / 153;
    let d: u32 = (doy - (153 * mp + 2) / 5 + 1) as u32;
    let m: u32 = if mp < 10 {
        (mp + 3) as u32
    } else {
        (mp - 9) as u32
    };
    proof {
        let sd: int = (secs / 86400) as int;
        assert(days as int == sd);
        assert(z as int == sd + 719468);
        assert(era as int == (sd + 719468) / 146097);
        assert(doe as int == (sd + 719468) - ((sd + 719468) / 146097) * 146097);
        assert(y as int == yoe as int + era as int * 400);
    }
    let y32: i32 = y as i32;
    let year: i32 = if m <= 2 {
        y32.wrapping_add(1)
    } else {
        y32
    };
    (year, m, d, h, mi, s)
}

/// RFC 3339 text of a time given as seconds and milliseconds after the Unix epoch.
pub fn format_rfc3339_parts(secs: u64, millis: u32) -> (r: String)
    ensures
        r@ == rfc3339_text(secs as nat, millis as nat),
{
    let (y, mo, d, h, mi, s) = civil_from_unix(secs);
    let mut out = padded_i64(y as i64, 4);
    out = concat(out.as_str(), "-");
    out = concat(out.as_str(), padded_i64(mo as i64, 2).as_str());
    out = concat(out.as_str(), "-");
    out = concat(out.as_str(), padded_i64(d as i64, 2).as_str());
    out = concat(out.as_str(), "T");
    out = concat(out.as_str(), padded_i64(h as i64, 2).as_str());
    out = concat(out.as_str(), ":");
    out = concat(out.as_str(), padded_i64(mi as i64, 2).as_str());
    out = concat(out.as_str(), ":");
    out = concat(out.as_str(), padded_i64(s as i64, 2).as_str());
    out = concat(out.as_str(), ".");
    out = concat(out.as_str(), padded_i64(millis as i64, 3).as_str());
    concat(out.as_str(), "Z")
}

/// `std::time::SystemTime`, made known to the verifier as an opaque type so that a clock
/// reading can be carried into `since_epoch`; nothing inside it is visible here.
#[verifier::external_type_specification]
#[verifier::external_body]
pub struct ExSystemTime(std::time::SystemTime);

/// How long after the Unix epoch `t` lies, or `None` for a time before it.
pub uninterp spec fn duration_since_epoch(t: std::time::SystemTime) -> Option<std::time::Duration>;

/// The whole seconds of `d`.
pub uninterp spec fn duration_secs(d: std::time::Duration) -> u64;

/// The fractional second of `d` in whole milliseconds.
pub uninterp spec fn duration_subsec_millis(d: std::time::Duration) -> u32;

/// `SystemTime::duration_since(UNIX_EPOCH)`, as an `Option`: `None` for a time before the
/// epoch. The result depends on `t` alone and is named `duration_since_epoch`.
#[verifier::external_body]
fn since_epoch(t: std::time::SystemTime) -> (r: Option<std::time::Duration>)
    ensures
        r == duration_since_epoch(t),
{
    t.duration_since(std::time::UNIX_EPOCH).ok()
}

/// `Duration::as_secs`: the whole seconds of `d`, named `duration_secs`.
#[verifier::external_body]
fn whole_secs(d: &std::time::Duration) -> (r: u64)
    ensures
        r == duration_secs(*d),
{
    d.as_secs()
}

/// `Duration::subsec_millis`: the fractional second in whole milliseconds, named
/// `duration_subsec_millis`, which the documentation bounds below one second.
#[verifier::external_body]
fn subsec_millis(d: &std::time::Duration) -> (r: u32)
    ensures
        r == duration_subsec_millis(*d),
        r < 1000,
{
    d.subsec_millis()
}

/// Whole milliseconds of `secs` seconds and `millis` milliseconds, saturating at
/// `u64::MAX`.
pub open spec fn millis_total(secs: nat, millis: nat) -> nat {
    if secs * 1000 + millis > u64::MAX {
        u64::MAX as nat
    } else {
        secs * 1000 + millis
    }
}

pub fn millis_of(secs: u64, millis: u32) -> (r: u64)
    ensures
        r == millis_total(secs as nat, millis as nat),
{
    match secs.checked_mul(1000) {
        Some(x) => match x.checked_add(millis as u64) {
            Some(y) => y,
            None => u64::MAX,
        },
        None => {
            assert(secs * 1000 + millis > u64::MAX);
            u64::MAX
        },
    }
}

/// Whole milliseconds of `d`, saturating at `u64::MAX`.
pub fn duration_ms(d: std::time::Duration) -> (r: u64)
    ensures
        r == millis_total(duration_secs(d) as nat, duration_subsec_millis(d) as nat),
{
    let secs = whole_secs(&d);
    let millis = subsec_millis(&d);
    millis_of(secs, millis)
}

/// The RFC 3339 text of a time lying `since` after the epoch; `None`, a time before the
/// epoch, reads as the epoch.
pub open spec fn rfc3339_of(since: Option<std::time::Duration>) -> Seq<char> {
    match since {
        Some(d) => rfc3339_text(duration_secs(d) as nat, duration_subsec_millis(d) as nat),
        None => rfc3339_text(0, 0),
    }
}

/// RFC 3339 text (UTC, milliseconds) of `t`; a time before the epoch reads as the epoch.
pub fn format_rfc3339(t: std::time::SystemTime) -> (r: String)
    ensures
        r@ == rfc3339_of(duration_since_epoch(t)),
{
    match since_epoch(t) {
        Some(d) => {
            let secs = whole_secs(&d);
            let millis = subsec_millis(&d);
            format_rfc3339_parts(secs, millis)
        },
        None => format_rfc3339_parts(0, 0),
    }
}

/// The report id of a leaf: its id, else `{capability}-{index}`.
pub open spec fn step_id_text(s: ResolvedStep) -> Seq<char> {
    match s.id {
        Some(i) => i@,
        None => capability_name(s.capability) + "-"@ + decimal(s.index as nat),
    }
}

pub fn step_id(step: &ResolvedStep) -> (r: String)
    ensures
        r@ == step_id_text(*step),
{
    match &step.id {
        Some(i) => i.clone(),
        None => concat(
            concat(step.capability.as_str(), "-").as_str(),
            u64_to_decimal(step.index as u64).as_str(),
        ),
    }
}

/// The backend a leaf names: `engine`, else `provider`, else a `backend` string or the
/// `provider` of a `backend` map.
pub open spec fn backend_of(opts: NameMap<ArgValue>) -> Option<Seq<char>> {
    if option_text(opts, "engine"@) is Some {
        option_text(opts, "engine"@)
    } else if option_text(opts, "provider"@) is Some {
        option_text(opts, "provider"@)
    } else if opts@.contains_key("backend"@) {
        match opts@["backend"@] {
            ArgValue::String(s) => Some(s@),
            ArgValue::Mapping(m) => option_text(m, "provider"@),
            _ => None,
        }
    } else {
        None
    }
}

/// The model a leaf names: `model`, else the `model` of a `backend` map.
pub open spec fn model_of(opts: NameMap<ArgValue>) -> Option<Seq<char>> {
    if option_text(opts, "model"@) is Some {
        option_text(opts, "model"@)
    } else if opts@.contains_key("backend"@) && opts@["backend"@] is Mapping {
        option_text(opts@["backend"@]->Mapping_0, "model"@)
    } else {
        None
    }
}

pub open spec fn text_opt(o: Option<String>) -> Option<Seq<char>> {
    match o {
        Some(s) => Some(s@),
        None => None,
    }
}

pub fn backend_from_options(options: &NameMap<ArgValue>) -> (r: Option<String>)
    ensures
        text_opt(r) == backend_of(*options),
{
    if let Some(v) = opt_string(options, "engine") {
        return Some(v);
    }
    if let Some(v) = opt_string(options, "provider") {
        return Some(v);
    }
    match options.get("backend") {
        Some(ArgValue::String(s)) => Some(s.clone()),
        Some(ArgValue::Mapping(m)) => opt_string(m, "provider"),
        _ => None,
    }
}

pub fn model_from_options(options: &NameMap<ArgValue>) -> (r: Option<String>)
    ensures
        text_opt(r) == model_of(*options),
{
    if let Some(v) = opt_string(options, "model") {
        return Some(v);
    }
    if let Some(ArgValue::Mapping(m)) = options.get("backend") {
        return opt_string(m, "model");
    }
    None
}

/// `r` records leaf `step` with `status`: queued and started at `started`, finished at
/// `finished`, with its backend, model and the given artifacts.
pub open spec fn report_is(
    r: StepReport,
    step: ResolvedStep,
    status: StepReportStatus,
    started: Seq<char>,
    finished: Seq<char>,
    duration_ms: u64,
    inputs: Seq<ArtifactStat>,
    outputs: Seq<ArtifactStat>,
) -> bool {
    &&& r.id@ == step_id_text(step)
    &&& r.capability@ == capability_name(step.capability)
    &&& text_opt(r.name) == text_opt(step.name)
    &&& r.status == status
    &&& r.queued_at@ == started
    &&& r.started_at@ == started
    &&& r.finished_at@ == finished
    &&& r.duration_ms == duration_ms
    &&& text_opt(r.backend) == backend_of(step.options)
    &&& text_opt(r.model) == model_of(step.options)
    &&& r.phases@.len() == 0
    &&& r.inputs@ == inputs
    &&& r.outputs@ == outputs
}

/// The record of leaf `step` with `status`: queued and started at `started`, finished at
/// `finished`, with its backend and model.
pub fn make_step_report(
    step: &ResolvedStep,
    status: StepReportStatus,
    started: String,
    finished: String,
    duration_ms: u64,
    inputs: Vec<ArtifactStat>,
    outputs: Vec<ArtifactStat>,
) -> (r: StepReport)
    ensures
        report_is(r, *step, status, started@, finished@, duration_ms, inputs@, outputs@),
{
    StepReport {
        id: step_id(step),
        capability: owned(step.capability.as_str()),
        name: clone_opt(&step.name),
        status,
        queued_at: started.clone(),
        started_at: started,
        finished_at: finished,
        duration_ms,
        backend: backend_from_options(&step.options),
        model: model_from_options(&step.options),
        phases: Vec::new(),
        inputs,
        outputs,
    }
}

/// The longest leaf duration (0 for none): the critical path of a run.
pub open spec fn max_duration(steps: Seq<StepReport>) -> nat
    decreases steps.len(),
{
    if steps.len() == 0 {
        0
    } else if steps.last().duration_ms > max_duration(steps.drop_last()) {
        steps.last().duration_ms as nat
    } else {
        max_duration(steps.drop_last())
    }
}

/// The summed leaf durations: the work done in a run.
pub open spec fn sum_durations(steps: Seq<StepReport>) -> nat
    decreases steps.len(),
{
    if steps.len() == 0 {
        0
    } else {
        sum_durations(steps.drop_last()) + steps.last().duration_ms as nat
    }
}

/// The critical path of a run: its longest leaf.
pub fn critical_path_ms(steps: &Vec<StepReport>) -> (r: u64)
    ensures
        r == max_duration(steps@),
{
    let mut m: u64 = 0;
    let mut i: usize = 0;
    assert(steps@.subrange(0, 0) =~= Seq::<StepReport>::empty());
    while i < steps.len()
        invariant
            i <= steps@.len(),
            m == max_duration(steps@.subrange(0, i as int)),
        decreases steps@.len() - i,
    {
        proof {
            let s1 = steps@.subrange(0, i + 1);
            assert(s1.drop_last() =~= steps@.subrange(0, i as int));
        }
        if steps[i].duration_ms > m {
            m = steps[i].duration_ms;
        }
        i = i + 1;
    }
    assert(steps@.subrange(0, steps@.len() as int) =~= steps@);
    m
}

proof fn lemma_sum_prefix(steps: Seq<StepReport>, n: int)
    requires
        0 <= n <= steps.len(),
    ensures
        sum_durations(steps.subrange(0, n)) <= sum_durations(steps),
    decreases steps.len(),
{
    if n < steps.len() {
        assert(steps.drop_last().subrange(0, n) =~= steps.subrange(0, n));
        lemma_sum_prefix(steps.drop_last(), n);
    } else {
        assert(steps.subrange(0, n) =~= steps);
    }
}

/// The work done in a run: its leaves' durations summed.
pub fn work_sum_ms(steps: &Vec<StepReport>) -> (r: u64)
    requires
        sum_durations(steps@) <= u64::MAX,
    ensures
        r == sum_durations(steps@),
{
    let mut t: u64 = 0;
    let mut i: usize = 0;
    assert(steps@.subrange(0, 0) =~= Seq::<StepReport>::empty());
    while i < steps.len()
        invariant
            i <= steps@.len(),
            sum_durations(steps@) <= u64::MAX,
            t == sum_durations(steps@.subrange(0, i as int)),
        decreases steps@.len() - i,
    {
        proof {
            let s1 = steps@.subrange(0, i + 1);
            assert(s1.drop_last() =~= steps@.subrange(0, i as int));
            lemma_sum_prefix(steps@, i + 1);
        }
        t = t + steps[i].duration_ms;
        i = i + 1;
    }
    assert(steps@.subrange(0, steps@.len() as int) =~= steps@);
    t
}

/// The status of a run: failed when any leaf failed or the run stopped on an error.
pub fn job_status(failed: bool) -> (s: JobReportStatus)
    ensures
        s == (if failed {
            JobReportStatus::Failed
        } else {
            JobReportStatus::Completed
        }),
{
    if failed {
        JobReportStatus::Failed
    } else {
        JobReportStatus::Completed
    }
}

} // verus!
