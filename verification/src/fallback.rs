//! The SSR data fallback for client-rendered pages: the host registry, the
//! rendering of fallback items as text lines, and the extraction of the
//! embedded `roll_data` array.
use vstd::prelude::*;
use crate::json::{err_text, json_of, jv, num_member, parse_json, str_member, Json, JsonV};
use vstd::utf8::encode_utf8;
use crate::text::{string_body, occurs_at, chars_of, copy_range, dec, eq_str, push_str, find_first, first_occ, lemma_first_occ_bounds, pad0, push_all, push_dec, string_from_chars, string_of, trim, trim_bounds};

verus! {

/// One normalised fallback entry.
#[derive(Debug, Clone, PartialEq)]
pub struct FallbackItem {
    /// Unix seconds; 0 when missing.
    pub ctime: u64,
    /// The text of the entry.
    pub brief: String,
    /// The level (such as "B" or "C"); may be empty.
    pub level: String,
}

/// The date `(year, month, day)` of day `z`, counted from 1970-01-01 in the
/// proleptic Gregorian calendar (days-to-civil of H. Hinnant; `/` is floor
/// division here, as the divisors are positive).
pub open spec fn civil_of_days(z: int) -> (int, int, int) {
    let z = z + 719_468;
    let era = z / 146_097;
    let doe = z - era * 146_097;
    let yoe = (doe - doe / 1460 + doe / 36524 - doe / 146_096) / 365;
    let y = yoe + era * 400;
    let doy = doe - (365 * yoe + yoe / 4 - yoe / 100);
    let mp = (5 * doy + 2) / 153;
    let d = doy - (153 * mp + 2) / 5 + 1;
    let m = if mp < 10 { mp + 3 } else { mp - 9 };
    (if m <= 2 { y + 1 } else { y }, m, d)
}

/// The day number, from 1970-01-01, of the date `(y, m, d)` (civil-to-days
/// of H. Hinnant).
pub open spec fn days_of_civil(y: int, m: int, d: int) -> int {
    let y = if m <= 2 { y - 1 } else { y };
    let era = y / 400;
    let yoe = y - era * 400;
    let mp = if m > 2 { m - 3 } else { m + 9 };
    let doy = (153 * mp + 2) / 5 + d - 1;
    let doe = yoe * 365 + yoe / 4 - yoe / 100 + doy;
    era * 146_097 + doe - 719_468
}

proof fn lemma_era(z: int, t: int)
    requires
        z >= 0 ==> t == z / 146_097,
        z < 0 ==> t == -((146_096 - z) / 146_097),
    ensures
        t == z / 146_097,
{
    if z < 0 {
        let w = 146_096 - z;
        let q = w / 146_097;
        let r = w % 146_097;
        assert(w == q * 146_097 + r && 0 <= r < 146_097);
        assert(z == (-q) * 146_097 + (146_096 - r));
        vstd::arithmetic::div_mod::lemma_fundamental_div_mod_converse(
            z,
            146_097,
            -q,
            146_096 - r,
        );
    }
}

/// Converting a day number to its civil date and back gives the day number.
pub proof fn lemma_civil_days_roundtrip(z: int)
    ensures
        days_of_civil(civil_of_days(z).0, civil_of_days(z).1, civil_of_days(z).2) == z,
{
    let zz = z + 719_468;
    let era = zz / 146_097;
    vstd::arithmetic::div_mod::lemma_fundamental_div_mod(zz, 146_097);
    let doe = zz - era * 146_097;
    assert(0 <= doe < 146_097);
    let yoe = (doe - doe / 1460 + doe / 36524 - doe / 146_096) / 365;
    assert(0 <= yoe <= 399);
    let y = yoe + era * 400;
    vstd::arithmetic::div_mod::lemma_fundamental_div_mod_converse(y, 400, era, yoe);
    let doy = doe - (365 * yoe + yoe / 4 - yoe / 100);
    assert(0 <= doy <= 365);
    let mp = (5 * doy + 2) / 153;
    assert(0 <= mp <= 11);
}

/// A leap year of the proleptic Gregorian calendar.
pub open spec fn is_leap(y: int) -> bool {
    y % 4 == 0 && (y % 100 != 0 || y % 400 == 0)
}

/// The number of days of month `m` of year `y`.
pub open spec fn days_in_month(y: int, m: int) -> int {
    if m == 2 {
        if is_leap(y) {
            29
        } else {
            28
        }
    } else if m == 4 || m == 6 || m == 9 || m == 11 {
        30
    } else {
        31
    }
}

/// Within an era of 400 years, day 365 of a year counted from March only
/// exists when the February that ends it has 29 days.
proof fn lemma_year_length(doe: int)
    requires
        0 <= doe < 146_097,
    ensures
        ({
            let yoe = (doe - doe / 1460 + doe / 36524 - doe / 146_096) / 365;
            let doy = doe - (365 * yoe + yoe / 4 - yoe / 100);
            doy == 365 ==> (yoe + 1) % 4 == 0 && ((yoe + 1) % 100 != 0 || yoe == 399)
        }),
{
}

/// The day of a day number within its March-based year falls in its month.
proof fn lemma_month_of_day(doy: int)
    requires
        0 <= doy <= 365,
    ensures
        ({
            let mp = (5 * doy + 2) / 153;
            let d = doy - (153 * mp + 2) / 5 + 1;
            &&& 0 <= mp <= 11
            &&& 1 <= d
            &&& mp == 11 ==> d == doy - 336
            &&& (mp == 1 || mp == 3 || mp == 6 || mp == 8) ==> d <= 30
            &&& d <= 31
        }),
{
}

/// Every date that `civil_of_days` gives is a real one: its month is one of
/// the twelve and its day lies within that month's length, leap years
/// included.
pub proof fn lemma_civil_date_valid(z: int)
    ensures
        1 <= civil_of_days(z).1 <= 12,
        1 <= civil_of_days(z).2 <= days_in_month(civil_of_days(z).0, civil_of_days(z).1),
{
    let zz = z + 719_468;
    let era = zz / 146_097;
    vstd::arithmetic::div_mod::lemma_fundamental_div_mod(zz, 146_097);
    let doe = zz - era * 146_097;
    assert(0 <= doe < 146_097);
    let yoe = (doe - doe / 1460 + doe / 36524 - doe / 146_096) / 365;
    assert(0 <= yoe <= 399);
    let y = yoe + era * 400;
    let doy = doe - (365 * yoe + yoe / 4 - yoe / 100);
    assert(0 <= doy <= 365);
    lemma_year_length(doe);
    lemma_month_of_day(doy);
    let mp = (5 * doy + 2) / 153;
    if mp == 11 && doy == 365 {
        let yy = y + 1;
        assert(yy == 400 * era + (yoe + 1));
        vstd::arithmetic::div_mod::lemma_mod_multiples_vanish(era * 100, yoe + 1, 4);
        vstd::arithmetic::div_mod::lemma_mod_multiples_vanish(era * 4, yoe + 1, 100);
        vstd::arithmetic::div_mod::lemma_mod_multiples_vanish(era, yoe + 1, 400);
        assert(4 * (era * 100) == 400 * era);
        assert(100 * (era * 4) == 400 * era);
        assert(is_leap(yy));
    }
}

/// The calendar day after `(y, m, d)`.
pub open spec fn next_day(y: int, m: int, d: int) -> (int, int, int) {
    if d < days_in_month(y, m) {
        (y, m, d + 1)
    } else if m < 12 {
        (y, m + 1, 1)
    } else {
        (y + 1, 1, 1)
    }
}

spec fn yoe_of(doe: int) -> int {
    (doe - doe / 1460 + doe / 36524 - doe / 146_096) / 365
}

spec fn doy_of(doe: int) -> int {
    doe - (365 * yoe_of(doe) + yoe_of(doe) / 4 - yoe_of(doe) / 100)
}

/// The year (from March) `yoe` of an era ends with a 29th of February.
spec fn long_year(yoe: int) -> bool {
    (yoe + 1) % 4 == 0 && ((yoe + 1) % 100 != 0 || yoe == 399)
}

/// The next day of an era is the next day of the same year from March, or
/// the first day of the next year after the last day of a year.
proof fn lemma_era_day_step(doe: int)
    requires
        0 <= doe < 146_096,
    ensures
        if doy_of(doe) == 365 || (doy_of(doe) == 364 && !long_year(yoe_of(doe))) {
            yoe_of(doe + 1) == yoe_of(doe) + 1 && doy_of(doe + 1) == 0
        } else {
            yoe_of(doe + 1) == yoe_of(doe) && doy_of(doe + 1) == doy_of(doe) + 1
        },
{
}

/// The length of the month `mp` counted from March (February last, at most
/// 29 days).
spec fn march_month_len(mp: int) -> int {
    if mp == 11 {
        29
    } else if mp == 1 || mp == 3 || mp == 6 || mp == 8 {
        30
    } else {
        31
    }
}

spec fn mp_of(doy: int) -> int {
    (5 * doy + 2) / 153
}

spec fn dom_of(doy: int) -> int {
    doy - (153 * mp_of(doy) + 2) / 5 + 1
}

/// The next day of a year from March is the next day of its month, or the
/// first of the next month at a month's end.
proof fn lemma_year_day_step(doy: int)
    requires
        0 <= doy <= 364,
    ensures
        if dom_of(doy) < march_month_len(mp_of(doy)) {
            mp_of(doy + 1) == mp_of(doy) && dom_of(doy + 1) == dom_of(doy) + 1
        } else {
            mp_of(doy + 1) == mp_of(doy) + 1 && dom_of(doy + 1) == 1
        },
{
}

proof fn lemma_leap_of_era_year(era: int, yoe: int)
    requires
        0 <= yoe <= 399,
    ensures
        is_leap(400 * era + yoe + 1) == long_year(yoe),
{
    vstd::arithmetic::div_mod::lemma_mod_multiples_vanish(era * 100, yoe + 1, 4);
    vstd::arithmetic::div_mod::lemma_mod_multiples_vanish(era * 4, yoe + 1, 100);
    vstd::arithmetic::div_mod::lemma_mod_multiples_vanish(era, yoe + 1, 400);
    assert(4 * (era * 100) == 400 * era);
    assert(100 * (era * 4) == 400 * era);
}

/// Day `z + 1` is the calendar day after day `z`: the next day of the
/// month, the first of the next month, or the first of January of the next
/// year.
#[verifier::rlimit(40)]
pub proof fn lemma_civil_next_day(z: int)
    ensures
        civil_of_days(z + 1) == next_day(civil_of_days(z).0, civil_of_days(z).1, civil_of_days(z).2),
{
    let zz = z + 719_468;
    let era = zz / 146_097;
    vstd::arithmetic::div_mod::lemma_fundamental_div_mod(zz, 146_097);
    let doe = zz - era * 146_097;
    assert(0 <= doe < 146_097);
    let yoe = yoe_of(doe);
    let doy = doy_of(doe);
    assert(0 <= yoe <= 399);
    assert(0 <= doy <= 365);
    lemma_year_length(doe);
    lemma_civil_date_valid(z);
    lemma_leap_of_era_year(era, yoe);
    if doe < 146_096 {
        vstd::arithmetic::div_mod::lemma_fundamental_div_mod_converse(zz + 1, 146_097, era, doe + 1);
        assert((zz + 1) / 146_097 == era);
        lemma_era_day_step(doe);
        if doy == 365 || (doy == 364 && !long_year(yoe)) {
            assert(mp_of(doy) == 11);
            assert(mp_of(0) == 0 && dom_of(0) == 1);
        } else {
            lemma_year_day_step(doy);
        }
    } else {
        vstd::arithmetic::div_mod::lemma_fundamental_div_mod_converse(zz + 1, 146_097, era + 1, 0);
        assert((zz + 1) / 146_097 == era + 1);
        assert(yoe == 399 && doy == 365);
        assert(mp_of(doy) == 11);
        assert(yoe_of(0) == 0 && doy_of(0) == 0 && mp_of(0) == 0 && dom_of(0) == 1);
    }
}

/// The date of day `z` counted from 1970-01-01: `(year, month, day)`.
#[verifier::rlimit(40)]
#[verifier::spinoff_prover]
pub fn civil_from_days(z: i64) -> (r: (i64, u32, u32))
    requires
        z <= i64::MAX - 719_468,
    ensures
        r.0 == civil_of_days(z as int).0,
        r.1 == civil_of_days(z as int).1,
        r.2 == civil_of_days(z as int).2,
        1 <= r.1 <= 12,
        1 <= r.2 <= 31,
        z >= 0 ==> r.0 >= 0,
{
    let ghost z0 = z as int;
    let z = z + 719_468;
    let era = if z >= 0 { z } else { z - 146_096 } / 146_097;
    proof {
        lemma_era(z as int, era as int);
        vstd::arithmetic::div_mod::lemma_fundamental_div_mod(z as int, 146_097);
    }
    let doe = z - era * 146_097;
    assert(0 <= doe < 146_097);
    let yoe = (doe - doe / 1460 + doe / 36524 - doe / 146_096) / 365;
    assert(0 <= yoe <= 399);
    let y = yoe + era * 400;
    let doy = doe - (365 * yoe + yoe / 4 - yoe / 100);
    assert(0 <= doy <= 365);
    let mp = (5 * doy + 2) / 153;
    let d = doy - (153 * mp + 2) / 5 + 1;
    assert(0 <= mp <= 11);
    assert(1 <= d <= 31);
    let m = if mp < 10 { mp + 3 } else { mp - 9 };
    (if m <= 2 { y + 1 } else { y }, m as u32, d as u32)
}

/// The text of a timestamp: `"--"` for 0, else `YYYY-MM-DD HH:MM` in UTC.
pub open spec fn timestamp_text(secs: nat) -> Seq<char> {
    if secs == 0 {
        seq!['-', '-']
    } else {
        let days = secs / 86_400;
        let rem = secs % 86_400;
        let date = civil_of_days(days as int);
        pad0(dec(date.0 as nat), 4) + seq!['-'] + pad0(dec(date.1 as nat), 2) + seq!['-'] + pad0(
            dec(date.2 as nat),
            2,
        ) + seq![' '] + pad0(dec(rem / 3600), 2) + seq![':'] + pad0(dec((rem % 3600) / 60), 2)
    }
}

/// Unix seconds as `YYYY-MM-DD HH:MM` (UTC); `"--"` for 0.
pub fn format_timestamp(secs: u64) -> (r: String)
    ensures
        r@ == timestamp_text(secs as nat),
{
    let mut out: Vec<char> = Vec::new();
    if secs == 0 {
        out.push('-');
        out.push('-');
        assert(out@ =~= seq!['-', '-']);
        return string_from_chars(out.as_slice());
    }
    let days = secs / 86_400;
    let rem = secs % 86_400;
    let hour = rem / 3600;
    let minute = (rem % 3600) / 60;
    let (y, m, d) = civil_from_days(days as i64);
    push_dec(&mut out, y as u64, 4);
    out.push('-');
    push_dec(&mut out, m as u64, 2);
    out.push('-');
    push_dec(&mut out, d as u64, 2);
    out.push(' ');
    push_dec(&mut out, hour, 2);
    out.push(':');
    push_dec(&mut out, minute, 2);
    assert(out@ =~= timestamp_text(secs as nat));
    string_from_chars(out.as_slice())
}

proof fn lemma_dec_len(n: nat, w: nat, bound: int)
    requires
        w >= 1,
        bound == vstd::arithmetic::power::pow(10, w),
        n < bound,
    ensures
        dec(n).len() <= w,
    decreases n,
{
    vstd::arithmetic::power::lemma_pow_positive(10, w);
    if n >= 10 {
        let b2 = vstd::arithmetic::power::pow(10, (w - 1) as nat);
        if w == 1 {
            vstd::arithmetic::power::lemma_pow1(10);
        } else {
            vstd::arithmetic::power::lemma_pow_adds(10, 1, (w - 1) as nat);
            vstd::arithmetic::power::lemma_pow1(10);
            assert(n / 10 < b2) by (nonlinear_arith)
                requires
                    n < bound,
                    bound == 10 * b2,
            ;
            lemma_dec_len(n / 10, (w - 1) as nat, b2);
        }
    }
}

proof fn lemma_pad_len(n: nat, w: nat, bound: int)
    requires
        w >= 1,
        bound == vstd::arithmetic::power::pow(10, w),
        n < bound,
    ensures
        pad0(dec(n), w).len() == w,
{
    lemma_dec_len(n, w, bound);
}

/// Every timestamp from the epoch up to the end of year 9999 is rendered in
/// 16 characters (`YYYY-MM-DD HH:MM`).
pub proof fn lemma_timestamp_text_len(secs: nat)
    requires
        0 < secs < 253_402_300_800,
    ensures
        timestamp_text(secs).len() == 16,
{
    let days = secs / 86_400;
    let rem = secs % 86_400;
    let date = civil_of_days(days as int);
    let zz = days + 719_468;
    let era = zz / 146_097;
    vstd::arithmetic::div_mod::lemma_fundamental_div_mod(zz as int, 146_097);
    let doe = zz - era * 146_097;
    let yoe = (doe - doe / 1460 + doe / 36524 - doe / 146_096) / 365;
    let doy = doe - (365 * yoe + yoe / 4 - yoe / 100);
    let mp = (5 * doy + 2) / 153;
    assert(0 <= yoe <= 399);
    assert(era <= 24);
    assert(date.0 <= 9999);
    reveal_with_fuel(vstd::arithmetic::power::pow, 5);
    lemma_pad_len(date.0 as nat, 4, 10000);
    lemma_pad_len(date.1 as nat, 2, 100);
    lemma_pad_len(date.2 as nat, 2, 100);
    lemma_pad_len(rem / 3600, 2, 100);
    lemma_pad_len((rem % 3600) / 60, 2, 100);
}

/// The text of a level: empty, or the level in square brackets.
pub open spec fn level_text(level: Seq<char>) -> Seq<char> {
    if level.len() == 0 {
        seq![]
    } else {
        seq!['['] + level + seq![']']
    }
}

/// The text line of an entry: empty when the entry has no text, else
/// `[time] [level] text` with the text trimmed.
pub open spec fn item_line(ctime: nat, brief: Seq<char>, level: Seq<char>) -> Seq<char> {
    if brief.len() == 0 {
        seq![]
    } else {
        seq!['['] + timestamp_text(ctime) + seq![']', ' '] + level_text(level) + seq![' '] + trim(
            brief,
        )
    }
}

/// Renders an entry as one line of text for the page body.
pub fn format_item(it: &FallbackItem) -> (r: String)
    ensures
        r@ == item_line(it.ctime as nat, it.brief@, it.level@),
{
    let time = format_timestamp(it.ctime);
    let level = chars_of(it.level.as_str());
    let brief = chars_of(it.brief.as_str());
    let mut out: Vec<char> = Vec::new();
    if brief.len() == 0 {
        assert(out@ =~= Seq::<char>::empty());
        return string_from_chars(out.as_slice());
    }
    out.push('[');
    let tc = chars_of(time.as_str());
    push_all(&mut out, tc.as_slice());
    out.push(']');
    out.push(' ');
    if level.len() > 0 {
        out.push('[');
        push_all(&mut out, level.as_slice());
        out.push(']');
    }
    out.push(' ');
    let (a, b) = trim_bounds(brief.as_slice());
    let t = copy_range(brief.as_slice(), a, b);
    push_all(&mut out, t.as_slice());
    assert(out@ =~= item_line(it.ctime as nat, it.brief@, it.level@));
    string_from_chars(out.as_slice())
}

/// True for the hosts whose pages get the SSR data fallback.
pub open spec fn is_cls_host(host: Seq<char>) -> bool {
    host == "www.cls.cn"@ || host == "cls.cn"@ || host == "m.cls.cn"@
}

/// Whether `host` is one of the cls.cn hosts.
pub fn host_is_cls_cn(host: &str) -> (r: bool)
    ensures
        r == is_cls_host(host@),
{
    let h = chars_of(host);
    eq_str(h.as_slice(), "www.cls.cn") || eq_str(h.as_slice(), "cls.cn") || eq_str(
        h.as_slice(),
        "m.cls.cn",
    )
}

/// Where the `[`-delimited array that starts before `i` closes: scanning
/// from `i` with bracket depth `depth`, inside a string or not, right after
/// a backslash in a string or not; brackets inside strings do not count.
pub open spec fn array_close(s: Seq<char>, i: int, depth: int, in_str: bool, esc: bool) -> Option<
    int,
>
    decreases s.len() - i,
{
    if i < 0 || i >= s.len() {
        None
    } else {
        let c = s[i];
        if in_str {
            if esc {
                array_close(s, i + 1, depth, true, false)
            } else if c == '\\' {
                array_close(s, i + 1, depth, true, true)
            } else if c == '"' {
                array_close(s, i + 1, depth, false, false)
            } else {
                array_close(s, i + 1, depth, true, false)
            }
        } else if c == '"' {
            array_close(s, i + 1, depth, true, false)
        } else if c == '[' {
            array_close(s, i + 1, depth + 1, false, false)
        } else if c == ']' {
            if depth - 1 == 0 {
                Some(i)
            } else {
                array_close(s, i + 1, depth - 1, false, false)
            }
        } else {
            array_close(s, i + 1, depth, false, false)
        }
    }
}

/// The key that introduces the embedded array.
pub open spec fn roll_key() -> Seq<char> {
    "roll_data"@
}

/// The span `(open, close)` of the first balanced array that follows an
/// occurrence of the key at or after `from`; occurrences whose array does
/// not close are passed over.
pub open spec fn roll_span(s: Seq<char>, from: int) -> Option<(int, int)>
    decreases s.len() + 1 - from,
{
    if from < 0 {
        None
    } else {
        match first_occ(s, roll_key(), from) {
            None => None,
            Some(k) => {
                proof {
                    lemma_first_occ_bounds(s, roll_key(), from);
                    reveal_strlit("roll_data");
                }
                let after = k + roll_key().len();
                match first_occ(s, seq!['['], after) {
                    Some(b) => match array_close(s, b, 0, false, false) {
                        Some(e) => Some((b, e)),
                        None => roll_span(s, after),
                    },
                    None => roll_span(s, after),
                }
            },
        }
    }
}

/// The text of the embedded array, brackets included, if there is one.
pub open spec fn roll_data_text(s: Seq<char>) -> Option<Seq<char>> {
    match roll_span(s, 0) {
        Some((b, e)) => Some(s.subrange(b, e + 1)),
        None => None,
    }
}

fn scan_array_close(s: &[char], b: usize) -> (r: Option<usize>)
    requires
        b < s@.len(),
        s@[b as int] == '[',
    ensures
        match r {
            Some(e) => array_close(s@, b as int, 0, false, false) == Some(e as int) && b <= e
                < s@.len(),
            None => array_close(s@, b as int, 0, false, false) is None,
        },
{
    let n = s.len();
    let mut depth: usize = 0;
    let mut in_str = false;
    let mut esc = false;
    let mut i = b;
    while i < n
        invariant
            n == s@.len(),
            b <= i <= n,
            depth <= i,
            i > b ==> depth >= 1,
            i == b ==> depth == 0 && !in_str && !esc,
            s@[b as int] == '[',
            array_close(s@, i as int, depth as int, in_str, esc) == array_close(
                s@,
                b as int,
                0,
                false,
                false,
            ),
            in_str || !esc,
        decreases n - i,
    {
        let c = s[i];
        if in_str {
            if esc {
                esc = false;
            } else if c == '\\' {
                esc = true;
            } else if c == '"' {
                in_str = false;
            }
        } else if c == '"' {
            in_str = true;
        } else if c == '[' {
            depth = depth + 1;
        } else if c == ']' {
            if depth == 1 {
                return Some(i);
            }
            depth = depth - 1;
        }
        i = i + 1;
    }
    None
}

/// The text of the array that the page embeds under `roll_data`, brackets
/// included: the first occurrence of the key followed by a `[` whose array
/// closes (brackets inside JSON strings do not count).
pub fn extract_roll_data_json(html: &str) -> (r: Result<String, String>)
    ensures
        match r {
            Ok(t) => roll_data_text(html@) == Some(t@),
            Err(e) => roll_data_text(html@) is None && e@ == "roll_data not found"@,
        },
{
    let s = chars_of(html);
    let key = chars_of("roll_data");
    let open = chars_of("[");
    proof {
        reveal_strlit("roll_data");
        reveal_strlit("[");
        assert(open@ =~= seq!['[']);
    }
    let mut search_from: usize = 0;
    while search_from <= s.len()
        invariant_except_break
            search_from <= s@.len() + 1,
        invariant
            key@ == roll_key(),
            open@ == seq!['['],
            s@ == html@,
            roll_span(s@, search_from as int) == roll_span(s@, 0),
        ensures
            roll_span(s@, 0) is None,
        decreases s@.len() + 1 - search_from,
    {
        match find_first(s.as_slice(), key.as_slice(), search_from) {
            None => {
                break;
            },
            Some(k) => {
                proof {
                    lemma_first_occ_bounds(s@, roll_key(), search_from as int);
                    reveal_strlit("roll_data");
                }
                let after = k + key.len();
                match find_first(s.as_slice(), open.as_slice(), after) {
                    Some(b) => {
                        proof {
                            lemma_first_occ_bounds(s@, seq!['['], after as int);
                            assert(s@.subrange(b as int, b + 1) == seq!['[']);
                            assert(s@[b as int] == s@.subrange(b as int, b + 1)[0]);
                        }
                        match scan_array_close(s.as_slice(), b) {
                            Some(e) => {
                                let t = copy_range(s.as_slice(), b, e + 1);
                                return Ok(string_from_chars(t.as_slice()));
                            },
                            None => {},
                        }
                    },
                    None => {},
                }
                search_from = after;
            },
        }
    }
    proof {
        reveal_strlit("roll_data not found");
    }
    Err(string_of("roll_data not found"))
}

/// An entry of the embedded array, before its time is read as a number:
/// the time is the text of the `ctime` number, when there is one.
#[derive(Debug, Clone)]
pub struct RollEntry {
    pub ctime: Option<String>,
    pub brief: String,
    pub level: String,
}

/// The text of an entry: `brief`, or `content` when `brief` is empty.
pub open spec fn entry_text(m: Seq<(Seq<char>, JsonV)>) -> Seq<char> {
    let brief = match str_member(m, "brief"@) {
        Some(s) => s,
        None => seq![],
    };
    let content = match str_member(m, "content"@) {
        Some(s) => s,
        None => seq![],
    };
    if brief.len() == 0 {
        content
    } else {
        brief
    }
}

/// The entry that an array element gives, if any: objects whose text is
/// not blank.
pub open spec fn entry_of(v: JsonV) -> Option<(Option<Seq<char>>, Seq<char>, Seq<char>)> {
    match v {
        JsonV::Object(m) => if trim(entry_text(m)).len() == 0 {
            None
        } else {
            Some(
                (
                    num_member(m, "ctime"@),
                    entry_text(m),
                    match str_member(m, "level"@) {
                        Some(s) => s,
                        None => seq![],
                    },
                ),
            )
        },
        _ => None,
    }
}

/// The entries of the elements, in order.
pub open spec fn entries_of(items: Seq<JsonV>) -> Seq<(Option<Seq<char>>, Seq<char>, Seq<char>)>
    decreases items.len(),
{
    if items.len() == 0 {
        seq![]
    } else {
        let rest = entries_of(items.drop_last());
        match entry_of(items.last()) {
            Some(e) => rest.push(e),
            None => rest,
        }
    }
}

/// The mathematical form of an entry.
pub open spec fn entry_view(e: RollEntry) -> (Option<Seq<char>>, Seq<char>, Seq<char>) {
    (
        match e.ctime {
            Some(t) => Some(t@),
            None => None,
        },
        e.brief@,
        e.level@,
    )
}

pub open spec fn entries_view(v: Seq<RollEntry>) -> Seq<(Option<Seq<char>>, Seq<char>, Seq<char>)> {
    Seq::new(v.len(), |i: int| entry_view(v[i]))
}

fn str_or_empty(v: Option<&Json>) -> (r: String)
    ensures
        r@ == (match v {
            Some(j) => match jv(*j) {
                JsonV::Str(s) => s,
                _ => seq![],
            },
            None => seq![],
        }),
{
    proof {
        reveal_strlit("");
    }
    match v {
        Some(j) => match j.as_str() {
            Some(s) => string_of(s),
            None => string_of(""),
        },
        None => string_of(""),
    }
}

/// The entries of the embedded array; an error when it is not an array.
pub fn roll_entries(roll: &Json) -> (r: Result<Vec<RollEntry>, String>)
    ensures
        match jv(*roll) {
            JsonV::Array(items) => r matches Ok(v) && entries_view(v@) == entries_of(items),
            _ => r matches Err(e) && e@ == "roll_data not an array"@,
        },
{
    proof {
        crate::json::lemma_jv_containers(*roll);
        reveal_strlit("");
    }
    let arr = match roll {
        Json::Array(a) => a,
        _ => {
            return Err(string_of("roll_data not an array"));
        },
    };
    let ghost items = crate::json::elems_view(arr@);
    let mut out: Vec<RollEntry> = Vec::new();
    let mut i: usize = 0;
    while i < arr.len()
        invariant
            i <= arr@.len(),
            items == crate::json::elems_view(arr@),
            entries_view(out@) == entries_of(items.take(i as int)),
        decreases arr@.len() - i,
    {
        let v = &arr[i];
        assert(items.take(i + 1).drop_last() =~= items.take(i as int));
        assert(items.take(i + 1).last() == jv(*v));
        if let Json::Object(_) = v {
            proof {
                crate::json::lemma_jv_containers(*v);
            }
            let brief = str_or_empty(v.get("brief"));
            let content = str_or_empty(v.get("content"));
            let text = if brief.as_str().is_empty() {
                content
            } else {
                brief
            };
            let tc = chars_of(text.as_str());
            let (a, b) = trim_bounds(tc.as_slice());
            if a < b {
                let ctime = match v.get("ctime") {
                    Some(c) => match c.as_number_text() {
                        Some(t) => Some(string_of(t)),
                        None => None,
                    },
                    None => None,
                };
                let level = str_or_empty(v.get("level"));
                let e = RollEntry { ctime, brief: text, level };
                let ghost ev = entry_view(e);
                out.push(e);
                assert(entries_view(out@) =~= entries_view(out@.drop_last()).push(ev));
            }
        }
        i = i + 1;
    }
    assert(items.take(arr@.len() as int) =~= items);
    Ok(out)
}

/// The entries of the array that a page embeds under `roll_data`.
pub fn roll_entries_from_html(html: &str) -> (r: Result<Vec<RollEntry>, String>)
    ensures
        match roll_data_text(html@) {
            None => r matches Err(e) && e@ == "roll_data not found"@,
            Some(t) => match json_of(encode_utf8(t)) {
                Err(je) => r matches Err(e) && e@ == "roll_data parse: "@ + err_text(je),
                Ok(JsonV::Array(items)) => r matches Ok(v) && entries_view(v@) == entries_of(items),
                Ok(_) => r matches Err(e) && e@ == "roll_data not an array"@,
            },
        },
{
    let text = match extract_roll_data_json(html) {
        Ok(t) => t,
        Err(e) => {
            return Err(e);
        },
    };
    let roll = match parse_json(text.as_str()) {
        Ok(j) => j,
        Err(e) => {
            let mut out: Vec<char> = Vec::new();
            push_str(&mut out, "roll_data parse: ");
            push_str(&mut out, e.as_str());
            return Err(string_from_chars(out.as_slice()));
        },
    };
    roll_entries(&roll)
}

/// The heading written above the injected entries.
pub const FALLBACK_HEADING: &'static str = "【电报（CSR 兜底渲染）】";

pub open spec fn items_lines(items: Seq<FallbackItem>) -> Seq<Seq<char>> {
    Seq::new(items.len(), |i: int| item_line(items[i].ctime as nat, items[i].brief@, items[i].level@))
}

/// The text nodes that the fallback appends to the page body: none without
/// entries, else the heading and one line per entry, in order.
pub fn inject_lines(items: &[FallbackItem]) -> (r: Vec<String>)
    ensures
        items@.len() == 0 ==> r@.len() == 0,
        items@.len() > 0 ==> r@.map_values(|x: String| x@) == seq![FALLBACK_HEADING@] + items_lines(items@),
{
    let mut out: Vec<String> = Vec::new();
    if items.len() == 0 {
        return out;
    }
    out.push(string_of(FALLBACK_HEADING));
    let mut i: usize = 0;
    while i < items.len()
        invariant
            i <= items@.len(),
            out@.map_values(|x: String| x@) == seq![FALLBACK_HEADING@] + items_lines(items@).take(i as int),
        decreases items@.len() - i,
    {
        let line = format_item(&items[i]);
        let ghost before = out@.map_values(|x: String| x@);
        let ghost lv = line@;
        out.push(line);
        assert(out@.map_values(|x: String| x@) =~= before.push(lv));
        assert(items_lines(items@).take(i + 1) =~= items_lines(items@).take(i as int).push(lv));
        i = i + 1;
        assert(out@.map_values(|x: String| x@) =~= seq![FALLBACK_HEADING@] + items_lines(items@).take(i as int));
    }
    assert(items_lines(items@).take(items@.len() as int) =~= items_lines(items@));
    out
}

/// What the fallback makes of its fetch: the lines to append to the body.
/// A failed fetch, one that gave no entries, and a document without a body
/// all give none: the fallback is best effort and never blocks rendering.
pub fn fallback_outcome(fetched: Result<Vec<FallbackItem>, String>, has_body: bool) -> (r: Vec<String>)
    ensures
        match fetched {
            Err(_) => r@.len() == 0,
            Ok(items) => if items@.len() == 0 || !has_body {
                r@.len() == 0
            } else {
                r@.map_values(|x: String| x@) == seq![FALLBACK_HEADING@] + items_lines(items@)
            },
        },
{
    match fetched {
        Err(_) => Vec::new(),
        Ok(items) => {
            if items.len() == 0 || !has_body {
                Vec::new()
            } else {
                inject_lines(items.as_slice())
            }
        },
    }
}


/// Array text with no bracket and no double quote.
pub open spec fn array_plain(p: Seq<char>) -> bool {
    forall|k: int| 0 <= k < p.len() ==> #[trigger] p[k] != '[' && p[k] != ']' && p[k] != '"'
}

proof fn lemma_array_plain_run(s: Seq<char>, i: int, e: int, d: int)
    requires
        0 <= i <= e <= s.len(),
        forall|k: int| i <= k < e ==> #[trigger] s[k] != '[' && s[k] != ']' && s[k] != '"',
    ensures
        array_close(s, i, d, false, false) == array_close(s, e, d, false, false),
    decreases e - i,
{
    if i < e {
        lemma_array_plain_run(s, i + 1, e, d);
    }
}

proof fn lemma_array_string_run(s: Seq<char>, i: int, d: int, b: Seq<char>)
    requires
        0 <= i,
        i + b.len() < s.len(),
        s.subrange(i, i + b.len()) == b,
        string_body(b, '"'),
        s[i + b.len()] == '"',
    ensures
        array_close(s, i, d, true, false) == array_close(s, i + b.len() + 1, d, false, false),
    decreases b.len(),
{
    if b.len() == 0 {
    } else if b[0] == '\\' {
        assert(s[i] == b[0]);
        assert(array_close(s, i, d, true, false) == array_close(s, i + 1, d, true, true));
        assert(array_close(s, i + 1, d, true, true) == array_close(s, i + 2, d, true, false));
        assert(s.subrange(i + 2, i + 2 + b.skip(2).len()) =~= b.skip(2));
        lemma_array_string_run(s, i + 2, d, b.skip(2));
    } else {
        assert(s[i] == b[0]);
        assert(s.subrange(i + 1, i + 1 + b.skip(1).len()) =~= b.skip(1));
        lemma_array_string_run(s, i + 1, d, b.skip(1));
    }
}

/// The text that introduces the embedded array in the page: `"roll_data":`.
pub open spec fn roll_key_prefix() -> Seq<char> {
    seq!['"', 'r', 'o', 'l', 'l', '_', 'd', 'a', 't', 'a', '"', ':']
}

/// Inside a JSON string a backslash escapes the next character: an escaped
/// quote does not end the string, and brackets inside the string do not
/// count, so the array that follows `"roll_data":` is extracted whole,
/// whatever follows it.
pub proof fn lemma_roll_array_with_string(x: Seq<char>, b: Seq<char>, y: Seq<char>, post: Seq<char>)
    requires
        array_plain(x),
        array_plain(y),
        string_body(b, '"'),
    ensures
        roll_data_text(
            roll_key_prefix() + (seq!['['] + x + seq!['"'] + b + seq!['"'] + y + seq![']']) + post,
        ) == Some(seq!['['] + x + seq!['"'] + b + seq!['"'] + y + seq![']']),
{
    reveal_strlit("roll_data");
    let arr = seq!['['] + x + seq!['"'] + b + seq!['"'] + y + seq![']'];
    let s = roll_key_prefix() + arr + post;
    let a = 12int;
    assert(s.subrange(1, 10) =~= roll_key());
    assert(!occurs_at(s, roll_key(), 0)) by {
        assert(s.subrange(0, 9)[0] == '"');
    }
    crate::text::lemma_first_occ(s, roll_key(), 0, Some(1));
    assert(!occurs_at(s, seq!['['], 10)) by {
        assert(s.subrange(10, 11)[0] == '"');
    }
    assert(!occurs_at(s, seq!['['], 11)) by {
        assert(s.subrange(11, 12)[0] == ':');
    }
    assert(s.subrange(12, 13) =~= seq!['[']);
    crate::text::lemma_first_occ(s, seq!['['], 10, Some(12));
    let xs = a + 1;
    let q1 = xs + x.len();
    let bs = q1 + 1;
    let ys = bs + b.len() + 1;
    let close = ys + y.len();
    assert(s[a] == '[');
    assert(array_close(s, a, 0, false, false) == array_close(s, xs, 1, false, false));
    assert forall|k: int| xs <= k < q1 implies #[trigger] s[k] != '[' && s[k] != ']' && s[k] != '"' by {
        assert(s[k] == x[k - xs]);
    }
    lemma_array_plain_run(s, xs, q1, 1);
    assert(s[q1] == '"');
    assert(array_close(s, q1, 1, false, false) == array_close(s, bs, 1, true, false));
    assert(s.subrange(bs, bs + b.len()) =~= b);
    assert(s[bs + b.len()] == '"');
    lemma_array_string_run(s, bs, 1, b);
    assert forall|k: int| ys <= k < close implies #[trigger] s[k] != '[' && s[k] != ']' && s[k] != '"' by {
        assert(s[k] == y[k - ys]);
    }
    lemma_array_plain_run(s, ys, close, 1);
    assert(s[close] == ']');
    assert(array_close(s, close, 1, false, false) == Some(close));
    assert(s.subrange(a, close + 1) =~= arr);
}

} // verus!
