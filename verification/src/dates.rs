//! Dates of posts: RFC 2822 text to Unix time.
use vstd::prelude::*;

use crate::text;
use crate::text::{chars_of, parse_signed, parse_unsigned, same_text, split_on, split_whitespace, string_of, trim, trim_end_of};

verus! {

/// The number of the month with an English three-letter name, from 1.
pub open spec fn month_number(s: Seq<char>) -> Option<u32> {
    if s == "Jan"@ {
        Some(1)
    } else if s == "Feb"@ {
        Some(2)
    } else if s == "Mar"@ {
        Some(3)
    } else if s == "Apr"@ {
        Some(4)
    } else if s == "May"@ {
        Some(5)
    } else if s == "Jun"@ {
        Some(6)
    } else if s == "Jul"@ {
        Some(7)
    } else if s == "Aug"@ {
        Some(8)
    } else if s == "Sep"@ {
        Some(9)
    } else if s == "Oct"@ {
        Some(10)
    } else if s == "Nov"@ {
        Some(11)
    } else if s == "Dec"@ {
        Some(12)
    } else {
        None
    }
}

/// The number of the month with an English three-letter name, from 1.
pub fn month_of(s: &[char]) -> (r: Option<u32>)
    ensures
        r == month_number(s@),
{
    let name = string_of(s);
    if same_text(&name, "Jan") {
        Some(1)
    } else if same_text(&name, "Feb") {
        Some(2)
    } else if same_text(&name, "Mar") {
        Some(3)
    } else if same_text(&name, "Apr") {
        Some(4)
    } else if same_text(&name, "May") {
        Some(5)
    } else if same_text(&name, "Jun") {
        Some(6)
    } else if same_text(&name, "Jul") {
        Some(7)
    } else if same_text(&name, "Aug") {
        Some(8)
    } else if same_text(&name, "Sep") {
        Some(9)
    } else if same_text(&name, "Oct") {
        Some(10)
    } else if same_text(&name, "Nov") {
        Some(11)
    } else if same_text(&name, "Dec") {
        Some(12)
    } else {
        None
    }
}

/// The year of a date where years start in March.
pub open spec fn march_year(y: i32, m: u32) -> i32 {
    if m <= 2 {
        y.wrapping_sub(1)
    } else {
        y
    }
}

/// The era of 400 years that a year lies in.
#[verifier::opaque]
pub open spec fn era_of(y: i32) -> int {
    let n = if y >= 0 { y } else { y.wrapping_sub(399) };
    if n >= 0 {
        n as int / 400
    } else {
        -((-(n as int)) / 400)
    }
}

/// The year within its era.
#[verifier::opaque]
pub open spec fn year_of_era(y: i32) -> u32 {
    y.wrapping_sub((era_of(y) as i32).wrapping_mul(400)) as u32
}

/// The day within the year, from 0 on the first of March.
#[verifier::opaque]
pub open spec fn day_of_year(m: u32, d: u32) -> u32 {
    let mp = if m > 2 { (m - 3) as u32 } else { (m + 9) as u32 };
    ((153 * mp + 2) as u32 / 5u32).wrapping_add(d).wrapping_sub(1)
}

/// The day within the era, from 0.
#[verifier::opaque]
pub open spec fn day_of_era(yoe: u32, doy: u32) -> u32 {
    yoe.wrapping_mul(365).wrapping_add(yoe / 4).wrapping_sub(yoe / 100).wrapping_add(doy)
}

/// The day number of a date, in 32-bit arithmetic that wraps around.
pub open spec fn civil_days(y: i32, m: u32, d: u32) -> int {
    let my = march_year(y, m);
    era_of(my) * 146097 + day_of_era(year_of_era(my), day_of_year(m, d)) - 719468
}

/// The days since 1970-01-01 of the day `d` of month `m` of year `y`.
pub fn days_from_civil(y: i32, m: u32, d: u32) -> (r: i64)
    requires
        1 <= m <= 12,
    ensures
        r == civil_days(y, m, d),
        -0x100_0000_0000 <= r <= 0x100_0000_0000,
{
    reveal(era_of);
    reveal(year_of_era);
    reveal(day_of_year);
    reveal(day_of_era);
    let my: i32 = if m <= 2 { y.wrapping_sub(1) } else { y };
    let n: i32 = if my >= 0 { my } else { my.wrapping_sub(399) };
    let era: i32 = n / 400;
    let yoe: u32 = my.wrapping_sub(era.wrapping_mul(400)) as u32;
    let mp: u32 = if m > 2 { m - 3 } else { m + 9 };
    let doy: u32 = ((153 * mp + 2) / 5).wrapping_add(d).wrapping_sub(1);
    let doe: u32 = yoe.wrapping_mul(365).wrapping_add(yoe / 4).wrapping_sub(yoe / 100).wrapping_add(
        doy,
    );
    era as i64 * 146097 + doe as i64 - 719468
}

/// Whether `y` has a 29th of February.
pub open spec fn is_leap(y: int) -> bool {
    y % 4 == 0 && (y % 100 != 0 || y % 400 == 0)
}

/// The number of days of month `m` of year `y`.
pub open spec fn month_length(y: int, m: int) -> int {
    if m == 2 {
        if is_leap(y) {
            29
        } else {
            28
        }
    } else if m == 4 || m == 6 || m == 9 || m == 11 {
        30
    } else {
        31
    }
}

/// Whether the calendar has the day `d` of month `m` of year `y`.
pub open spec fn is_date(y: int, m: int, d: int) -> bool {
    1 <= m <= 12 && 1 <= d <= month_length(y, m)
}

/// The day after the day `d` of month `m` of year `y`.
pub open spec fn next_day(y: int, m: int, d: int) -> (int, int, int) {
    if d < month_length(y, m) {
        (y, m, d + 1)
    } else if m < 12 {
        (y, m + 1, 1)
    } else {
        (y + 1, 1, 1)
    }
}

#[verifier::opaque]
spec fn march_days(y: int) -> int {
    (y / 400) * 146097 + (y % 400) * 365 + (y % 400) / 4 - (y % 400) / 100 - 719468
}

proof fn lemma_era_steps(e: int, k: int)
    requires
        0 <= k < 400,
    ensures
        (400 * e + k) / 400 == e,
        (400 * e + k) % 400 == k,
        (400 * e + k) % 100 == k % 100,
        (400 * e + k) % 4 == k % 4,
{
    vstd::arithmetic::div_mod::lemma_fundamental_div_mod_converse(400 * e + k, 400, e, k);
    vstd::arithmetic::div_mod::lemma_mod_multiples_vanish(4 * e, k, 100);
    vstd::arithmetic::div_mod::lemma_mod_multiples_vanish(100 * e, k, 4);
}

proof fn lemma_quotient_steps(k: int)
    requires
        0 <= k < 399,
    ensures
        (k + 1) / 4 == k / 4 + if (k + 1) % 4 == 0 {
            1int
        } else {
            0int
        },
        (k + 1) / 100 == k / 100 + if (k + 1) % 100 == 0 {
            1int
        } else {
            0int
        },
{
}

proof fn lemma_march_days(y: int)
    ensures
        march_days(y + 1) == march_days(y) + 365 + if is_leap(y + 1) {
            1int
        } else {
            0int
        },
{
    reveal(march_days);
    let e = y / 400;
    let k = y % 400;
    assert(y == 400 * e + k && 0 <= k < 400);
    lemma_era_steps(e, k);
    if k < 399 {
        lemma_era_steps(e, k + 1);
        lemma_quotient_steps(k);
        assert(y + 1 == 400 * e + (k + 1));
        assert(is_leap(y + 1) == ((k + 1) % 4 == 0 && (k + 1) % 100 != 0));
        assert((k + 1) % 100 == 0 ==> (k + 1) % 4 == 0);
    } else {
        lemma_era_steps(e + 1, 0);
        assert(y + 1 == 400 * (e + 1) + 0);
    }
}

proof fn lemma_floor_era(y: int)
    ensures
        y < 0 ==> -((399 - y) / 400) == y / 400,
        0 <= y - (y / 400) * 400 < 400,
{
}

proof fn lemma_era_of(y: i32)
    requires
        -0x7fff_fe01 <= y,
    ensures
        era_of(y) == y as int / 400,
        year_of_era(y) == y as int % 400,
{
    reveal(era_of);
    reveal(year_of_era);
    lemma_floor_era(y as int);
    let e = era_of(y);
    assert(e == y as int / 400);
    assert((e as i32).wrapping_mul(400) == e * 400);
    assert(y.wrapping_sub((e as i32).wrapping_mul(400)) == y - e * 400);
    assert(y as int % 400 == y - e * 400);
}

spec fn months_before(m: int) -> int {
    (153 * (if m > 2 {
        m - 3
    } else {
        m + 9
    }) + 2) / 5
}

proof fn lemma_day_of_year(m: u32, d: u32)
    requires
        1 <= m <= 12,
        1 <= d <= 31,
    ensures
        day_of_year(m, d) == months_before(m as int) + d - 1,
        0 <= months_before(m as int) <= 337,
        m != 2 && m != 12 ==> months_before(m + 1) == months_before(m as int) + month_length(
            0,
            m as int,
        ),
        m == 12 ==> months_before(1) == months_before(m as int) + 31,
        m == 2 ==> months_before(m as int) == 337 && months_before(m + 1) == 0,
{
    reveal(day_of_year);
}

proof fn lemma_day_of_era(yoe: u32, doy: u32)
    requires
        yoe < 400,
        doy < 400,
    ensures
        day_of_era(yoe, doy) == yoe * 365 + yoe / 4 - yoe / 100 + doy,
{
    reveal(day_of_era);
}

proof fn lemma_civil_days(y: i32, m: u32, d: u32)
    requires
        -0x7fff_fe00 <= y,
        1 <= m <= 12,
        1 <= d <= 31,
    ensures
        civil_days(y, m, d) == march_days(march_year(y, m) as int) + months_before(m as int) + d
            - 1,
{
    let my = march_year(y, m);
    lemma_era_of(my);
    lemma_day_of_year(m, d);
    lemma_day_of_era(year_of_era(my), day_of_year(m, d));
    reveal(march_days);
}

/// `days_from_civil` counts the days of the calendar: 1970-01-01 is day 0, and the day after
/// any date has the next number.
pub proof fn civil_days_count_calendar_days(y: i32, m: u32, d: u32)
    requires
        -0x7fff_fe00 <= y < i32::MAX,
        is_date(y as int, m as int, d as int),
    ensures
        civil_days(1970, 1, 1) == 0,
        ({
            let next = next_day(y as int, m as int, d as int);
            civil_days(next.0 as i32, next.1 as u32, next.2 as u32) == civil_days(y, m, d) + 1
        }),
{
    let next = next_day(y as int, m as int, d as int);
    lemma_civil_days(1970, 1, 1);
    assert(march_days(1969) + months_before(1) == 0) by {
        reveal(march_days);
    }
    lemma_civil_days(y, m, d);
    lemma_civil_days(next.0 as i32, next.1 as u32, next.2 as u32);
    lemma_day_of_year(m, d);
    lemma_march_days(y - 1);
}

/// The two-digit number at the bytes `from` and `from + 1` of a zone: 0 where they write
/// none.
pub open spec fn zone_number(zone: Seq<u8>, from: int) -> int {
    match text::signed(
        zone.subrange(from, from + 2).map_values(|b: u8| b as char),
        i64::MIN as int,
        i64::MAX as int,
    ) {
        Some(n) => n,
        None => 0,
    }
}

/// The seconds by which a zone such as `+0130` is ahead of UTC: 0 for one that is not
/// written as a sign and at least four more bytes.
pub open spec fn zone_offset(zone: Seq<char>) -> int {
    let b = vstd::utf8::encode_utf8(zone);
    let ahead = zone_number(b, 1) * 3600 + zone_number(b, 3) * 60;
    if b.len() < 5 {
        0
    } else if b[0] == 43 {
        ahead
    } else if b[0] == 45 {
        -ahead
    } else {
        0
    }
}

/// The seconds since midnight of a time such as `17:29:23`.
pub open spec fn time_of_day(time: Seq<char>) -> Option<int> {
    let f = text::fields(time, ':');
    if f.len() != 3 {
        None
    } else {
        match (
            text::unsigned(f[0], u32::MAX as nat),
            text::unsigned(f[1], u32::MAX as nat),
            text::unsigned(f[2], u32::MAX as nat),
        ) {
            (Some(h), Some(m), Some(s)) => Some((h * 3600 + m * 60 + s) as int),
            _ => None,
        }
    }
}

/// The Unix time of a date such as `Sun, 06 Jun 2010 17:29:23 +0100`, as a 64-bit two's
/// complement number.
pub open spec fn rfc2822(s: Seq<char>) -> Option<u64> {
    let parts = text::words(text::trimmed(s));
    if parts.len() < 6 {
        None
    } else {
        match (
            text::unsigned(text::without_trailing(parts[1], ','), u32::MAX as nat),
            month_number(parts[2]),
            text::signed(parts[3], i32::MIN as int, i32::MAX as int),
            time_of_day(parts[4]),
        ) {
            (Some(d), Some(m), Some(y), Some(t)) => Some(
                ((civil_days(y as i32, m, d as u32) * 86400 + t - zone_offset(parts[5])) as i64)
                    as u64,
            ),
            _ => None,
        }
    }
}

fn zone_field(zone: &[u8], from: usize) -> (r: i64)
    requires
        from + 2 <= zone.len(),
    ensures
        r == zone_number(zone@, from as int),
        -99 <= r <= 99,
{
    let mut cs: Vec<char> = Vec::new();
    cs.push(zone[from] as char);
    cs.push(zone[from + 1] as char);
    assert(cs@ == zone@.subrange(from as int, from + 2).map_values(|b: u8| b as char));
    match parse_signed(&cs, i64::MIN, i64::MAX) {
        Some(n) => {
            proof {
                lemma_two_characters(cs@);
            }
            n
        },
        None => 0,
    }
}

proof fn lemma_two_characters(s: Seq<char>)
    requires
        s.len() == 2,
        text::signed(s, i64::MIN as int, i64::MAX as int) is Some,
    ensures
        -99 <= text::signed(s, i64::MIN as int, i64::MAX as int)->0 <= 99,
{
    reveal_with_fuel(text::digits_value, 3);
    assert(s.skip(1).drop_last().len() == 0);
    assert(s.drop_last().drop_last().len() == 0);
    if text::all_digits(s) {
        assert(text::is_digit(s[0]) && text::is_digit(s[1]));
        assert(s.drop_last().last() == s[0]);
    }
    if text::all_digits(s.skip(1)) {
        assert(text::is_digit(s.skip(1)[0]));
    }
}

fn offset_of(zone: &[char]) -> (r: i64)
    ensures
        r == zone_offset(zone@),
        -1_000_000 <= r <= 1_000_000,
{
    let z = string_of(zone);
    let b = z.as_str().as_bytes();
    if b.len() < 5 {
        return 0;
    }
    let ahead: i64 = zone_field(b, 1) * 3600 + zone_field(b, 3) * 60;
    if b[0] == 43 {
        ahead
    } else if b[0] == 45 {
        -ahead
    } else {
        0
    }
}

fn seconds_of(time: &[char]) -> (r: Option<i64>)
    ensures
        match r {
            Some(t) => time_of_day(time@) == Some(t as int) && 0 <= t <= 0x1000_0000_0000,
            None => time_of_day(time@) is None,
        },
{
    let f = split_on(time, ':');
    if f.len() != 3 {
        return None;
    }
    let max: u64 = u32::MAX as u64;
    assert(f@[0]@ == text::texts(f@)[0]);
    assert(f@[1]@ == text::texts(f@)[1]);
    assert(f@[2]@ == text::texts(f@)[2]);
    match (parse_unsigned(&f[0], max), parse_unsigned(&f[1], max), parse_unsigned(&f[2], max)) {
        (Some(h), Some(m), Some(s)) => Some((h as i64) * 3600 + (m as i64) * 60 + s as i64),
        _ => None,
    }
}

proof fn lemma_zone_bounds(zone: Seq<char>)
    ensures
        -1_000_000 <= zone_offset(zone) <= 1_000_000,
{
    let b = vstd::utf8::encode_utf8(zone);
    if b.len() >= 5 {
        lemma_zone_number(b, 1);
        lemma_zone_number(b, 3);
    }
}

proof fn lemma_zone_number(zone: Seq<u8>, from: int)
    requires
        0 <= from,
        from + 2 <= zone.len(),
    ensures
        -99 <= zone_number(zone, from) <= 99,
{
    let cs = zone.subrange(from, from + 2).map_values(|b: u8| b as char);
    if text::signed(cs, i64::MIN as int, i64::MAX as int) is Some {
        lemma_two_characters(cs);
    }
}

proof fn lemma_civil_bounds(y: i32, m: u32, d: u32)
    ensures
        -0x100_0000_0000 <= civil_days(y, m, d) <= 0x100_0000_0000,
{
    reveal(era_of);
}

/// A zone shifts a time by exactly its offset: of two dates that differ in nothing else but the
/// name of the day, either both can be read or none, and with their offsets added they are the
/// same.
pub proof fn zones_shift_times(s: Seq<char>, t: Seq<char>)
    requires
        ({
            let a = text::words(text::trimmed(s));
            let b = text::words(text::trimmed(t));
            &&& a.len() >= 6 && b.len() >= 6
            &&& a[1] == b[1] && a[2] == b[2] && a[3] == b[3] && a[4] == b[4]
        }),
    ensures
        rfc2822(s) is Some == rfc2822(t) is Some,
        rfc2822(s) is Some ==> (rfc2822(s)->0 as i64) + zone_offset(
            text::words(text::trimmed(s))[5],
        ) == (rfc2822(t)->0 as i64) + zone_offset(text::words(text::trimmed(t))[5]),
{
    let a = text::words(text::trimmed(s));
    let b = text::words(text::trimmed(t));
    lemma_zone_bounds(a[5]);
    lemma_zone_bounds(b[5]);
    if rfc2822(s) is Some {
        let d = text::unsigned(text::without_trailing(a[1], ','), u32::MAX as nat)->0;
        let m = month_number(a[2])->0;
        let y = text::signed(a[3], i32::MIN as int, i32::MAX as int)->0;
        let midnight = civil_days(y as i32, m, d as u32) * 86400;
        let now = time_of_day(a[4])->0;
        lemma_civil_bounds(y as i32, m, d as u32);
        assert(0 <= now <= 0x1000_0000_0000);
        let x = (midnight + now - zone_offset(a[5])) as i64;
        let z = (midnight + now - zone_offset(b[5])) as i64;
        assert((x as u64) as i64 == x) by (bit_vector);
        assert((z as u64) as i64 == z) by (bit_vector);
    }
}

/// Best-effort RFC 2822 date to Unix time.
pub fn parse_rfc2822(s: &str) -> (r: Option<u64>)
    ensures
        r == rfc2822(s@),
{
    let cs = chars_of(s);
    let parts = split_whitespace(trim(&cs));
    if parts.len() < 6 {
        return None;
    }
    proof {
        assert(parts@[1]@ == text::texts(parts@)[1]);
        assert(parts@[2]@ == text::texts(parts@)[2]);
        assert(parts@[3]@ == text::texts(parts@)[3]);
        assert(parts@[4]@ == text::texts(parts@)[4]);
        assert(parts@[5]@ == text::texts(parts@)[5]);
    }
    let day = parse_unsigned(trim_end_of(&parts[1], ','), u32::MAX as u64);
    let month = month_of(&parts[2]);
    let year = parse_signed(&parts[3], i32::MIN as i64, i32::MAX as i64);
    match (day, month, year, seconds_of(&parts[4])) {
        (Some(d), Some(m), Some(y), Some(t)) => {
            let days: i64 = days_from_civil(y as i32, m, d as u32);
            let utc: i64 = days * 86400 + t - offset_of(&parts[5]);
            Some(utc as u64)
        },
        _ => None,
    }
}

/// Months are known by their English names of three letters, and by nothing else.
pub proof fn months_are_numbered(s: Seq<char>)
    ensures
        month_number(s) == Some(1u32) <==> s == "Jan"@,
        month_number(s) == Some(2u32) <==> s == "Feb"@,
        month_number(s) == Some(3u32) <==> s == "Mar"@,
        month_number(s) == Some(4u32) <==> s == "Apr"@,
        month_number(s) == Some(5u32) <==> s == "May"@,
        month_number(s) == Some(6u32) <==> s == "Jun"@,
        month_number(s) == Some(7u32) <==> s == "Jul"@,
        month_number(s) == Some(8u32) <==> s == "Aug"@,
        month_number(s) == Some(9u32) <==> s == "Sep"@,
        month_number(s) == Some(10u32) <==> s == "Oct"@,
        month_number(s) == Some(11u32) <==> s == "Nov"@,
        month_number(s) == Some(12u32) <==> s == "Dec"@,
        month_number(s) is Some ==> 1 <= month_number(s)->0 <= 12,
{
    reveal_strlit("Jan");
    reveal_strlit("Feb");
    reveal_strlit("Mar");
    reveal_strlit("Apr");
    reveal_strlit("May");
    reveal_strlit("Jun");
    reveal_strlit("Jul");
    reveal_strlit("Aug");
    reveal_strlit("Sep");
    reveal_strlit("Oct");
    reveal_strlit("Nov");
    reveal_strlit("Dec");
    assert("Jan"@[0] == 'J' && "Jan"@[1] == 'a' && "Jan"@[2] == 'n');
    assert("Feb"@[0] == 'F');
    assert("Mar"@[0] == 'M' && "Mar"@[2] == 'r');
    assert("Apr"@[0] == 'A' && "Apr"@[1] == 'p');
    assert("May"@[0] == 'M' && "May"@[2] == 'y');
    assert("Jun"@[0] == 'J' && "Jun"@[1] == 'u' && "Jun"@[2] == 'n');
    assert("Jul"@[0] == 'J' && "Jul"@[1] == 'u' && "Jul"@[2] == 'l');
    assert("Aug"@[0] == 'A' && "Aug"@[1] == 'u');
    assert("Sep"@[0] == 'S');
    assert("Oct"@[0] == 'O');
    assert("Nov"@[0] == 'N');
    assert("Dec"@[0] == 'D');
}

/// A time is hours, minutes and seconds between colons; other numbers of fields are no time.
pub proof fn times_are_hours_minutes_seconds(
    h: Seq<char>,
    m: Seq<char>,
    s: Seq<char>,
    more: Seq<char>,
)
    requires
        !h.contains(':'),
        !m.contains(':'),
        !s.contains(':'),
    ensures
        ({
            let a = text::unsigned(h, u32::MAX as nat);
            let b = text::unsigned(m, u32::MAX as nat);
            let c = text::unsigned(s, u32::MAX as nat);
            let r = time_of_day(h + seq![':'] + (m + seq![':'] + s));
            &&& a is Some && b is Some && c is Some ==> r == Some(
                3600 * a->0 + 60 * b->0 + c->0 as int,
            )
            &&& a is None || b is None || c is None ==> r is None
        }),
        time_of_day(h) is None,
        time_of_day(h + seq![':'] + m) is None,
        time_of_day(h + seq![':'] + (m + seq![':'] + (s + seq![':'] + more))) is None,
{
    text::text_without_separator_is_a_field(h, ':');
    text::text_without_separator_is_a_field(m, ':');
    text::text_without_separator_is_a_field(s, ':');
    text::fields_of_two(m, ':', s);
    text::fields_of_two(h, ':', m + seq![':'] + s);
    text::fields_of_two(h, ':', m);
    text::fields_of_two(s, ':', more);
    text::fields_of_two(m, ':', s + seq![':'] + more);
    text::fields_of_two(h, ':', m + seq![':'] + (s + seq![':'] + more));
    let f = text::fields(h + seq![':'] + (m + seq![':'] + s), ':');
    assert(f =~= seq![h, m, s]);
}

/// A zone is a sign, two digits for the hours and two for the minutes; a text that is shorter or
/// starts with something else, such as `GMT`, shifts nothing.
pub proof fn zones_are_hours_and_minutes(sign: char, a: char, b: char, c: char, d: char)
    requires
        '0' as u32 <= a as u32 <= '9' as u32,
        '0' as u32 <= b as u32 <= '9' as u32,
        '0' as u32 <= c as u32 <= '9' as u32,
        '0' as u32 <= d as u32 <= '9' as u32,
        sign as u32 <= 0x7f,
    ensures
        ({
            let hours = 10 * (a as u32 - '0' as u32) + (b as u32 - '0' as u32);
            let minutes = 10 * (c as u32 - '0' as u32) + (d as u32 - '0' as u32);
            let r = zone_offset(seq![sign, a, b, c, d]);
            &&& sign == '+' ==> r == 3600 * hours + 60 * minutes
            &&& sign == '-' ==> r == -(3600 * hours + 60 * minutes)
            &&& sign != '+' && sign != '-' ==> r == 0
        }),
        zone_offset(seq![sign, a, b, c]) == 0,
        zone_offset(seq![sign, a, b]) == 0,
{
    vstd::utf8::is_ascii_chars_encode_utf8(seq![sign, a, b, c]);
    vstd::utf8::is_ascii_chars_encode_utf8(seq![sign, a, b]);
    lemma_zone_fields(sign, a, b, c, d);
    lemma_two_digits(a, b);
    lemma_two_digits(c, d);
}

proof fn lemma_two_digits(a: char, b: char)
    requires
        '0' as u32 <= a as u32 <= '9' as u32,
        '0' as u32 <= b as u32 <= '9' as u32,
    ensures
        text::signed(seq![a, b], i64::MIN as int, i64::MAX as int) == Some(
            10 * (a as u32 - '0' as u32) + (b as u32 - '0' as u32),
        ),
{
    let s = seq![a, b];
    assert(s[0] == a && s[1] == b);
    assert(s =~= seq![a].push(b));
    text::digits_are_read_by_place(Seq::empty(), a, 0);
    text::digits_are_read_by_place(seq![a], b, 0);
    text::numbers_may_have_signs(s, i64::MIN as int, i64::MAX as int);
}

/// A text is a date if it has at least six words, of which the second to the fifth are a day, a
/// month, a year and a time. Midnight at the start of 1970 is the zone's distance from zero, and a
/// later time of the same day is later by as many seconds.
pub proof fn clocks_count_from_the_epoch(s: Seq<char>, t: Seq<char>)
    ensures
        ({
            let a = text::words(text::trimmed(s));
            rfc2822(s) is Some <==> {
                &&& a.len() >= 6
                &&& text::unsigned(text::without_trailing(a[1], ','), u32::MAX as nat) is Some
                &&& month_number(a[2]) is Some
                &&& text::signed(a[3], i32::MIN as int, i32::MAX as int) is Some
                &&& time_of_day(a[4]) is Some
            }
        }),
        ({
            let a = text::words(text::trimmed(s));
            rfc2822(s) is Some && text::unsigned(
                text::without_trailing(a[1], ','),
                u32::MAX as nat,
            ) == Some(1nat) && month_number(a[2]) == Some(1u32) && text::signed(
                a[3],
                i32::MIN as int,
                i32::MAX as int,
            ) == Some(1970int) && time_of_day(a[4]) == Some(0int) ==> rfc2822(s)->0 as i64
                == -zone_offset(a[5])
        }),
        ({
            let a = text::words(text::trimmed(s));
            let b = text::words(text::trimmed(t));
            rfc2822(s) is Some && rfc2822(t) is Some && a[1] == b[1] && a[2] == b[2] && a[3] == b[3]
                && a[5] == b[5] ==> (rfc2822(t)->0 as i64) - (rfc2822(s)->0 as i64) == time_of_day(
                b[4],
            )->0 - time_of_day(a[4])->0
        }),
{
    if rfc2822(s) is Some {
        lemma_moment(s);
        let a = text::words(text::trimmed(s));
        civil_days_count_calendar_days(1970, 1, 1);
    }
    if rfc2822(t) is Some {
        lemma_moment(t);
    }
}

/// The next day at the same time is one day of seconds later.
pub proof fn days_last_a_day(s: Seq<char>, t: Seq<char>, y: i32, m: u32, d: u32)
    requires
        -0x7fff_fe00 <= y < i32::MAX,
        is_date(y as int, m as int, d as int),
        ({
            let a = text::words(text::trimmed(s));
            let b = text::words(text::trimmed(t));
            let next = next_day(y as int, m as int, d as int);
            &&& a.len() >= 6 && b.len() >= 6
            &&& a[4] == b[4] && a[5] == b[5]
            &&& text::unsigned(text::without_trailing(a[1], ','), u32::MAX as nat) == Some(d as nat)
            &&& month_number(a[2]) == Some(m)
            &&& text::signed(a[3], i32::MIN as int, i32::MAX as int) == Some(y as int)
            &&& text::unsigned(text::without_trailing(b[1], ','), u32::MAX as nat) == Some(
                next.2 as nat,
            )
            &&& month_number(b[2]) == Some(next.1 as u32)
            &&& text::signed(b[3], i32::MIN as int, i32::MAX as int) == Some(next.0)
        }),
    ensures
        rfc2822(s) is Some <==> rfc2822(t) is Some,
        rfc2822(s) is Some ==> (rfc2822(t)->0 as i64) - (rfc2822(s)->0 as i64) == 24 * 60 * 60,
{
    if rfc2822(s) is Some {
        lemma_moment(s);
        lemma_moment(t);
        civil_days_count_calendar_days(y, m, d);
    }
}

/// The seconds of a date, without the limits of a machine integer.
proof fn lemma_moment(s: Seq<char>)
    requires
        rfc2822(s) is Some,
    ensures
        ({
            let a = text::words(text::trimmed(s));
            let d = text::unsigned(text::without_trailing(a[1], ','), u32::MAX as nat)->0;
            let y = text::signed(a[3], i32::MIN as int, i32::MAX as int)->0;
            rfc2822(s)->0 as i64 == civil_days(y as i32, month_number(a[2])->0, d as u32) * 86400
                + time_of_day(a[4])->0 - zone_offset(a[5])
        }),
{
    let a = text::words(text::trimmed(s));
    let d = text::unsigned(text::without_trailing(a[1], ','), u32::MAX as nat)->0;
    let m = month_number(a[2])->0;
    let y = text::signed(a[3], i32::MIN as int, i32::MAX as int)->0;
    lemma_zone_bounds(a[5]);
    lemma_civil_bounds(y as i32, m, d as u32);
    let now = time_of_day(a[4])->0;
    assert(0 <= now <= 0x1000_0000_0000);
    let x = (civil_days(y as i32, m, d as u32) * 86400 + now - zone_offset(a[5])) as i64;
    assert((x as u64) as i64 == x) by (bit_vector);
}

/// A field of a zone that does not end in a digit counts as zero.
pub proof fn other_fields_of_zones_count_nothing(sign: char, a: char, b: char, c: char, d: char)
    requires
        '+' == sign || '-' == sign,
        a as u32 <= 0x7f,
        b as u32 <= 0x7f,
        !('0' as u32 <= b as u32 <= '9' as u32),
        '0' as u32 <= c as u32 <= '9' as u32,
        '0' as u32 <= d as u32 <= '9' as u32,
    ensures
        ({
            let minutes = 10 * (c as u32 - '0' as u32) + (d as u32 - '0' as u32);
            let hours = 3600 * minutes;
            &&& zone_offset(seq![sign, a, b, c, d]) == if sign == '+' {
                60 * minutes
            } else {
                -(60 * minutes)
            }
            &&& zone_offset(seq![sign, c, d, a, b]) == if sign == '+' {
                hours
            } else {
                -hours
            }
        }),
{
    lemma_zone_fields(sign, a, b, c, d);
    lemma_zone_fields(sign, c, d, a, b);
    lemma_two_digits(c, d);
    let s = seq![a, b];
    assert(s[0] == a && s[1] == b);
    assert(s =~= seq![a].push(b));
    assert(s.skip(1) =~= Seq::empty().push(b));
    let max = i64::MAX as nat;
    text::digits_are_read_by_place(seq![a], b, max);
    text::digits_are_read_by_place(Seq::empty(), b, max);
    text::digits_are_read_by_place(Seq::empty(), b, (-i64::MIN) as nat);
}

/// The two fields of a zone of plain characters.
proof fn lemma_zone_fields(sign: char, a: char, b: char, c: char, d: char)
    requires
        sign as u32 <= 0x7f,
        a as u32 <= 0x7f,
        b as u32 <= 0x7f,
        c as u32 <= 0x7f,
        d as u32 <= 0x7f,
    ensures
        ({
            let bytes = vstd::utf8::encode_utf8(seq![sign, a, b, c, d]);
            &&& bytes.len() == 5
            &&& bytes[0] == sign as u8
            &&& bytes.subrange(1, 3).map_values(|e: u8| e as char) == seq![a, b]
            &&& bytes.subrange(3, 5).map_values(|e: u8| e as char) == seq![c, d]
        }),
{
    let zone = seq![sign, a, b, c, d];
    let bytes = vstd::utf8::encode_utf8(zone);
    vstd::utf8::is_ascii_chars_encode_utf8(zone);
    assert(zone[0] == sign && zone[1] == a && zone[2] == b && zone[3] == c && zone[4] == d);
    assert(bytes[0] == sign as u8 && bytes[1] == a as u8 && bytes[2] == b as u8 && bytes[3]
        == c as u8 && bytes[4] == d as u8);
    assert(bytes.subrange(1, 3).map_values(|e: u8| e as char) =~= seq![a, b]);
    assert(bytes.subrange(3, 5).map_values(|e: u8| e as char) =~= seq![c, d]);
}

} // verus!
