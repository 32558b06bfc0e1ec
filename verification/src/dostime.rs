//! DOS timestamp conversion.
use crate::text;
use chrono::TimeZone;
use vstd::prelude::*;

verus! {

/// The six fields of a DOS timestamp.
pub struct DosFields {
    pub year: nat,
    pub month: nat,
    pub day: nat,
    pub hour: nat,
    pub min: nat,
    pub sec: nat,
}

/// The fields of a packed DOS timestamp:
///   bits 0-4:  seconds/2 (0-29)
///   bits 5-10: minutes (0-59)
///   bits 11-15: hours (0-23)
///   bits 16-20: day (1-31)
///   bits 21-24: month (1-12)
///   bits 25-31: year offset from 1980
pub open spec fn dos_fields(dostime: u32) -> DosFields {
    let d = dostime as nat;
    DosFields {
        year: d / 0x200_0000 + 1980,
        month: (d / 0x20_0000) % 16,
        day: (d / 0x1_0000) % 32,
        hour: (d / 0x800) % 32,
        min: (d / 0x20) % 64,
        sec: (d % 32) * 2,
    }
}

/// Whether a year has a 29th of February.
pub open spec fn is_leap(year: nat) -> bool {
    year % 4 == 0 && (year % 100 != 0 || year % 400 == 0)
}

/// The number of days of a month.
pub open spec fn month_days(year: nat, month: nat) -> nat {
    if month == 2 {
        if is_leap(year) {
            29
        } else {
            28
        }
    } else if month == 4 || month == 6 || month == 9 || month == 11 {
        30
    } else {
        31
    }
}

/// The number of days of a year before the first of a month.
pub open spec fn days_before_month(year: nat, month: nat) -> nat
    decreases month,
{
    if month <= 1 {
        0
    } else {
        days_before_month(year, (month - 1) as nat) + month_days(year, (month - 1) as nat)
    }
}

impl DosFields {
    /// Whether the fields name a day of the calendar and a time of that day.
    pub open spec fn exists_in_calendar(self) -> bool {
        &&& 1 <= self.month <= 12
        &&& 1 <= self.day <= month_days(self.year, self.month)
        &&& self.hour < 24
        &&& self.min < 60
        &&& self.sec < 60
    }

    /// The seconds from the start of 1970 to these fields, all read on one
    /// clock (719162 days lie between the start of year 1 and that of 1970).
    pub open spec fn seconds_since_1970(self) -> int {
        let past = self.year - 1;
        let days = past * 365 + past / 4 - past / 100 + past / 400 - 719162 + days_before_month(
            self.year,
            self.month,
        ) + self.day - 1;
        days * 86400 + self.hour * 3600 + self.min * 60 + self.sec
    }
}

/// A Unix timestamp as the count of seconds after the epoch, for the
/// timestamps that are not before it.
pub open spec fn after_epoch(timestamp: Option<i64>) -> Option<u64> {
    match timestamp {
        Some(t) if t >= 0 => Some(t as u64),
        _ => None,
    }
}

/// Six numbers as the fields of a time.
pub open spec fn plain_fields(
    year: u32,
    month: u32,
    day: u32,
    hour: u32,
    min: u32,
    sec: u32,
) -> DosFields {
    DosFields {
        year: year as nat,
        month: month as nat,
        day: day as nat,
        hour: hour as nat,
        min: min as nat,
        sec: sec as nat,
    }
}

/// The timestamp of a local wall-clock time by chrono's
/// `Local.with_ymd_and_hms(..).earliest()`. Fields that name no time of the
/// calendar give `None`, and so does a wall-clock time that the local zone
/// skips. Where there is a timestamp, it is the same wall-clock time taken as
/// UTC and moved by the zone's offset, which is less than a day. Which offset
/// the machine's zone has, and which wall-clock times it skips, is left open.
#[verifier::external_body]
fn local_timestamp(year: u32, month: u32, day: u32, hour: u32, min: u32, sec: u32) -> (r: Option<
    i64,
>)
    requires
        1980 <= year <= 2107,
    ensures
        r is Some ==> plain_fields(year, month, day, hour, min, sec).exists_in_calendar(),
        r matches Some(t) ==> -86400 < t - plain_fields(
            year,
            month,
            day,
            hour,
            min,
            sec,
        ).seconds_since_1970() < 86400,
{
    chrono::Local.with_ymd_and_hms(year as i32, month, day, hour, min, sec).earliest().map(
        |local| local.timestamp(),
    )
}

/// Whether the local zone gave this answer when it was asked for a wall-clock
/// time. It may answer otherwise at another time, or on another machine.
pub closed spec fn zone_answered(
    year: u32,
    month: u32,
    day: u32,
    hour: u32,
    min: u32,
    sec: u32,
    answer: Option<i64>,
) -> bool {
    call_ensures(local_timestamp, (year, month, day, hour, min, sec), answer)
}

/// An answer of the local zone is nothing but what a call for that wall-clock
/// time returned.
proof fn lemma_answers_come_from_calls(
    year: u32,
    month: u32,
    day: u32,
    hour: u32,
    min: u32,
    sec: u32,
    answer: Option<i64>,
)
    ensures
        zone_answered(year, month, day, hour, min, sec, answer) <==> call_ensures(
            local_timestamp,
            (year, month, day, hour, min, sec),
            answer,
        ),
{
}

/// A Unix timestamp as the count of seconds after the epoch, or `None` where
/// there is no timestamp or it lies before the epoch.
pub fn seconds_after_epoch(timestamp: Option<i64>) -> (r: Option<u64>)
    ensures
        r == after_epoch(timestamp),
        timestamp is None ==> r is None,
        timestamp matches Some(t) ==> (if t >= 0 {
            r matches Some(n) && n == t
        } else {
            r is None
        }),
{
    match timestamp {
        Some(t) => if t >= 0 {
            Some(t as u64)
        } else {
            None
        },
        None => None,
    }
}

/// The seconds from the start of 1970 to the given day are more than a day
/// for every year that a DOS timestamp can hold.
proof fn lemma_after_1979(fields: DosFields)
    requires
        1980 <= fields.year <= 2107,
        fields.day >= 1,
    ensures
        fields.seconds_since_1970() > 86400,
{
    let past = fields.year - 1;
    assert(past * 365 >= 1979 * 365);
    assert(past / 4 - past / 100 >= 0);
}

/// Convert DOS date/time (as stored in ALZ headers) to the time of the system
/// clock, as seconds after the Unix epoch.
///
/// DOS time carries no zone; it is local wall-clock time. A DST gap makes the
/// stamp nonexistent locally; a DST overlap makes it ambiguous, where the
/// earlier reading is the conventional choice.
pub fn dos_datetime_to_systime(dostime: u32) -> (r: Option<u64>)
    ensures
        !dos_fields(dostime).exists_in_calendar() ==> r is None,
        r matches Some(secs) ==> -86400 < secs - dos_fields(dostime).seconds_since_1970() < 86400,
        // For every month and day of that range the result is what the local
        // zone answered when asked for exactly the fields of the stamp.
        1 <= dostime / 0x20_0000 % 16 <= 12 && 1 <= dostime / 0x1_0000 % 32 ==> exists|
            answer: Option<i64>,
        | #[trigger]
            zone_answered(
                (dostime / 0x200_0000 + 1980) as u32,
                (dostime / 0x20_0000 % 16) as u32,
                (dostime / 0x1_0000 % 32) as u32,
                (dostime / 0x800 % 32) as u32,
                (dostime / 0x20 % 64) as u32,
                (dostime % 32 * 2) as u32,
                answer,
            ) && r == (match answer {
                Some(t) if t >= 0 => Some(t as u64),
                _ => None,
            }),
{
    match split_fields(dostime) {
        Some((year, month, day, hour, min, sec)) => {
            proof {
                lemma_after_1979(dos_fields(dostime));
            }
            let answer = local_timestamp(year, month, day, hour, min, sec);
            proof {
                assert((dostime / 0x200_0000 + 1980) as u32 == year);
                assert((dostime / 0x20_0000 % 16) as u32 == month);
                assert((dostime / 0x1_0000 % 32) as u32 == day);
                assert((dostime / 0x800 % 32) as u32 == hour);
                assert((dostime / 0x20 % 64) as u32 == min);
                assert((dostime % 32 * 2) as u32 == sec);
                assert(zone_answered(year, month, day, hour, min, sec, answer));
            }
            seconds_after_epoch(answer)
        },
        None => None,
    }
}

/// The year, month, day, hour, minute and second of a DOS timestamp, as long
/// as the month and the day are in their calendar ranges.
pub fn split_fields(dostime: u32) -> (r: Option<(u32, u32, u32, u32, u32, u32)>)
    ensures
        ({
            let f = dos_fields(dostime);
            match r {
                Some((year, month, day, hour, min, sec)) => {
                    &&& 1 <= f.month <= 12 && 1 <= f.day <= 31
                    &&& year == f.year && month == f.month && day == f.day
                    &&& hour == f.hour && min == f.min && sec == f.sec
                },
                None => !(1 <= f.month <= 12 && 1 <= f.day <= 31),
            }
        }),
{
    let (year, month, day, hour, min, sec) = unpack(dostime);
    if !(1 <= month && month <= 12) || !(1 <= day && day <= 31) {
        return None;
    }
    Some((year, month, day, hour, min, sec))
}

/// The six fields of a DOS timestamp as they are.
fn unpack(dostime: u32) -> (r: (u32, u32, u32, u32, u32, u32))
    ensures
        ({
            let f = dos_fields(dostime);
            let (year, month, day, hour, min, sec) = r;
            &&& year == f.year && month == f.month && day == f.day
            &&& hour == f.hour && min == f.min && sec == f.sec
        }),
{
    assert((dostime >> 25) & 0x7f == dostime / 0x200_0000 && (dostime >> 25) & 0x7f < 128
        && (dostime >> 21) & 0x0f == (dostime / 0x20_0000) % 16 && (dostime >> 16) & 0x1f == (
    dostime / 0x1_0000) % 32 && (dostime >> 11) & 0x1f == (dostime / 0x800) % 32 && (dostime >> 5)
        & 0x3f == (dostime / 0x20) % 64 && (dostime & 0x1f) << 1 == (dostime % 32) * 2)
        by (bit_vector);
    let sec: u32 = (dostime & 0x1f) << 1;
    let min: u32 = (dostime >> 5) & 0x3f;
    let hour: u32 = (dostime >> 11) & 0x1f;
    let day: u32 = (dostime >> 16) & 0x1f;
    let month: u32 = (dostime >> 21) & 0x0f;
    let year: u32 = ((dostime >> 25) & 0x7f) + 1980;
    (year, month, day, hour, min, sec)
}

/// A DOS timestamp for display: YYYY-MM-DD HH:MM:SS.
pub open spec fn dos_text(dostime: u32) -> Seq<char> {
    let f = dos_fields(dostime);
    text::zero_padded(f.year, 4) + "-"@ + text::zero_padded(f.month, 2) + "-"@ + text::zero_padded(
        f.day,
        2,
    ) + " "@ + text::zero_padded(f.hour, 2) + ":"@ + text::zero_padded(f.min, 2) + ":"@
        + text::zero_padded(f.sec, 2)
}

/// Format DOS datetime for display (YYYY-MM-DD HH:MM:SS).
pub fn dos_datetime_to_string(dostime: u32) -> (s: String)
    ensures
        s@ == dos_text(dostime),
{
    let (year, month, day, hour, min, sec) = unpack(dostime);
    let mut s: String = String::new();
    text::push_number(&mut s, year as u64, 10, 4, '0');
    s.append("-");
    text::push_number(&mut s, month as u64, 10, 2, '0');
    s.append("-");
    text::push_number(&mut s, day as u64, 10, 2, '0');
    s.append(" ");
    text::push_number(&mut s, hour as u64, 10, 2, '0');
    s.append(":");
    text::push_number(&mut s, min as u64, 10, 2, '0');
    s.append(":");
    text::push_number(&mut s, sec as u64, 10, 2, '0');
    assert(s@ =~= dos_text(dostime));
    s
}

/// The fields hold the whole timestamp: packing them again gives it back.
pub proof fn lemma_dos_fields_hold_everything(dostime: u32)
    ensures
        ({
            let f = dos_fields(dostime);
            dostime == (f.year - 1980) * 0x200_0000 + f.month * 0x20_0000 + f.day * 0x1_0000
                + f.hour * 0x800 + f.min * 0x20 + f.sec / 2
        }),
{
    assert(dostime == (dostime / 0x200_0000) * 0x200_0000 + ((dostime / 0x20_0000) % 16) * 0x20_0000
        + ((dostime / 0x1_0000) % 32) * 0x1_0000 + ((dostime / 0x800) % 32) * 0x800 + ((dostime
        / 0x20) % 64) * 0x20 + dostime % 32) by (bit_vector);
}

/// The fields of a timestamp are within their bits.
pub proof fn lemma_field_bounds(dostime: u32)
    ensures
        ({
            let f = dos_fields(dostime);
            &&& 1980 <= f.year <= 2107
            &&& f.month < 16
            &&& f.day < 32
            &&& f.hour < 32
            &&& f.min < 64
            &&& f.sec <= 62
            &&& f.sec % 2 == 0
        }),
{
}

/// The two digits of a field.
pub open spec fn two_digits(n: nat) -> Seq<char> {
    seq![text::digit_char(n / 10), text::digit_char(n % 10)]
}

/// The four digits of a year.
pub open spec fn four_digits(n: nat) -> Seq<char> {
    seq![
        text::digit_char(n / 1000),
        text::digit_char(n / 100 % 10),
        text::digit_char(n / 10 % 10),
        text::digit_char(n % 10),
    ]
}

/// Whether a text has nineteen characters and shows the fields in the form
/// YYYY-MM-DD HH:MM:SS.
pub open spec fn shows(t: Seq<char>, f: DosFields) -> bool {
    &&& t.len() == 19
    &&& t.subrange(0, 4) == four_digits(f.year)
    &&& t[4] == '-'
    &&& t.subrange(5, 7) == two_digits(f.month)
    &&& t[7] == '-'
    &&& t.subrange(8, 10) == two_digits(f.day)
    &&& t[10] == ' '
    &&& t.subrange(11, 13) == two_digits(f.hour)
    &&& t[13] == ':'
    &&& t.subrange(14, 16) == two_digits(f.min)
    &&& t[16] == ':'
    &&& t.subrange(17, 19) == two_digits(f.sec)
}

/// A displayed timestamp always has nineteen characters, in the form
/// YYYY-MM-DD HH:MM:SS.
pub proof fn lemma_dos_text_is_aligned(dostime: u32)
    ensures
        dos_text(dostime).len() == 19,
        shows(dos_text(dostime), dos_fields(dostime)),
{
    let f = dos_fields(dostime);
    let t = dos_text(dostime);
    reveal_strlit("-");
    reveal_strlit(" ");
    reveal_strlit(":");
    lemma_field_bounds(dostime);
    text::lemma_four_digits(f.year);
    text::lemma_two_digits(f.month);
    text::lemma_two_digits(f.day);
    text::lemma_two_digits(f.hour);
    text::lemma_two_digits(f.min);
    text::lemma_two_digits(f.sec);
    assert(t.subrange(0, 4) =~= four_digits(f.year));
    assert(t.subrange(5, 7) =~= two_digits(f.month));
    assert(t.subrange(8, 10) =~= two_digits(f.day));
    assert(t.subrange(11, 13) =~= two_digits(f.hour));
    assert(t.subrange(14, 16) =~= two_digits(f.min));
    assert(t.subrange(17, 19) =~= two_digits(f.sec));
}

/// Of two texts that agree before `at`, the one with the lesser field there
/// comes first.
proof fn lemma_field_decides(a: Seq<char>, b: Seq<char>, at: int, m: nat, n: nat)
    requires
        a.len() == 19,
        b.len() == 19,
        0 <= at <= 17,
        forall|j: int| 0 <= j < at ==> a[j] == b[j],
        a.subrange(at, at + 2) == two_digits(m),
        b.subrange(at, at + 2) == two_digits(n),
        m < n < 100,
    ensures
        text::comes_before(a, b),
{
    assert(a[at] == a.subrange(at, at + 2)[0] && a[at + 1] == a.subrange(at, at + 2)[1]);
    assert(b[at] == b.subrange(at, at + 2)[0] && b[at + 1] == b.subrange(at, at + 2)[1]);
    if m / 10 < n / 10 {
        lemma_digit_decides(a, b, at, m / 10, n / 10);
    } else {
        lemma_digit_decides(a, b, at + 1, m % 10, n % 10);
    }
}

/// Texts of the same field agree on it.
proof fn lemma_same_field(a: Seq<char>, b: Seq<char>, at: int, n: nat)
    requires
        a.len() == 19,
        b.len() == 19,
        0 <= at <= 17,
        a.subrange(at, at + 2) == two_digits(n),
        b.subrange(at, at + 2) == two_digits(n),
    ensures
        a[at] == b[at],
        a[at + 1] == b[at + 1],
{
    assert(a[at] == a.subrange(at, at + 2)[0] && a[at + 1] == a.subrange(at, at + 2)[1]);
    assert(b[at] == b.subrange(at, at + 2)[0] && b[at + 1] == b.subrange(at, at + 2)[1]);
}

/// Whether one time is before another, field by field.
spec fn is_before(f: DosFields, g: DosFields) -> bool {
    ||| f.year < g.year
    ||| f.year == g.year && f.month < g.month
    ||| f.year == g.year && f.month == g.month && f.day < g.day
    ||| f.year == g.year && f.month == g.month && f.day == g.day && f.hour < g.hour
    ||| f.year == g.year && f.month == g.month && f.day == g.day && f.hour == g.hour && f.min
        < g.min
    ||| f.year == g.year && f.month == g.month && f.day == g.day && f.hour == g.hour && f.min
        == g.min && f.sec < g.sec
}

/// The first digit that differs is less in the lesser number.
proof fn lemma_year_digits(m: nat, n: nat)
    requires
        m < n < 10000,
    ensures
        m / 1000 < 10 && n / 1000 < 10,
        m / 1000 <= n / 1000,
        m / 1000 == n / 1000 ==> m / 100 % 10 <= n / 100 % 10,
        m / 1000 == n / 1000 && m / 100 % 10 == n / 100 % 10 ==> m / 10 % 10 <= n / 10 % 10,
        m / 1000 == n / 1000 && m / 100 % 10 == n / 100 % 10 && m / 10 % 10 == n / 10 % 10 ==> m
            % 10 < n % 10,
{
    assert(m / 100 == 10 * (m / 1000) + m / 100 % 10);
    assert(n / 100 == 10 * (n / 1000) + n / 100 % 10);
    assert(m / 10 == 10 * (m / 100) + m / 10 % 10);
    assert(n / 10 == 10 * (n / 100) + n / 10 % 10);
}

/// Texts whose first differing character is at `k` and less in the first.
proof fn lemma_digit_decides(s: Seq<char>, t: Seq<char>, k: int, c: nat, d: nat)
    requires
        0 <= k < s.len(),
        k < t.len(),
        forall|j: int| 0 <= j < k ==> s[j] == t[j],
        s[k] == text::digit_char(c),
        t[k] == text::digit_char(d),
        c < d < 10,
    ensures
        text::comes_before(s, t),
{
    text::lemma_digits_in_order(c, d);
    assert(text::less_at(s, t, k));
}

/// The years of two texts decide their order, or agree.
proof fn lemma_year_decides(s: Seq<char>, t: Seq<char>, m: nat, n: nat)
    requires
        s.len() == 19,
        t.len() == 19,
        s.subrange(0, 4) == four_digits(m),
        t.subrange(0, 4) == four_digits(n),
        m <= n < 10000,
    ensures
        m < n ==> text::comes_before(s, t),
        m == n ==> forall|j: int| 0 <= j < 4 ==> s[j] == t[j],
{
    assert(s[0] == s.subrange(0, 4)[0] && t[0] == t.subrange(0, 4)[0]);
    assert(s[1] == s.subrange(0, 4)[1] && t[1] == t.subrange(0, 4)[1]);
    assert(s[2] == s.subrange(0, 4)[2] && t[2] == t.subrange(0, 4)[2]);
    assert(s[3] == s.subrange(0, 4)[3] && t[3] == t.subrange(0, 4)[3]);
    if m < n {
        lemma_year_digits(m, n);
        let (a, b) = (m / 1000, n / 1000);
        let (c, d) = (m / 100 % 10, n / 100 % 10);
        let (e, f) = (m / 10 % 10, n / 10 % 10);
        if a < b {
            lemma_digit_decides(s, t, 0, a, b);
        } else if c < d {
            lemma_digit_decides(s, t, 1, c, d);
        } else if e < f {
            lemma_digit_decides(s, t, 2, e, f);
        } else {
            lemma_digit_decides(s, t, 3, m % 10, n % 10);
        }
    }
}

/// Texts are in the order of the times they show.
proof fn lemma_shown_in_order(s: Seq<char>, t: Seq<char>, f: DosFields, g: DosFields)
    requires
        shows(s, f),
        shows(t, g),
        is_before(f, g),
        g.year < 10000,
        g.month < 100,
        g.day < 100,
        g.hour < 100,
        g.min < 100,
        g.sec < 100,
    ensures
        text::comes_before(s, t),
{
    lemma_year_decides(s, t, f.year, g.year);
    if f.year < g.year {
    } else if f.month < g.month {
        lemma_field_decides(s, t, 5, f.month, g.month);
    } else {
        lemma_same_field(s, t, 5, f.month);
        if f.day < g.day {
            lemma_field_decides(s, t, 8, f.day, g.day);
        } else {
            lemma_same_field(s, t, 8, f.day);
            if f.hour < g.hour {
                lemma_field_decides(s, t, 11, f.hour, g.hour);
            } else {
                lemma_same_field(s, t, 11, f.hour);
                if f.min < g.min {
                    lemma_field_decides(s, t, 14, f.min, g.min);
                } else {
                    lemma_same_field(s, t, 14, f.min);
                    lemma_field_decides(s, t, 17, f.sec, g.sec);
                }
            }
        }
    }
}

/// The fields of an earlier timestamp are an earlier time.
proof fn lemma_fields_in_order(a: u32, b: u32)
    requires
        a < b,
    ensures
        is_before(dos_fields(a), dos_fields(b)),
{
    lemma_dos_fields_hold_everything(a);
    lemma_dos_fields_hold_everything(b);
    lemma_field_bounds(a);
    lemma_field_bounds(b);
    assert(dos_fields(a).sec == 2 * (dos_fields(a).sec / 2));
    assert(dos_fields(b).sec == 2 * (dos_fields(b).sec / 2));
}

/// The text of an earlier timestamp comes first.
proof fn lemma_earlier_comes_first(a: u32, b: u32)
    requires
        a < b,
    ensures
        text::comes_before(dos_text(a), dos_text(b)),
{
    lemma_fields_in_order(a, b);
    lemma_field_bounds(b);
    lemma_dos_text_is_aligned(a);
    lemma_dos_text_is_aligned(b);
    lemma_shown_in_order(dos_text(a), dos_text(b), dos_fields(a), dos_fields(b));
}

/// Displayed timestamps are in the order of the timestamps, so different
/// timestamps never look alike.
pub proof fn lemma_dos_texts_are_in_order(a: u32, b: u32)
    ensures
        a < b <==> text::comes_before(dos_text(a), dos_text(b)),
        a == b <==> dos_text(a) == dos_text(b),
{
    if a < b {
        lemma_earlier_comes_first(a, b);
        text::lemma_order_is_strict(dos_text(a), dos_text(b));
    } else if b < a {
        lemma_earlier_comes_first(b, a);
        text::lemma_order_is_strict(dos_text(b), dos_text(a));
    } else if text::comes_before(dos_text(a), dos_text(b)) {
        text::lemma_order_is_strict(dos_text(a), dos_text(b));
    }
}

/// The fields are the only ones within their bits that the timestamp packs.
pub proof fn lemma_fields_are_the_only_ones(
    dostime: u32,
    year: nat,
    month: nat,
    day: nat,
    hour: nat,
    min: nat,
    half: nat,
)
    requires
        dostime == (year - 1980) * 0x200_0000 + month * 0x20_0000 + day * 0x1_0000 + hour * 0x800
            + min * 0x20 + half,
        1980 <= year <= 2107,
        month < 16,
        day < 32,
        hour < 32,
        min < 64,
        half < 32,
    ensures
        dos_fields(dostime) == (DosFields { year, month, day, hour, min, sec: 2 * half }),
{
    let d = dostime as int;
    let y = year - 1980;
    assert(d / 0x20 == y * 0x10_0000 + month * 0x1_0000 + day * 0x800 + hour * 0x40 + min);
    assert(d % 32 == half);
    let e = d / 0x20;
    assert(d / 0x800 == e / 0x40);
    assert(e % 64 == min && e / 0x40 == y * 0x4000 + month * 0x400 + day * 0x20 + hour);
    let g = e / 0x40;
    assert(d / 0x1_0000 == g / 0x20);
    assert(g % 32 == hour && g / 0x20 == y * 0x200 + month * 0x20 + day);
    let h = g / 0x20;
    assert(d / 0x20_0000 == h / 0x20);
    assert(h % 32 == day && h / 0x20 == y * 0x10 + month);
    let k = h / 0x20;
    assert(d / 0x200_0000 == k / 0x10);
    assert(k % 16 == month && k / 0x10 == y);
}

/// A year has the days of its months: the months have thirty or thirty-one,
/// but February twenty-eight, and one more in a leap year, which is every
/// fourth, but of the full centuries only every fourth.
pub proof fn lemma_calendar(f: DosFields)
    ensures
        f.exists_in_calendar() <==> {
            let leap = f.year % 4 == 0 && f.year % 100 != 0 || f.year % 400 == 0;
            let long = f.month == 1 || f.month == 3 || f.month == 5 || f.month == 7 || f.month == 8
                || f.month == 10 || f.month == 12;
            &&& 1 <= f.month <= 12
            &&& 1 <= f.day <= 31
            &&& f.day == 31 ==> long
            &&& f.month == 2 ==> f.day <= 29 && (f.day == 29 ==> leap)
            &&& f.hour <= 23
            &&& f.min <= 59
            &&& f.sec <= 59
        },
{
}

/// Time goes on: a second, a minute and an hour are what they are; the day
/// after a day is a day later, also where that is the first of the next month
/// or of the next year; and it starts with the year 1970.
pub proof fn lemma_time_goes_on(f: DosFields)
    requires
        f.exists_in_calendar(),
        f.year >= 1,
    ensures
        f.seconds_since_1970() == (DosFields { hour: 0, min: 0, sec: 0, ..f }).seconds_since_1970()
            + 3600 * f.hour + 60 * f.min + f.sec,
        (DosFields { day: f.day + 1, ..f }).seconds_since_1970() == f.seconds_since_1970() + 86400,
        f.day == month_days(f.year, f.month) && f.month < 12 ==> (DosFields {
            month: f.month + 1,
            day: 1,
            ..f
        }).seconds_since_1970() == f.seconds_since_1970() + 86400,
        f.day == 31 && f.month == 12 ==> (DosFields {
            year: f.year + 1,
            month: 1,
            day: 1,
            ..f
        }).seconds_since_1970() == f.seconds_since_1970() + 86400,
        f.year == 1970 && f.month == 1 && f.day == 1 && f.hour == 0 && f.min == 0 && f.sec == 0
            ==> f.seconds_since_1970() == 0,
{
    if f.month == 12 {
        lemma_days_of_a_year(f.year);
        let y = f.year as int;
        let past = y - 1;
        assert(y / 4 - past / 4 == if y % 4 == 0 {
            1int
        } else {
            0
        });
        assert(y / 100 - past / 100 == if y % 100 == 0 {
            1int
        } else {
            0
        });
        assert(y / 400 - past / 400 == if y % 400 == 0 {
            1int
        } else {
            0
        });
        assert(y % 100 == 0 ==> y % 4 == 0);
        assert(y % 400 == 0 ==> y % 100 == 0);
    }
    if f.month < 12 {
        assert(days_before_month(f.year, f.month + 1) == days_before_month(f.year, f.month)
            + month_days(f.year, f.month));
    }
}

proof fn lemma_days_of_a_year(year: nat)
    ensures
        days_before_month(year, 12) + 31 == if is_leap(year) {
            366nat
        } else {
            365
        },
{
    reveal_with_fuel(days_before_month, 13);
}

} // verus!
