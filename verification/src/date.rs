use vstd::prelude::*;
use vstd::string::StrSliceExecFns;
use vstd::string::StringExecFns;

verus! {

/// A calendar date, held as plain year / month / day numbers.
#[derive(Clone, Copy, PartialEq, Eq, Structural, Debug)]
pub struct Date {
    pub year: u32,
    pub month: u32,
    pub day: u32,
}

impl Date {
    /// A date is valid when its fields describe a real day of the
    /// Gregorian calendar with a four-digit year.
    pub open spec fn valid(self) -> bool {
        &&& self.year <= 9999
        &&& 1 <= self.month <= 12
        &&& 1 <= self.day <= days_in_month(self.year, self.month)
    }

    /// A single integer that orders dates chronologically.
    pub open spec fn key(self) -> int {
        self.year * 10000 + self.month * 100 + self.day
    }
}

pub open spec fn is_leap_year(y: u32) -> bool {
    (y % 4 == 0 && y % 100 != 0) || y % 400 == 0
}

pub open spec fn days_in_month(y: u32, m: u32) -> u32 {
    if m == 2 {
        if is_leap_year(y) {
            29
        } else {
            28
        }
    } else if m == 4 || m == 6 || m == 9 || m == 11 {
        30
    } else {
        31
    }
}

/// Two valid dates with the same key are the same date.
pub proof fn lemma_key_injective(a: Date, b: Date)
    requires
        a.valid(),
        b.valid(),
        a.key() == b.key(),
    ensures
        a == b,
{
}

/// Chronological comparison of two dates.
pub fn date_lt(a: &Date, b: &Date) -> (r: bool)
    requires
        a.valid(),
        b.valid(),
    ensures
        r == (a.key() < b.key()),
{
    if a.year != b.year {
        a.year < b.year
    } else if a.month != b.month {
        a.month < b.month
    } else {
        a.day < b.day
    }
}

pub open spec fn is_digit(c: char) -> bool {
    '0' <= c <= '9'
}

pub open spec fn digit_val(c: char) -> int {
    c as int - '0' as int
}

pub open spec fn digit_char(v: int) -> char {
    if v == 0 {
        '0'
    } else if v == 1 {
        '1'
    } else if v == 2 {
        '2'
    } else if v == 3 {
        '3'
    } else if v == 4 {
        '4'
    } else if v == 5 {
        '5'
    } else if v == 6 {
        '6'
    } else if v == 7 {
        '7'
    } else if v == 8 {
        '8'
    } else {
        '9'
    }
}

/// The shape `YYYY-MM-DD`.
pub open spec fn is_date_seq(s: Seq<char>) -> bool {
    &&& s.len() == 10
    &&& is_digit(s[0])
    &&& is_digit(s[1])
    &&& is_digit(s[2])
    &&& is_digit(s[3])
    &&& s[4] == '-'
    &&& is_digit(s[5])
    &&& is_digit(s[6])
    &&& s[7] == '-'
    &&& is_digit(s[8])
    &&& is_digit(s[9])
}

pub open spec fn date_of_seq(s: Seq<char>) -> Date {
    Date {
        year: (digit_val(s[0]) * 1000 + digit_val(s[1]) * 100 + digit_val(s[2]) * 10 + digit_val(
            s[3],
        )) as u32,
        month: (digit_val(s[5]) * 10 + digit_val(s[6])) as u32,
        day: (digit_val(s[8]) * 10 + digit_val(s[9])) as u32,
    }
}

/// What parsing a `YYYY-MM-DD` string yields: the date, when the string
/// has the shape and names a real calendar day; nothing otherwise.
pub open spec fn parse_date_spec(s: Seq<char>) -> Option<Date> {
    if is_date_seq(s) && date_of_seq(s).valid() {
        Some(date_of_seq(s))
    } else {
        None
    }
}

fn digit_of(c: char) -> (r: Option<u32>)
    ensures
        r == if is_digit(c) {
            Some(digit_val(c) as u32)
        } else {
            None::<u32>
        },
{
    if '0' <= c && c <= '9' {
        Some(c as u32 - 48)
    } else {
        None
    }
}

fn exec_days_in_month(y: u32, m: u32) -> (r: u32)
    ensures
        r == days_in_month(y, m),
{
    if m == 2 {
        if (y % 4 == 0 && y % 100 != 0) || y % 400 == 0 {
            29
        } else {
            28
        }
    } else if m == 4 || m == 6 || m == 9 || m == 11 {
        30
    } else {
        31
    }
}

/// Parses a `YYYY-MM-DD` string into a date.
pub fn parse_date(s: &str) -> (r: Option<Date>)
    ensures
        r == parse_date_spec(s@),
        r is Some ==> r->0.valid(),
{
    if s.unicode_len() != 10 {
        return None;
    }
    if s.get_char(4) != '-' || s.get_char(7) != '-' {
        return None;
    }
    let d0 = digit_of(s.get_char(0));
    let d1 = digit_of(s.get_char(1));
    let d2 = digit_of(s.get_char(2));
    let d3 = digit_of(s.get_char(3));
    let d5 = digit_of(s.get_char(5));
    let d6 = digit_of(s.get_char(6));
    let d8 = digit_of(s.get_char(8));
    let d9 = digit_of(s.get_char(9));
    match (d0, d1, d2, d3, d5, d6, d8, d9) {
        (
            Some(a),
            Some(b),
            Some(c),
            Some(d),
            Some(e),
            Some(f),
            Some(g),
            Some(h),
        ) => {
            let year = a * 1000 + b * 100 + c * 10 + d;
            let month = e * 10 + f;
            let day = g * 10 + h;
            if 1 <= month && month <= 12 && 1 <= day && day <= exec_days_in_month(year, month) {
                Some(Date { year, month, day })
            } else {
                None
            }
        },
        _ => None,
    }
}

/// The canonical `YYYY-MM-DD` rendering of a date.
pub open spec fn date_seq_of(d: Date) -> Seq<char> {
    seq![
        digit_char(d.year as int / 1000),
        digit_char((d.year as int / 100) % 10),
        digit_char((d.year as int / 10) % 10),
        digit_char(d.year as int % 10),
        '-',
        digit_char(d.month as int / 10),
        digit_char(d.month as int % 10),
        '-',
        digit_char(d.day as int / 10),
        digit_char(d.day as int % 10),
    ]
}

fn push_digit(s: &mut String, v: u32)
    requires
        v <= 9,
    ensures
        final(s)@ == old(s)@.push(digit_char(v as int)),
{
    proof {
        reveal_strlit("0");
        reveal_strlit("1");
        reveal_strlit("2");
        reveal_strlit("3");
        reveal_strlit("4");
        reveal_strlit("5");
        reveal_strlit("6");
        reveal_strlit("7");
        reveal_strlit("8");
        reveal_strlit("9");
    }
    match v {
        0 => s.append("0"),
        1 => s.append("1"),
        2 => s.append("2"),
        3 => s.append("3"),
        4 => s.append("4"),
        5 => s.append("5"),
        6 => s.append("6"),
        7 => s.append("7"),
        8 => s.append("8"),
        _ => s.append("9"),
    }
    proof {
        assert(final(s)@ =~= old(s)@.push(digit_char(v as int)));
    }
}

/// Renders a date as `YYYY-MM-DD`.
pub fn format_date(d: &Date) -> (r: String)
    requires
        d.valid(),
    ensures
        r@ == date_seq_of(*d),
{
    let mut s = String::new();
    push_digit(&mut s, d.year / 1000);
    push_digit(&mut s, (d.year / 100) % 10);
    push_digit(&mut s, (d.year / 10) % 10);
    push_digit(&mut s, d.year % 10);
    proof {
        reveal_strlit("-");
    }
    s.append("-");
    push_digit(&mut s, d.month / 10);
    push_digit(&mut s, d.month % 10);
    s.append("-");
    push_digit(&mut s, d.day / 10);
    push_digit(&mut s, d.day % 10);
    proof {
        assert(s@ =~= date_seq_of(*d));
    }
    s
}

/// Rendering a date and parsing the result yields the date again.
pub proof fn lemma_date_roundtrip(d: Date)
    requires
        d.valid(),
    ensures
        parse_date_spec(date_seq_of(d)) == Some(d),
{
    let s = date_seq_of(d);
    let y = d.year as int;
    assert(y / 1000 * 1000 + (y / 100) % 10 * 100 + (y / 10) % 10 * 10 + y % 10 == y);
    let m = d.month as int;
    assert(m / 10 * 10 + m % 10 == m);
    let dd = d.day as int;
    assert(dd / 10 * 10 + dd % 10 == dd);
    assert(date_of_seq(s) == d);
}

/// The shape `YYYY-MM-DDTHH:MM:SSZ` with a clock time of a real day.
pub open spec fn is_timestamp_seq(s: Seq<char>) -> bool {
    &&& s.len() == 20
    &&& is_date_seq(s.take(10))
    &&& s[10] == 'T'
    &&& is_digit(s[11])
    &&& is_digit(s[12])
    &&& s[13] == ':'
    &&& is_digit(s[14])
    &&& is_digit(s[15])
    &&& s[16] == ':'
    &&& is_digit(s[17])
    &&& is_digit(s[18])
    &&& s[19] == 'Z'
    &&& digit_val(s[11]) * 10 + digit_val(s[12]) <= 23
    &&& digit_val(s[14]) * 10 + digit_val(s[15]) <= 59
    &&& digit_val(s[17]) * 10 + digit_val(s[18]) <= 59
}

/// What parsing an ascent timestamp yields: its calendar-date part,
/// when the whole string is well-formed; nothing otherwise.
pub open spec fn parse_timestamp_spec(s: Seq<char>) -> Option<Date> {
    if is_timestamp_seq(s) && date_of_seq(s.take(10)).valid() {
        Some(date_of_seq(s.take(10)))
    } else {
        None
    }
}

/// Parses a `YYYY-MM-DDTHH:MM:SSZ` timestamp, keeping the date part.
pub fn parse_timestamp(s: &str) -> (r: Option<Date>)
    ensures
        r == parse_timestamp_spec(s@),
        r is Some ==> r->0.valid(),
{
    let n = s.unicode_len();
    if n != 20 {
        return None;
    }
    if s.get_char(10) != 'T' || s.get_char(13) != ':' || s.get_char(16) != ':' || s.get_char(19)
        != 'Z' {
        return None;
    }
    let h1 = digit_of(s.get_char(11));
    let h2 = digit_of(s.get_char(12));
    let m1 = digit_of(s.get_char(14));
    let m2 = digit_of(s.get_char(15));
    let s1 = digit_of(s.get_char(17));
    let s2 = digit_of(s.get_char(18));
    match (h1, h2, m1, m2, s1, s2) {
        (Some(a), Some(b), Some(c), Some(d), Some(e), Some(f)) => {
            if a * 10 + b <= 23 && c * 10 + d <= 59 && e * 10 + f <= 59 {
                let date_part = s.substring_char(0, 10);
                proof {
                    assert(date_part@ =~= s@.take(10));
                }
                parse_date(date_part)
            } else {
                None
            }
        },
        _ => None,
    }
}


/// Whether the fields describe a real calendar day.
pub fn date_is_valid(d: &Date) -> (r: bool)
    ensures
        r == d.valid(),
{
    d.year <= 9999 && 1 <= d.month && d.month <= 12 && 1 <= d.day && d.day <= exec_days_in_month(
        d.year,
        d.month,
    )
}

} // verus!
