//! Calendar dates: reading `--from`/`--to` bounds, grouping by year/month/week/day, and writing
//! dates. The calendar itself (which day a timestamp falls on, which timestamp a date starts at,
//! how a date is written) comes from the `time` crate.
use crate::config::types::{err_new, ArgError, ArgErrorView, ArgParse};
use crate::datetime::{DateStyle, TimeBound, Timespan};
use crate::datetime::{push_two, two_digits};
use crate::text::{
    chars_vec, dec_int, i64_of, i64_to_string, parse_i64, push_char, push_i64, push_str, trim,
    trim_bounds, trim_end, trim_start,
};
use vstd::utf8::encode_utf8;
use vstd::prelude::*;

verus! {

/// The local date and time of a timestamp at a UTC offset (in seconds): year, month (1-12), day,
/// days since Monday (0-6), hour, minute, second; `None` outside the supported years.
pub uninterp spec fn civil(ts: i64, offset: i32) -> Option<(i32, u8, u8, u8, u8, u8, u8)>;

/// The timestamp of a local date and time at a UTC offset (in seconds); `None` for an invalid
/// date, time or offset.
pub uninterp spec fn calendar_ts(
    year: i32,
    month: u8,
    day: u8,
    hour: u8,
    minute: u8,
    second: u8,
    offset: i32,
) -> Option<i64>;

/// A timestamp written at a UTC offset after a `time` format description; `None` when the
/// description, the offset or the date is invalid, or the date cannot be written.
pub uninterp spec fn formatted(ts: i64, offset: i32, desc: Seq<char>) -> Option<Seq<char>>;

/// Whether a year of the Gregorian calendar is a leap year.
pub open spec fn is_leap(year: int) -> bool {
    (year % 4 == 0 && year % 100 != 0) || year % 400 == 0
}

/// The number of days of a month (1-12) of a year.
pub open spec fn days_in_month(year: int, month: int) -> int {
    if month == 2 {
        if is_leap(year) {
            29
        } else {
            28
        }
    } else if month == 4 || month == 6 || month == 9 || month == 11 {
        30
    } else {
        31
    }
}

/// `time::OffsetDateTime::from_unix_timestamp`, seen at an offset (`checked_to_offset`), read as
/// calendar parts: the result is named by [`civil`].
#[verifier::external_body]
fn civil_of(ts: i64, offset: i32) -> (r: Option<(i32, u8, u8, u8, u8, u8, u8)>)
    ensures
        r == civil(ts, offset),
{
    let off = time::UtcOffset::from_whole_seconds(offset).ok()?;
    let t = time::OffsetDateTime::from_unix_timestamp(ts).ok()?.checked_to_offset(off)?;
    let (y, m, d) = t.to_calendar_date();
    let wd = t.weekday().number_days_from_monday();
    Some((y, u8::from(m), d, wd, t.hour(), t.minute(), t.second()))
}

/// `time::Date::from_calendar_date(..).with_hms(..).assume_offset(..).unix_timestamp()`: the
/// result is named by [`calendar_ts`].
#[verifier::external_body]
fn calendar_ts_of(year: i32, month: u8, day: u8, hour: u8, minute: u8, second: u8, offset: i32) -> (r:
    Option<i64>)
    ensures
        r == calendar_ts(year, month, day, hour, minute, second, offset),
{
    let off = time::UtcOffset::from_whole_seconds(offset).ok()?;
    let m = time::Month::try_from(month).ok()?;
    let d = time::Date::from_calendar_date(year, m, day).ok()?;
    Some(d.with_hms(hour, minute, second).ok()?.assume_offset(off).unix_timestamp())
}

/// A number and its opposite have the same divisors.
proof fn lemma_abs_divides(a: int, b: int, m: int)
    requires
        m > 0,
        b == a || b == -a,
    ensures
        (a % m == 0) == (b % m == 0),
{
    if b == -a {
        if a % m == 0 {
            let q = a / m;
            assert(a == q * m) by (nonlinear_arith)
                requires
                    m > 0,
                    a % m == 0,
                    q == a / m,
            ;
            assert(b == (-q) * m + 0) by (nonlinear_arith)
                requires
                    b == -a,
                    a == q * m,
            ;
            vstd::arithmetic::div_mod::lemma_fundamental_div_mod_converse(b, m, -q, 0);
        }
        if b % m == 0 {
            let q = b / m;
            assert(b == q * m) by (nonlinear_arith)
                requires
                    m > 0,
                    b % m == 0,
                    q == b / m,
            ;
            assert(a == (-q) * m + 0) by (nonlinear_arith)
                requires
                    b == -a,
                    b == q * m,
            ;
            vstd::arithmetic::div_mod::lemma_fundamental_div_mod_converse(a, m, -q, 0);
        }
    }
}

/// The number of days of a month of a year, by the Gregorian rule.
fn month_length(year: i32, month: u8) -> (r: u8)
    requires
        1 <= month <= 12,
    ensures
        r == days_in_month(year as int, month as int),
{
    if month == 2 {
        let y: u32 = if year < 0 {
            (0i64 - year as i64) as u32
        } else {
            year as u32
        };
        let leap = (y % 4 == 0 && y % 100 != 0) || y % 400 == 0;
        proof {
            lemma_abs_divides(year as int, y as int, 4);
            lemma_abs_divides(year as int, y as int, 100);
            lemma_abs_divides(year as int, y as int, 400);
        }
        if leap {
            29
        } else {
            28
        }
    } else if month == 4 || month == 6 || month == 9 || month == 11 {
        30
    } else {
        31
    }
}

/// `time::OffsetDateTime::format` with a description read by `time::format_description::parse`,
/// at an offset: the result is named by [`formatted`].
#[verifier::external_body]
fn format_ts(ts: i64, offset: i32, desc: &str) -> (r: Option<String>)
    ensures
        match r {
            Some(s) => formatted(ts, offset, desc@) == Some(s@),
            None => formatted(ts, offset, desc@) is None,
        },
{
    let off = time::UtcOffset::from_whole_seconds(offset).ok()?;
    let fmt = time::format_description::parse(desc).ok()?;
    let t = time::OffsetDateTime::from_unix_timestamp(ts).ok()?.checked_to_offset(off)?;
    t.format(&fmt).ok()
}

/// The current time as a Unix timestamp (`time::OffsetDateTime::now_utc`); nothing is known of
/// it.
#[verifier::external_body]
pub fn epoch_now() -> (r: i64) {
    time::OffsetDateTime::now_utc().unix_timestamp()
}

/// The start of the next year, month, week (Monday) or day after a timestamp, at an offset.
pub open spec fn next_span(span: Timespan, ts: i64, offset: i32) -> Option<i64> {
    match civil(ts, offset) {
        Some((y, m, d, wd, _h, _mi, _s)) => match span {
            Timespan::Year => if y < i32::MAX {
                calendar_ts((y + 1) as i32, 1, 1, 0, 0, 0, offset)
            } else {
                None
            },
            Timespan::Month => if m < 12 {
                calendar_ts(y, (m + 1) as u8, 1, 0, 0, 0, offset)
            } else if y < i32::MAX {
                calendar_ts((y + 1) as i32, 1, 1, 0, 0, 0, offset)
            } else {
                None
            },
            Timespan::Week => match calendar_ts(y, m, d, 0, 0, 0, offset) {
                Some(t) => if i64::MIN <= t + (7 - wd) * 86400 <= i64::MAX {
                    Some((t + (7 - wd) * 86400) as i64)
                } else {
                    None
                },
                None => None,
            },
            Timespan::Day => match calendar_ts(y, m, d, 0, 0, 0, offset) {
                Some(t) => if t + 86400 <= i64::MAX {
                    Some((t + 86400) as i64)
                } else {
                    None
                },
                None => None,
            },
            Timespan::NoGroup => None,
        },
        None => None,
    }
}

/// The `time` format description that names the group of a timestamp.
pub open spec fn span_desc(span: Timespan) -> Seq<char> {
    match span {
        Timespan::Year => "[year]"@,
        Timespan::Month => "[year]-[month]"@,
        Timespan::Week => "[year]-[week_number]"@,
        Timespan::Day => "[year]-[month]-[day]"@,
        Timespan::NoGroup => ""@,
    }
}

impl Timespan {
    /// Given a timestamp, the start of the next year/month/week/day at an offset; `None` for
    /// dates out of the supported range.
    pub fn next(&self, ts: i64, offset: i32) -> (r: Option<i64>)
        requires
            *self != Timespan::NoGroup,
        ensures
            r == next_span(*self, ts, offset),
    {
        let (y, m, d, wd, _h, _mi, _s) = match civil_of(ts, offset) {
            Some(c) => c,
            None => return None,
        };
        match self {
            Timespan::Year => {
                if y < i32::MAX {
                    calendar_ts_of(y + 1, 1, 1, 0, 0, 0, offset)
                } else {
                    None
                }
            },
            Timespan::Month => {
                if m < 12 {
                    calendar_ts_of(y, m + 1, 1, 0, 0, 0, offset)
                } else if y < i32::MAX {
                    calendar_ts_of(y + 1, 1, 1, 0, 0, 0, offset)
                } else {
                    None
                }
            },
            Timespan::Week => {
                let t = match calendar_ts_of(y, m, d, 0, 0, 0, offset) {
                    Some(t) => t,
                    None => return None,
                };
                let v = t as i128 + (7 - wd as i128) * 86400;
                if i64::MIN as i128 <= v && v <= i64::MAX as i128 {
                    Some(v as i64)
                } else {
                    None
                }
            },
            Timespan::Day => {
                let t = match calendar_ts_of(y, m, d, 0, 0, 0, offset) {
                    Some(t) => t,
                    None => return None,
                };
                if t <= i64::MAX - 86400 {
                    Some(t + 86400)
                } else {
                    None
                }
            },
            Timespan::NoGroup => None,
        }
    }

    /// The name of the group a timestamp falls in (`2024`, `2024-05`, `2024-19`, `2024-05-06`),
    /// at an offset; empty without grouping.
    pub fn at(&self, ts: i64, offset: i32) -> (r: Option<String>)
        ensures
            match r {
                Some(s) => if *self == Timespan::NoGroup {
                    s@ == Seq::<char>::empty()
                } else {
                    formatted(ts, offset, span_desc(*self)) == Some(s@)
                },
                None => *self != Timespan::NoGroup && formatted(ts, offset, span_desc(*self)) is None,
            },
    {
        proof {
            reveal_strlit("[year]");
            reveal_strlit("[year]-[month]");
            reveal_strlit("[year]-[week_number]");
            reveal_strlit("[year]-[month]-[day]");
        }
        match self {
            Timespan::Year => format_ts(ts, offset, "[year]"),
            Timespan::Month => format_ts(ts, offset, "[year]-[month]"),
            Timespan::Week => format_ts(ts, offset, "[year]-[week_number]"),
            Timespan::Day => format_ts(ts, offset, "[year]-[month]-[day]"),
            Timespan::NoGroup => Some(String::new()),
        }
    }
}

/// The `time` format description of a date style (the seconds since the epoch are written
/// without one).
pub open spec fn style_desc(style: DateStyle) -> Seq<char> {
    match style {
        DateStyle::Ymd => "[year]-[month]-[day]"@,
        DateStyle::Ymdhms => "[year]-[month]-[day] [hour]:[minute]:[second]"@,
        DateStyle::Ymdhmso => "[year]-[month]-[day] [hour]:[minute]:[second] [offset_hour sign:mandatory]:[offset_minute]"@,
        DateStyle::Rfc3339 => "[year]-[month]-[day]T[hour]:[minute]:[second][offset_hour sign:mandatory]:[offset_minute]"@,
        DateStyle::Rfc2822 => "[weekday repr:short], [day] [month repr:short] [year] [hour]:[minute]:[second] [offset_hour sign:mandatory]:[offset_minute]"@,
        DateStyle::Compact => "[year][month][day][hour][minute][second]"@,
        DateStyle::Unix => ""@,
    }
}

/// The description of a date style.
fn style_desc_str(style: DateStyle) -> (r: &'static str)
    ensures
        r@ == style_desc(style),
{
    proof {
        reveal_strlit("[year]-[month]-[day]");
        reveal_strlit("[year]-[month]-[day] [hour]:[minute]:[second]");
        reveal_strlit("[year]-[month]-[day] [hour]:[minute]:[second] [offset_hour sign:mandatory]:[offset_minute]");
        reveal_strlit("[year]-[month]-[day]T[hour]:[minute]:[second][offset_hour sign:mandatory]:[offset_minute]");
        reveal_strlit("[weekday repr:short], [day] [month repr:short] [year] [hour]:[minute]:[second] [offset_hour sign:mandatory]:[offset_minute]");
        reveal_strlit("[year][month][day][hour][minute][second]");
        reveal_strlit("");
    }
    match style {
        DateStyle::Ymd => "[year]-[month]-[day]",
        DateStyle::Ymdhms => "[year]-[month]-[day] [hour]:[minute]:[second]",
        DateStyle::Ymdhmso => "[year]-[month]-[day] [hour]:[minute]:[second] [offset_hour sign:mandatory]:[offset_minute]",
        DateStyle::Rfc3339 => "[year]-[month]-[day]T[hour]:[minute]:[second][offset_hour sign:mandatory]:[offset_minute]",
        DateStyle::Rfc2822 => "[weekday repr:short], [day] [month repr:short] [year] [hour]:[minute]:[second] [offset_hour sign:mandatory]:[offset_minute]",
        DateStyle::Compact => "[year][month][day][hour][minute][second]",
        DateStyle::Unix => "",
    }
}

/// A timestamp, to be written as a date.
pub struct FmtDate(pub i64);

impl FmtDate {
    /// The date in a style at an offset: the seconds since the epoch for the unix style, else
    /// the style's description; `None` when the date cannot be written.
    pub fn text(&self, style: DateStyle, offset: i32) -> (r: Option<String>)
        ensures
            style == DateStyle::Unix ==> (r matches Some(s) && s@ == crate::text::dec_int(self.0 as int)),
            style != DateStyle::Unix ==> match r {
                Some(s) => formatted(self.0, offset, style_desc(style)) == Some(s@),
                None => formatted(self.0, offset, style_desc(style)) is None,
            },
    {
        if style == DateStyle::Unix {
            Some(i64_to_string(self.0))
        } else {
            format_ts(self.0, offset, style_desc_str(style))
        }
    }
}

/// The description of UTC dates in logs and messages.
pub open spec fn utc_desc() -> Seq<char> {
    "[year]-[month]-[day]T[hour]:[minute]:[second]Z"@
}

/// A timestamp as a UTC date (`2018-04-03T00:00:00Z`); `None` out of the supported range.
pub fn fmt_utctime(ts: i64) -> (r: Option<String>)
    ensures
        match r {
            Some(s) => formatted(ts, 0, utc_desc()) == Some(s@),
            None => formatted(ts, 0, utc_desc()) is None,
        },
{
    proof {
        reveal_strlit("[year]-[month]-[day]T[hour]:[minute]:[second]Z");
    }
    format_ts(ts, 0, "[year]-[month]-[day]T[hour]:[minute]:[second]Z")
}


/// An ASCII decimal digit.
pub open spec fn is_dig(c: char) -> bool {
    '0' <= c <= '9'
}

/// The number of leading digits.
pub open spec fn drun(s: Seq<char>) -> nat
    decreases s.len(),
{
    if s.len() > 0 && is_dig(s[0]) {
        1 + drun(s.drop_first())
    } else {
        0
    }
}

/// The value of a sequence of digits (most significant first).
pub open spec fn dval(s: Seq<char>) -> nat
    decreases s.len(),
{
    if s.len() == 0 {
        0
    } else {
        dval(s.drop_last()) * 10 + ((s.last() as u32 - 48) as nat)
    }
}

/// The emerge run that a bound counts to (`1c`, `3 commands`, `c`), 1-based in the text and
/// 0-based in the result.
pub open spec fn command_num(s: Seq<char>) -> Option<usize> {
    let pos = drun(s);
    let num = dval(s.take(pos as int));
    let rest = trim(s.skip(pos as int));
    if (rest == "c"@ || rest == "command"@ || rest == "commands"@) && num > 0 {
        if num <= usize::MAX {
            Some((num - 1) as usize)
        } else {
            None
        }
    } else if (rest == "c"@ || rest == "command"@) && pos == 0 {
        Some(0)
    } else {
        None
    }
}

/// `v[lo..hi]` spells `w`.
fn chars_are(v: &Vec<char>, lo: usize, hi: usize, w: &str) -> (r: bool)
    requires
        lo <= hi <= v@.len(),
    ensures
        r == (v@.subrange(lo as int, hi as int) == w@),
{
    let wv = chars_vec(w);
    if hi - lo != wv.len() {
        assert(v@.subrange(lo as int, hi as int).len() != w@.len());
        return false;
    }
    let mut i: usize = 0;
    while i < wv.len()
        invariant
            i <= wv@.len() == hi - lo,
            lo <= hi <= v@.len(),
            wv@ == w@,
            forall|j: int| 0 <= j < i ==> v@[lo + j] == wv@[j],
        decreases wv@.len() - i,
    {
        if v[lo + i] != wv[i] {
            assert(v@.subrange(lo as int, hi as int)[i as int] != w@[i as int]);
            return false;
        }
        i += 1;
    }
    assert(v@.subrange(lo as int, hi as int) =~= w@);
    true
}

/// The leading digits of `v[from..]`: how many there are, and their value when it fits in a
/// `u64`.
fn digits_at(v: &Vec<char>, from: usize) -> (r: (usize, Option<u64>))
    requires
        from <= v@.len(),
    ensures
        r.0 == drun(v@.skip(from as int)),
        from + r.0 <= v@.len(),
        r.1 == (if dval(v@.skip(from as int).take(r.0 as int)) <= u64::MAX {
            Some(dval(v@.skip(from as int).take(r.0 as int)) as u64)
        } else {
            None::<u64>
        }),
{
    let ghost s = v@.skip(from as int);
    let mut i: usize = from;
    let mut val: Option<u64> = Some(0);
    assert(s.take(0) =~= Seq::<char>::empty());
    while i < v.len() && '0' <= v[i] && v[i] <= '9'
        invariant
            from <= i <= v@.len(),
            s == v@.skip(from as int),
            forall|k: int| 0 <= k < i - from ==> is_dig(s[k]),
            val == (if dval(s.take(i - from)) <= u64::MAX {
                Some(dval(s.take(i - from)) as u64)
            } else {
                None::<u64>
            }),
        decreases v@.len() - i,
    {
        let ghost k = i - from;
        assert(s.take(k + 1).drop_last() =~= s.take(k));
        assert(s.take(k + 1).last() == v@[i as int]);
        let d = (v[i] as u32 - 48) as u64;
        val = match val {
            Some(x) => if x <= (u64::MAX - d) / 10 {
                Some(x * 10 + d)
            } else {
                None
            },
            None => None,
        };
        proof {
            if dval(s.take(k)) > u64::MAX {
                assert(dval(s.take(k + 1)) >= dval(s.take(k)) * 10) by (nonlinear_arith)
                    requires
                        dval(s.take(k + 1)) == dval(s.take(k)) * 10 + ((v@[i as int] as u32
                            - 48) as nat),
                ;
            }
        }
        i += 1;
    }
    proof {
        let n = (i - from) as int;
        assert forall|k: int| 0 <= k <= n implies drun(#[trigger] s.skip(k)) == n - k + drun(s.skip(n)) by {
            lemma_drun_skip(s, k, n);
        }
        assert(s.skip(0) =~= s);
        if n < s.len() {
            assert(s.skip(n)[0] == v@[i as int]);
        }
    }
    (i - from, val)
}

/// Skipping digits one at a time.
proof fn lemma_drun_skip(s: Seq<char>, k: int, n: int)
    requires
        0 <= k <= n <= s.len(),
        forall|j: int| 0 <= j < n ==> is_dig(s[j]),
    ensures
        drun(s.skip(k)) == n - k + drun(s.skip(n)),
    decreases n - k,
{
    if k < n {
        assert(s.skip(k).drop_first() =~= s.skip(k + 1));
        lemma_drun_skip(s, k + 1, n);
    }
}


/// The characters of `v[from..]`.
fn tail_chars(v: &Vec<char>, from: usize) -> (r: Vec<char>)
    requires
        from <= v@.len(),
    ensures
        r@ == v@.skip(from as int),
{
    let mut r: Vec<char> = Vec::new();
    let mut i = from;
    while i < v.len()
        invariant
            from <= i <= v@.len(),
            r@ == v@.subrange(from as int, i as int),
        decreases v@.len() - i,
    {
        r.push(v[i]);
        assert(r@ =~= v@.subrange(from as int, i + 1));
        i += 1;
    }
    assert(r@ =~= v@.skip(from as int));
    r
}

/// Reads the emerge run that a bound counts to: `Nc`, `N command(s)` (N from 1) or `c`, as a
/// 0-based index.
pub fn parse_command_num(s: &str) -> (r: Option<usize>)
    ensures
        r == command_num(s@),
{
    proof {
        reveal_strlit("c");
        reveal_strlit("command");
        reveal_strlit("commands");
    }
    let v = chars_vec(s);
    let (pos, num) = digits_at(&v, 0);
    assert(v@.skip(0) =~= v@);
    let rest = tail_chars(&v, pos);
    let (lo, hi) = trim_bounds(&rest);
    let c = chars_are(&rest, lo, hi, "c");
    let cmd = chars_are(&rest, lo, hi, "command");
    let cmds = chars_are(&rest, lo, hi, "commands");
    match num {
        Some(n) => {
            if (c || cmd || cmds) && n > 0 {
                if n <= usize::MAX as u64 {
                    return Some((n - 1) as usize);
                } else {
                    return None;
                }
            }
        },
        None => {
            if c || cmd || cmds {
                return None;
            }
        },
    }
    if (c || cmd) && pos == 0 {
        Some(0)
    } else {
        None
    }
}


/// The value of two digits at `i`.
pub open spec fn two_at(s: Seq<char>, i: int) -> Option<u8> {
    if 0 <= i && i + 2 <= s.len() && is_dig(s[i]) && is_dig(s[i + 1]) {
        Some(((s[i] as u32 - 48) * 10 + (s[i + 1] as u32 - 48)) as u8)
    } else {
        None
    }
}

/// The value of four digits at `i`.
pub open spec fn four_at(s: Seq<char>, i: int) -> Option<int> {
    match (two_at(s, i), two_at(s, i + 2)) {
        (Some(a), Some(b)) => Some(a * 100 + b),
        _ => None,
    }
}

/// The time of day that may follow a date at `i` (`T01:02`, ` 01:02:03`), and where it ends:
/// midnight and `i` when there is none.
pub open spec fn time_part(s: Seq<char>, i: int) -> (u8, u8, u8, int) {
    if i + 6 <= s.len() && (s[i] == 'T' || s[i] == ' ') && two_at(s, i + 1) is Some && s[i + 3]
        == ':' && two_at(s, i + 4) is Some {
        let h = two_at(s, i + 1)->0;
        let m = two_at(s, i + 4)->0;
        if i + 9 <= s.len() && s[i + 6] == ':' && two_at(s, i + 7) is Some {
            (h, m, two_at(s, i + 7)->0, i + 9)
        } else {
            (h, m, 0, i + 6)
        }
    } else {
        (0, 0, 0, i)
    }
}

/// The offset that may follow at `i`, in seconds, and where it ends: after `Z` or when there is
/// none the given offset stays; `+01:00`, `-05:30` or `02:00` set it.
pub open spec fn offset_part(s: Seq<char>, i: int, offset: i32) -> (int, int) {
    if 0 <= i < s.len() && s[i] == 'Z' {
        (offset as int, i + 1)
    } else {
        let neg = 0 <= i < s.len() && s[i] == '-';
        let j = if 0 <= i < s.len() && (s[i] == '+' || s[i] == '-') {
            i + 1
        } else {
            i
        };
        if two_at(s, j) is Some && j + 2 < s.len() && s[j + 2] == ':' && two_at(s, j + 3) is Some
            && two_at(s, j)->0 <= 25 && two_at(s, j + 3)->0 <= 59 {
            let v = two_at(s, j)->0 * 3600 + two_at(s, j + 3)->0 * 60;
            (if neg {
                -v
            } else {
                v
            }, j + 5)
        } else {
            (offset as int, i)
        }
    }
}

/// The timestamp of an absolute date: `[+-]YYYY-MM-DD`, then optionally a time of day after `T`
/// or a space (`HH:MM` or `HH:MM:SS`), then optionally `Z` or an offset, and nothing else; the
/// date is read at `offset` unless it gives its own.
pub open spec fn abs_date(s: Seq<char>, offset: i32) -> Option<i64> {
    let neg = s.len() > 0 && s[0] == '-';
    let p = if s.len() > 0 && (s[0] == '+' || s[0] == '-') {
        1int
    } else {
        0int
    };
    if four_at(s, p) is Some && p + 10 <= s.len() && s[p + 4] == '-' && two_at(s, p + 5) is Some
        && s[p + 7] == '-' && two_at(s, p + 8) is Some {
        let y = if neg {
            -four_at(s, p)->0
        } else {
            four_at(s, p)->0
        };
        let (h, mi, se, i) = time_part(s, p + 10);
        let (off, j) = offset_part(s, i, offset);
        if j == s.len() {
            calendar_ts(y as i32, two_at(s, p + 5)->0, two_at(s, p + 8)->0, h, mi, se, off as i32)
        } else {
            None
        }
    } else {
        None
    }
}

/// Two digits at `i`.
fn two_digits_at(v: &Vec<char>, i: usize) -> (r: Option<u8>)
    ensures
        r == two_at(v@, i as int),
{
    if i < v.len() && v.len() - i >= 2 && '0' <= v[i] && v[i] <= '9' && '0' <= v[i + 1] && v[i
        + 1] <= '9' {
        let a = (v[i] as u32 - 48) as u8;
        let b = (v[i + 1] as u32 - 48) as u8;
        Some(a * 10 + b)
    } else {
        None
    }
}

/// The time of day at `i`.
fn time_at(v: &Vec<char>, i: usize) -> (r: (u8, u8, u8, usize))
    requires
        i <= v@.len(),
    ensures
        (r.0, r.1, r.2, r.3 as int) == time_part(v@, i as int),
        r.3 <= v@.len(),
{
    if v.len() - i >= 6 && (v[i] == 'T' || v[i] == ' ') && v[i + 3] == ':' {
        if let (Some(h), Some(m)) = (two_digits_at(v, i + 1), two_digits_at(v, i + 4)) {
            if v.len() - i >= 9 && v[i + 6] == ':' {
                if let Some(sec) = two_digits_at(v, i + 7) {
                    return (h, m, sec, i + 9);
                }
            }
            return (h, m, 0, i + 6);
        }
    }
    (0, 0, 0, i)
}

/// The offset at `i`.
fn offset_at(v: &Vec<char>, i: usize, offset: i32) -> (r: (i32, usize))
    requires
        i <= v@.len(),
    ensures
        (r.0 as int, r.1 as int) == offset_part(v@, i as int, offset),
        r.1 <= v@.len(),
{
    if i < v.len() && v[i] == 'Z' {
        return (offset, i + 1);
    }
    let neg = i < v.len() && v[i] == '-';
    let j = if i < v.len() && (v[i] == '+' || v[i] == '-') {
        i + 1
    } else {
        i
    };
    if j < v.len() && v.len() - j > 2 && v[j + 2] == ':' {
        if let (Some(h), Some(m)) = (two_digits_at(v, j), two_digits_at(v, j + 3)) {
            if h <= 25 && m <= 59 {
                let val = h as i32 * 3600 + m as i32 * 60;
                return (if neg {
                    -val
                } else {
                    val
                }, j + 5);
            }
        }
    }
    (offset, i)
}

/// Reads an absolute date at an offset (see [`abs_date`]).
pub fn parse_abs_date(s: &str, offset: i32) -> (r: Option<i64>)
    ensures
        r == abs_date(s@, offset),
{
    let v = chars_vec(s);
    let neg = v.len() > 0 && v[0] == '-';
    let p: usize = if v.len() > 0 && (v[0] == '+' || v[0] == '-') {
        1
    } else {
        0
    };
    let y = match (two_digits_at(&v, p), two_digits_at(&v, p + 2)) {
        (Some(a), Some(b)) => a as i32 * 100 + b as i32,
        _ => return None,
    };
    if !(v.len() >= p + 10 && v[p + 4] == '-' && v[p + 7] == '-') {
        return None;
    }
    let (mo, d) = match (two_digits_at(&v, p + 5), two_digits_at(&v, p + 8)) {
        (Some(a), Some(b)) => (a, b),
        _ => return None,
    };
    let y = if neg {
        -y
    } else {
        y
    };
    let (h, mi, se, i) = time_at(&v, p + 10);
    let (off, j) = offset_at(&v, i, offset);
    if j == v.len() {
        calendar_ts_of(y, mo, d, h, mi, se, off)
    } else {
        None
    }
}


/// The unit a word names in a relative date: 0 years, 1 months, 2 weeks, 3 days, 4 hours,
/// 5 minutes, 6 seconds.
pub open spec fn unit_of(w: Seq<char>) -> Option<u8> {
    if w == "y"@ || w == "year"@ || w == "years"@ {
        Some(0)
    } else if w == "m"@ || w == "month"@ || w == "months"@ {
        Some(1)
    } else if w == "w"@ || w == "week"@ || w == "weeks"@ {
        Some(2)
    } else if w == "d"@ || w == "day"@ || w == "days"@ {
        Some(3)
    } else if w == "h"@ || w == "hour"@ || w == "hours"@ {
        Some(4)
    } else if w == "min"@ || w == "mins"@ || w == "minute"@ || w == "minutes"@ {
        Some(5)
    } else if w == "s"@ || w == "sec"@ || w == "secs"@ || w == "second"@ || w == "seconds"@ {
        Some(6)
    } else {
        None
    }
}

/// The seconds in a week, day, hour, minute or second.
pub open spec fn unit_secs(unit: u8) -> int {
    if unit == 2 {
        604800
    } else if unit == 3 {
        86400
    } else if unit == 4 {
        3600
    } else if unit == 5 {
        60
    } else {
        1
    }
}

/// A timestamp (read in UTC) moved back by `num` units: years and months keep the day of the
/// month when the target month has it (else its last day) and the time of day, other units
/// subtract their seconds; `None` out of the supported dates.
pub open spec fn span_back(num: int, unit: u8, now: i64) -> Option<i64> {
    if unit <= 1 {
        match civil(now, 0) {
            Some((y, mo, d, _wd, h, mi, se)) => {
                let months = y * 12 + (mo - 1) - num;
                let y2 = if unit == 0 {
                    y - num
                } else {
                    months / 12
                };
                let mo2 = if unit == 0 {
                    mo as int
                } else {
                    months % 12 + 1
                };
                if i32::MIN <= y2 <= i32::MAX && 1 <= mo2 <= 12 {
                    let dim = days_in_month(y2, mo2);
                    let dd = if d <= dim {
                        d as int
                    } else {
                        dim
                    };
                    calendar_ts(y2 as i32, mo2 as u8, dd as u8, h, mi, se, 0)
                } else {
                    None
                }
            },
            None => None,
        }
    } else {
        let t = now - num * unit_secs(unit);
        if i64::MIN <= t <= i64::MAX && civil(t as i64, 0) is Some {
            Some(t as i64)
        } else {
            None
        }
    }
}

/// Moves a timestamp back by `num` units (see [`span_back`]).
fn back(num: i64, unit: u8, now: i64) -> (r: Option<i64>)
    requires
        0 <= num <= i32::MAX,
    ensures
        r == span_back(num as int, unit, now),
{
    if unit <= 1 {
        let (y, mo, d, _wd, h, mi, se) = match civil_of(now, 0) {
            Some(c) => c,
            None => return None,
        };
        let months = y as i64 * 12 + (mo as i64 - 1) - num;
        // Shifted up by a whole number of years to divide a non-negative number.
        let shifted = (months + 51539607552) as u64;
        proof {
            let m = months as int;
            assert((m + 51539607552) / 12 == m / 12 + 4294967296 && (m + 51539607552) % 12 == m % 12)
                by (nonlinear_arith);
        }
        let y2: i64 = if unit == 0 {
            y as i64 - num
        } else {
            (shifted / 12) as i64 - 4294967296
        };
        let mo2: i64 = if unit == 0 {
            mo as i64
        } else {
            (shifted % 12) as i64 + 1
        };
        if !(i32::MIN as i64 <= y2 && y2 <= i32::MAX as i64 && 1 <= mo2 && mo2 <= 12) {
            return None;
        }
        let dim = month_length(y2 as i32, mo2 as u8);
        let dd = if d <= dim {
            d
        } else {
            dim
        };
        calendar_ts_of(y2 as i32, mo2 as u8, dd, h, mi, se, 0)
    } else {
        let k: i64 = if unit == 2 {
            604800
        } else if unit == 3 {
            86400
        } else if unit == 4 {
            3600
        } else if unit == 5 {
            60
        } else {
            1
        };
        assert(0 <= num * k <= 2147483647 * 604800) by (nonlinear_arith)
            requires
                0 <= num <= i32::MAX,
                1 <= k <= 604800,
        ;
        let t = now as i128 - num as i128 * k as i128;
        if !(i64::MIN as i128 <= t && t <= i64::MAX as i128) {
            return None;
        }
        match civil_of(t as i64, 0) {
            Some(_) => Some(t as i64),
            None => None,
        }
    }
}

/// The unit that `v[lo..hi]` names.
fn unit_in(v: &Vec<char>, lo: usize, hi: usize) -> (r: Option<u8>)
    requires
        lo <= hi <= v@.len(),
    ensures
        r == unit_of(v@.subrange(lo as int, hi as int)),
{
    if chars_are(v, lo, hi, "y") || chars_are(v, lo, hi, "year") || chars_are(v, lo, hi, "years") {
        Some(0)
    } else if chars_are(v, lo, hi, "m") || chars_are(v, lo, hi, "month") || chars_are(v, lo, hi, "months") {
        Some(1)
    } else if chars_are(v, lo, hi, "w") || chars_are(v, lo, hi, "week") || chars_are(v, lo, hi, "weeks") {
        Some(2)
    } else if chars_are(v, lo, hi, "d") || chars_are(v, lo, hi, "day") || chars_are(v, lo, hi, "days") {
        Some(3)
    } else if chars_are(v, lo, hi, "h") || chars_are(v, lo, hi, "hour") || chars_are(v, lo, hi, "hours") {
        Some(4)
    } else if chars_are(v, lo, hi, "min") || chars_are(v, lo, hi, "mins") || chars_are(v, lo, hi, "minute")
        || chars_are(v, lo, hi, "minutes") {
        Some(5)
    } else if chars_are(v, lo, hi, "s") || chars_are(v, lo, hi, "sec") || chars_are(v, lo, hi, "secs")
        || chars_are(v, lo, hi, "second") || chars_are(v, lo, hi, "seconds") {
        Some(6)
    } else {
        None
    }
}


/// The class of a character in a relative date: 1 digit, 2 lowercase letter, 0 separator.
pub open spec fn tok_class(c: char) -> u8 {
    if is_dig(c) {
        1
    } else if 'a' <= c <= 'z' {
        2
    } else {
        0
    }
}

/// The words of a relative date, the lexical level of its grammar: maximal runs of digits or of
/// lowercase letters; any other character only ends a word.
pub open spec fn tokens(s: Seq<char>) -> Seq<Seq<char>>
    decreases s.len(),
{
    if s.len() == 0 {
        Seq::empty()
    } else {
        let p = s.drop_last();
        let c = s.last();
        let t = tokens(p);
        if tok_class(c) == 0 {
            t
        } else if p.len() > 0 && tok_class(p.last()) == tok_class(c) && t.len() > 0 {
            t.update(t.len() - 1, t.last().push(c))
        } else {
            t.push(seq![c])
        }
    }
}

/// A word of digits that fits an `i32`.
pub open spec fn small_num(w: Seq<char>) -> bool {
    w.len() > 0 && drun(w) == w.len() && dval(w) <= i32::MAX
}

/// Applies the (number, unit) pairs of words from the `k`-th on to a timestamp.
pub open spec fn apply_pairs(t: Seq<Seq<char>>, k: int, now: i64) -> Option<i64>
    decreases t.len() - k,
{
    if k < 0 || k >= t.len() {
        Some(now)
    } else {
        let u = if k + 1 < t.len() {
            t[k + 1]
        } else {
            Seq::empty()
        };
        if small_num(t[k]) {
            match unit_of(u) {
                Some(unit) => match span_back(dval(t[k]) as int, unit, now) {
                    Some(n) => if k + 2 <= t.len() {
                        apply_pairs(t, k + 2, n)
                    } else {
                        Some(n)
                    },
                    None => None,
                },
                None => None,
            }
        } else {
            None
        }
    }
}

/// Every character of `s` is of the class `c` (1 digits, 2 lowercase letters).
pub open spec fn all_class(s: Seq<char>, c: u8) -> bool {
    forall|i: int| 0 <= i < s.len() ==> tok_class(#[trigger] s[i]) == c
}

/// A run of characters of one class is one word.
proof fn lemma_tokens_run(x: Seq<char>, c: u8)
    requires
        x.len() > 0,
        c != 0,
        all_class(x, c),
    ensures
        tokens(x) == seq![x],
    decreases x.len(),
{
    let p = x.drop_last();
    assert(tok_class(x[x.len() - 1]) == c);
    if p.len() > 0 {
        assert(all_class(p, c)) by {
            assert forall|i: int| 0 <= i < p.len() implies tok_class(#[trigger] p[i]) == c by {
                assert(p[i] == x[i]);
            }
        }
        lemma_tokens_run(p, c);
        assert(tok_class(p.last()) == c) by {
            assert(p.last() == x[x.len() - 2]);
        }
        assert(p.push(x.last()) =~= x);
        assert(seq![p].update(0, p.push(x.last())) =~= seq![x]);
    } else {
        assert(seq![x.last()] =~= x);
        assert(tokens(p) =~= Seq::<Seq<char>>::empty());
    }
}

/// After a separator, a run of characters of one class adds one word.
proof fn lemma_tokens_after(pre: Seq<char>, y: Seq<char>, c: u8)
    requires
        pre.len() > 0,
        tok_class(pre.last()) == 0,
        y.len() > 0,
        c != 0,
        all_class(y, c),
    ensures
        tokens(pre + y) == tokens(pre).push(y),
    decreases y.len(),
{
    let s = pre + y;
    let q = y.drop_last();
    assert(s.drop_last() =~= pre + q);
    assert(s.last() == y.last());
    assert(tok_class(y[y.len() - 1]) == c);
    if q.len() > 0 {
        assert(all_class(q, c)) by {
            assert forall|i: int| 0 <= i < q.len() implies tok_class(#[trigger] q[i]) == c by {
                assert(q[i] == y[i]);
            }
        }
        lemma_tokens_after(pre, q, c);
        assert((pre + q).last() == q.last());
        assert(q.last() == y[y.len() - 2]);
        let t = tokens(pre + q);
        assert(t.update(t.len() - 1, t.last().push(y.last())) =~= tokens(pre).push(y)) by {
            assert(q.push(y.last()) =~= y);
        }
    } else {
        assert(pre + q =~= pre);
        assert(seq![y.last()] =~= y);
    }
}

/// A separator at the end adds no word.
proof fn lemma_tokens_sep(x: Seq<char>, c: char)
    requires
        tok_class(c) == 0,
    ensures
        tokens(x.push(c)) == tokens(x),
{
    assert(x.push(c).drop_last() =~= x);
}

/// All digits are leading digits.
proof fn lemma_drun_all(w: Seq<char>)
    requires
        all_class(w, 1),
    ensures
        drun(w) == w.len(),
    decreases w.len(),
{
    if w.len() > 0 {
        assert(tok_class(w[0]) == 1);
        let r = w.drop_first();
        assert(all_class(r, 1)) by {
            assert forall|i: int| 0 <= i < r.len() implies tok_class(#[trigger] r[i]) == 1 by {
                assert(r[i] == w[i + 1]);
            }
        }
        lemma_drun_all(r);
    }
}

/// The unit words are lowercase letters.
proof fn lemma_unit_word(u: Seq<char>)
    requires
        unit_of(u) is Some,
    ensures
        u.len() > 0,
        all_class(u, 2),
{
    reveal_strlit("y");
    reveal_strlit("year");
    reveal_strlit("years");
    reveal_strlit("m");
    reveal_strlit("month");
    reveal_strlit("months");
    reveal_strlit("w");
    reveal_strlit("week");
    reveal_strlit("weeks");
    reveal_strlit("d");
    reveal_strlit("day");
    reveal_strlit("days");
    reveal_strlit("h");
    reveal_strlit("hour");
    reveal_strlit("hours");
    reveal_strlit("min");
    reveal_strlit("mins");
    reveal_strlit("minute");
    reveal_strlit("minutes");
    reveal_strlit("s");
    reveal_strlit("sec");
    reveal_strlit("secs");
    reveal_strlit("second");
    reveal_strlit("seconds");
}

/// Going back twelve months at a time is going back years: `12 n` months before a date is `n`
/// years before it.
pub proof fn lemma_months_years(n: int, now: i64)
    requires
        n >= 0,
        civil(now, 0) matches Some(c) ==> 1 <= c.1 <= 12,
    ensures
        span_back(12 * n, 1, now) == span_back(n, 0, now),
{
    if let Some((y, mo, d, _wd, h, mi, se)) = civil(now, 0) {
        let months = y * 12 + (mo - 1) - 12 * n;
        assert(months == (y - n) * 12 + (mo - 1)) by (nonlinear_arith)
            requires
                months == y * 12 + (mo - 1) - 12 * n,
        ;
        vstd::arithmetic::div_mod::lemma_fundamental_div_mod_converse(months, 12, y - n, mo - 1);
    }
}

/// The unit words of weeks, days, hours, minutes and seconds name those units.
proof fn lemma_fixed_unit(u: Seq<char>, secs: int)
    requires
        ((u == "w"@ || u == "week"@ || u == "weeks"@) && secs == 604800) || ((u == "d"@ || u
            == "day"@ || u == "days"@) && secs == 86400) || ((u == "h"@ || u == "hour"@ || u
            == "hours"@) && secs == 3600) || ((u == "min"@ || u == "mins"@ || u == "minute"@ || u
            == "minutes"@) && secs == 60) || ((u == "s"@ || u == "sec"@ || u == "secs"@ || u
            == "second"@ || u == "seconds"@) && secs == 1),
    ensures
        unit_of(u) is Some,
        unit_of(u)->0 >= 2,
        unit_secs(unit_of(u)->0) == secs,
{
    reveal_strlit("y");
    reveal_strlit("year");
    reveal_strlit("years");
    reveal_strlit("m");
    reveal_strlit("month");
    reveal_strlit("months");
    reveal_strlit("w");
    reveal_strlit("week");
    reveal_strlit("weeks");
    reveal_strlit("d");
    reveal_strlit("day");
    reveal_strlit("days");
    reveal_strlit("h");
    reveal_strlit("hour");
    reveal_strlit("hours");
    reveal_strlit("min");
    reveal_strlit("mins");
    reveal_strlit("minute");
    reveal_strlit("minutes");
    reveal_strlit("s");
    reveal_strlit("sec");
    reveal_strlit("secs");
    reveal_strlit("second");
    reveal_strlit("seconds");
    assert("y"@.len() == 1 && "y"@[0] == 'y' && "y"@[0] == 'y');
    assert("year"@.len() == 4 && "year"@[0] == 'y' && "year"@[3] == 'r');
    assert("years"@.len() == 5 && "years"@[0] == 'y' && "years"@[4] == 's');
    assert("m"@.len() == 1 && "m"@[0] == 'm' && "m"@[0] == 'm');
    assert("month"@.len() == 5 && "month"@[0] == 'm' && "month"@[4] == 'h');
    assert("months"@.len() == 6 && "months"@[0] == 'm' && "months"@[5] == 's');
    assert("w"@.len() == 1 && "w"@[0] == 'w' && "w"@[0] == 'w');
    assert("week"@.len() == 4 && "week"@[0] == 'w' && "week"@[3] == 'k');
    assert("weeks"@.len() == 5 && "weeks"@[0] == 'w' && "weeks"@[4] == 's');
    assert("d"@.len() == 1 && "d"@[0] == 'd' && "d"@[0] == 'd');
    assert("day"@.len() == 3 && "day"@[0] == 'd' && "day"@[2] == 'y');
    assert("days"@.len() == 4 && "days"@[0] == 'd' && "days"@[3] == 's');
    assert("h"@.len() == 1 && "h"@[0] == 'h' && "h"@[0] == 'h');
    assert("hour"@.len() == 4 && "hour"@[0] == 'h' && "hour"@[3] == 'r');
    assert("hours"@.len() == 5 && "hours"@[0] == 'h' && "hours"@[4] == 's');
    assert("min"@.len() == 3 && "min"@[0] == 'm' && "min"@[2] == 'n');
    assert("mins"@.len() == 4 && "mins"@[0] == 'm' && "mins"@[3] == 's');
    assert("minute"@.len() == 6 && "minute"@[0] == 'm' && "minute"@[5] == 'e');
    assert("minutes"@.len() == 7 && "minutes"@[0] == 'm' && "minutes"@[6] == 's');
    assert("s"@.len() == 1 && "s"@[0] == 's' && "s"@[0] == 's');
    assert("sec"@.len() == 3 && "sec"@[0] == 's' && "sec"@[2] == 'c');
    assert("secs"@.len() == 4 && "secs"@[0] == 's' && "secs"@[3] == 's');
    assert("second"@.len() == 6 && "second"@[0] == 's' && "second"@[5] == 'd');
    assert("seconds"@.len() == 7 && "seconds"@[0] == 's' && "seconds"@[6] == 's');
}

/// A relative date made of a number and a unit word, `<n> <unit>`, is `now` moved back by `n`
/// of that unit.
pub proof fn lemma_ago_pair(w: Seq<char>, u: Seq<char>, now: i64)
    requires
        w.len() > 0,
        forall|i: int| 0 <= i < w.len() ==> is_dig(#[trigger] w[i]),
        dval(w) <= i32::MAX,
        unit_of(u) is Some,
    ensures
        date_ago(w + " "@ + u, now) == span_back(dval(w) as int, unit_of(u)->0, now),
{
    reveal_strlit(" ");
    lemma_unit_word(u);
    let s = w + " "@ + u;
    let pre = w + " "@;
    assert(pre =~= w.push(' '));
    assert(all_class(w, 1)) by {
        assert forall|i: int| 0 <= i < w.len() implies tok_class(#[trigger] w[i]) == 1 by {
            assert(is_dig(w[i]));
        }
    }
    lemma_tokens_run(w, 1);
    lemma_tokens_sep(w, ' ');
    lemma_tokens_after(pre, u, 2);
    assert(tokens(s) =~= seq![w, u]);
    lemma_drun_all(w);
    assert(w.take(w.len() as int) =~= w);
    // The text's characters are allowed, and it has a letter.
    assert forall|i: int| 0 <= i < s.len() implies ago_char(#[trigger] s[i]) by {
        if i < w.len() {
            assert(s[i] == w[i]);
        } else if i == w.len() {
            assert(s[i] == ' ');
        } else {
            assert(s[i] == u[i - w.len() - 1]);
            assert(tok_class(u[i - w.len() - 1]) == 2);
        }
    }
    assert(tok_class(u[0]) == 2);
    assert(s[w.len() as int + 1] == u[0]);
    // It is no lone unit word: it starts with a digit.
    assert(is_dig(s[0]) && s[0] == w[0]);
    assert(trim_start(s) == s);
    assert(tok_class(u[u.len() - 1]) == 2);
    assert(s.last() == u.last());
    assert(trim_end(s) == s);
    assert(trim(s) == s);
    if unit_of(s) is Some {
        lemma_unit_word(s);
        assert(tok_class(s[0]) == 2);
    }
    let k = unit_of(u)->0;
    match span_back(dval(w) as int, k, now) {
        Some(t) => {
            assert(apply_pairs(seq![w, u], 2, t) == Some(t));
        },
        None => {},
    }
}

/// A relative date `<n> <unit>` whose unit is weeks, days, hours, minutes or seconds is `now`
/// moved back by `n` times the unit's length in seconds (604800, 86400, 3600, 60 and 1), when
/// that lands within the supported dates, and nothing otherwise.
pub proof fn lemma_ago_fixed_units(w: Seq<char>, u: Seq<char>, secs: int, now: i64)
    requires
        w.len() > 0,
        forall|i: int| 0 <= i < w.len() ==> is_dig(#[trigger] w[i]),
        dval(w) <= i32::MAX,
        ((u == "w"@ || u == "week"@ || u == "weeks"@) && secs == 604800) || ((u == "d"@ || u
            == "day"@ || u == "days"@) && secs == 86400) || ((u == "h"@ || u == "hour"@ || u
            == "hours"@) && secs == 3600) || ((u == "min"@ || u == "mins"@ || u == "minute"@ || u
            == "minutes"@) && secs == 60) || ((u == "s"@ || u == "sec"@ || u == "secs"@ || u
            == "second"@ || u == "seconds"@) && secs == 1),
    ensures
        ({
            let t = now - dval(w) * secs;
            date_ago(w + " "@ + u, now) == if i64::MIN <= t && civil(t as i64, 0) is Some {
                Some(t as i64)
            } else {
                None
            }
        }),
{
    lemma_fixed_unit(u, secs);
    lemma_ago_pair(w, u, now);
}

/// A character a relative date may hold.
pub open spec fn ago_char(c: char) -> bool {
    is_dig(c) || ('a' <= c <= 'z') || ('A' <= c <= 'Z') || c == ' ' || c == ','
}

/// The timestamp of a relative date (`1 hour, 3 days 45sec`, `2d1h`, `w`) before `now`: only
/// letters, digits, spaces and commas, at least one letter; a lone unit counts once, else each
/// number applies to the unit that follows it.
pub open spec fn date_ago(s: Seq<char>, now: i64) -> Option<i64> {
    if !(forall|i: int| 0 <= i < s.len() ==> ago_char(#[trigger] s[i])) {
        None
    } else if !(exists|i: int| 0 <= i < s.len() && (('a' <= #[trigger] s[i] <= 'z') || ('A' <= s[i]
        <= 'Z'))) {
        None
    } else if unit_of(trim(s)) is Some && span_back(1, unit_of(trim(s))->0, now) is Some {
        span_back(1, unit_of(trim(s))->0, now)
    } else {
        apply_pairs(tokens(s), 0, now)
    }
}

/// The class of a character.
fn class_of(c: char) -> (r: u8)
    ensures
        r == tok_class(c),
{
    if '0' <= c && c <= '9' {
        1
    } else if 'a' <= c && c <= 'z' {
        2
    } else {
        0
    }
}

/// The views of words.
pub open spec fn word_views(t: Seq<Vec<char>>) -> Seq<Seq<char>> {
    t.map_values(|w: Vec<char>| w@)
}

/// Splits a relative date into its words.
fn tokens_of(v: &Vec<char>) -> (r: Vec<Vec<char>>)
    ensures
        word_views(r@) == tokens(v@),
{
    let mut r: Vec<Vec<char>> = Vec::new();
    let mut i: usize = 0;
    assert(v@.take(0) =~= Seq::<char>::empty());
    assert(word_views(r@) =~= Seq::<Seq<char>>::empty());
    while i < v.len()
        invariant
            i <= v@.len(),
            word_views(r@) == tokens(v@.take(i as int)),
            i > 0 && tok_class(v@[i - 1]) != 0 ==> r@.len() > 0,
        decreases v@.len() - i,
    {
        let c = v[i];
        let k = class_of(c);
        let ghost p = v@.take(i as int);
        let ghost t0 = word_views(r@);
        assert(v@.take(i + 1).drop_last() =~= p);
        assert(v@.take(i + 1).last() == c);
        if k == 0 {
        } else if i > 0 && class_of(v[i - 1]) == k {
            assert(p.last() == v@[i - 1]);
            let mut last = r.pop().unwrap();
            last.push(c);
            r.push(last);
            assert(word_views(r@) =~= t0.update(t0.len() - 1, t0.last().push(c)));
        } else {
            let w = vec![c];
            assert(w@ =~= seq![c]);
            r.push(w);
            assert(word_views(r@) =~= t0.push(seq![c]));
        }
        i += 1;
    }
    assert(v@.take(v@.len() as int) =~= v@);
    r
}

/// The value of a word of digits that fits an `i32`.
fn small_num_of(w: &Vec<char>) -> (r: Option<i64>)
    ensures
        match r {
            Some(n) => small_num(w@) && n == dval(w@),
            None => !small_num(w@),
        },
{
    let (n, val) = digits_at(w, 0);
    assert(w@.skip(0) =~= w@);
    if n == 0 || n != w.len() {
        return None;
    }
    assert(w@.take(n as int) =~= w@);
    match val {
        Some(x) => if x <= i32::MAX as u64 {
            Some(x as i64)
        } else {
            None
        },
        None => None,
    }
}

/// Reads a relative date before `now` (see [`date_ago`]).
pub fn parse_date_ago(s: &str, now: i64) -> (r: Option<i64>)
    ensures
        r == date_ago(s@, now),
{
    let v = chars_vec(s);
    let mut i: usize = 0;
    let mut alpha = false;
    while i < v.len()
        invariant
            i <= v@.len(),
            v@ == s@,
            forall|j: int| 0 <= j < i ==> ago_char(#[trigger] v@[j]),
            alpha == exists|j: int| 0 <= j < i && (('a' <= #[trigger] v@[j] <= 'z') || ('A' <= v@[j]
                <= 'Z')),
        decreases v@.len() - i,
    {
        let c = v[i];
        let a = ('a' <= c && c <= 'z') || ('A' <= c && c <= 'Z');
        if !(a || ('0' <= c && c <= '9') || c == ' ' || c == ',') {
            assert(!ago_char(s@[i as int]));
            return None;
        }
        if a {
            alpha = true;
        }
        i += 1;
    }
    if !alpha {
        return None;
    }
    let (lo, hi) = trim_bounds(&v);
    if let Some(unit) = unit_in(&v, lo, hi) {
        if let Some(t) = back(1, unit, now) {
            return Some(t);
        }
    }
    let t = tokens_of(&v);
    let ghost tv = word_views(t@);
    let mut k: usize = 0;
    let mut cur = now;
    while k < t.len()
        invariant
            tv == word_views(t@),
            tv == tokens(s@),
            k <= t@.len(),
            date_ago(s@, now) == apply_pairs(tv, 0, now),
            apply_pairs(tv, 0, now) == apply_pairs(tv, k as int, cur),
        decreases t@.len() - k,
    {
        assert(tv[k as int] == t@[k as int]@);
        let n = match small_num_of(&t[k]) {
            Some(n) => n,
            None => return None,
        };
        let unit = if k + 1 < t.len() {
            assert(tv[k + 1] == t@[k + 1]@);
            unit_in(&t[k + 1], 0, t[k + 1].len())
        } else {
            let e: Vec<char> = Vec::new();
            assert(e@.subrange(0, 0) =~= Seq::<char>::empty());
            unit_in(&e, 0, 0)
        };
        proof {
            if k + 1 < t.len() {
                assert(t@[k + 1]@.subrange(0, t@[k + 1]@.len() as int) =~= t@[k + 1]@);
            }
        }
        let unit = match unit {
            Some(u) => u,
            None => return None,
        };
        cur = match back(n, unit, cur) {
            Some(c) => c,
            None => return None,
        };
        if t.len() - k < 2 {
            k = t.len();
            assert(apply_pairs(tv, k as int, cur) == Some(cur));
        } else {
            k = k + 2;
        }
    }
    assert(apply_pairs(tv, k as int, cur) == Some(cur));
    Some(cur)
}


/// The message of the error `i64::from_str` gives for a string it cannot read (`ParseIntError`,
/// displayed).
pub uninterp spec fn int_error(s: Seq<char>) -> Seq<char>;

/// A string as `Debug` writes it: quoted, with special characters escaped.
pub uninterp spec fn str_debug(s: Seq<char>) -> Seq<char>;

/// `i64::from_str`, with its error displayed.
#[verifier::external_body]
fn int_from_str(s: &str) -> (r: Result<i64, String>)
    ensures
        match r {
            Ok(i) => i64_of(encode_utf8(s@)) == Some(i),
            Err(m) => i64_of(encode_utf8(s@)) is None && m@ == int_error(s@),
        },
{
    match s.parse::<i64>() {
        Ok(i) => Ok(i),
        Err(e) => Err(e.to_string()),
    }
}

/// A string slice as `Debug` writes it (`format!("{:?}", s)`).
#[verifier::external_body]
fn debug_of(s: &str) -> (r: String)
    ensures
        r@ == str_debug(s@),
{
    format!("{:?}", s)
}

/// Why a value is no emerge run number: the text after its leading digits is not a known span.
pub open spec fn command_err(s: Seq<char>) -> Seq<char> {
    "bad span "@ + str_debug(s.skip(drun(s) as int))
}

/// Why the relative date in the words `t` from the `k`-th on cannot be read from `now` (empty
/// when it can).
pub open spec fn pairs_err(t: Seq<Seq<char>>, k: int, now: i64) -> Seq<char>
    decreases t.len() - k,
{
    if k < 0 || k >= t.len() {
        Seq::empty()
    } else {
        let u = if k + 1 < t.len() {
            t[k + 1]
        } else {
            Seq::empty()
        };
        if !small_num(t[k]) {
            "not a number"@
        } else {
            match unit_of(u) {
                None => "bad span "@ + str_debug(u),
                Some(unit) => match span_back(dval(t[k]) as int, unit, now) {
                    None => "date out of range"@,
                    Some(n) => if k + 2 <= t.len() {
                        pairs_err(t, k + 2, n)
                    } else {
                        Seq::empty()
                    },
                },
            }
        }
    }
}

/// Why a value is no relative date: a character other than letters, digits, spaces and commas,
/// no letter, or the first (number, unit) pair that cannot be read.
pub open spec fn ago_err(s: Seq<char>, now: i64) -> Seq<char> {
    if !(forall|i: int| 0 <= i < s.len() ==> ago_char(#[trigger] s[i])) {
        "bad char"@
    } else if !(exists|i: int| 0 <= i < s.len() && (('a' <= #[trigger] s[i] <= 'z') || ('A' <= s[i]
        <= 'Z'))) {
        "empty"@
    } else {
        pairs_err(tokens(s), 0, now)
    }
}

/// Why a value is no absolute date.
pub open spec fn abs_err() -> Seq<char> {
    "not a date in YYYY-MM-DD[THH:MM[:SS]][Z|+HH:MM] form"@
}

/// The message of a value that is no bound: why it is not each kind of bound.
pub open spec fn bound_msg(t: Seq<char>, now: i64) -> Seq<char> {
    "Not a unix timestamp ("@ + int_error(t) + "), absolute date ("@ + abs_err()
        + "), relative date ("@ + ago_err(t, now) + "), or command ("@ + command_err(t) + ")"@
}

/// The text of `v[lo..]` as `Debug` writes it.
fn debug_tail(v: &Vec<char>, lo: usize) -> (r: String)
    requires
        lo <= v@.len(),
    ensures
        r@ == str_debug(v@.skip(lo as int)),
{
    let t = string_of(v, lo, v.len());
    assert(v@.subrange(lo as int, v@.len() as int) =~= v@.skip(lo as int));
    debug_of(t.as_str())
}

/// Why `s` is no emerge run number.
fn command_error(s: &str) -> (r: String)
    ensures
        r@ == command_err(s@),
{
    let v = chars_vec(s);
    let (pos, _) = digits_at(&v, 0);
    assert(v@.skip(0) =~= v@);
    let mut m = String::new();
    crate::text::push_str(&mut m, "bad span ");
    let d = debug_tail(&v, pos);
    crate::text::push_str(&mut m, d.as_str());
    proof {
        reveal_strlit("bad span ");
    }
    assert(m@ =~= command_err(s@));
    m
}

/// Why `s` is no relative date before `now`.
fn ago_error(s: &str, now: i64) -> (r: String)
    ensures
        r@ == ago_err(s@, now),
{
    proof {
        reveal_strlit("bad char");
        reveal_strlit("empty");
        reveal_strlit("not a number");
        reveal_strlit("bad span ");
        reveal_strlit("date out of range");
    }
    let v = chars_vec(s);
    let mut i: usize = 0;
    let mut alpha = false;
    while i < v.len()
        invariant
            i <= v@.len(),
            v@ == s@,
            forall|j: int| 0 <= j < i ==> ago_char(#[trigger] v@[j]),
            alpha == exists|j: int| 0 <= j < i && (('a' <= #[trigger] v@[j] <= 'z') || ('A' <= v@[j]
                <= 'Z')),
        decreases v@.len() - i,
    {
        let c = v[i];
        let a = ('a' <= c && c <= 'z') || ('A' <= c && c <= 'Z');
        if !(a || ('0' <= c && c <= '9') || c == ' ' || c == ',') {
            assert(!ago_char(s@[i as int]));
            return crate::text::to_string("bad char");
        }
        if a {
            alpha = true;
        }
        i += 1;
    }
    if !alpha {
        return crate::text::to_string("empty");
    }
    let t = tokens_of(&v);
    let ghost tv = word_views(t@);
    let mut k: usize = 0;
    let mut cur = now;
    while k < t.len()
        invariant
            tv == word_views(t@),
            tv == tokens(s@),
            k <= t@.len(),
            ago_err(s@, now) == pairs_err(tv, 0, now),
            pairs_err(tv, 0, now) == pairs_err(tv, k as int, cur),
        decreases t@.len() - k,
    {
        assert(tv[k as int] == t@[k as int]@);
        let n = match small_num_of(&t[k]) {
            Some(n) => n,
            None => return crate::text::to_string("not a number"),
        };
        let e: Vec<char> = Vec::new();
        let uw: &Vec<char> = if k + 1 < t.len() {
            assert(tv[k + 1] == t@[k + 1]@);
            &t[k + 1]
        } else {
            &e
        };
        assert(uw@ == (if k + 1 < t@.len() {
            tv[k + 1]
        } else {
            Seq::<char>::empty()
        }));
        assert(uw@.subrange(0, uw@.len() as int) =~= uw@);
        let unit = match unit_in(uw, 0, uw.len()) {
            Some(u) => u,
            None => {
                let mut m = crate::text::to_string("bad span ");
                let d = debug_tail(uw, 0);
                assert(uw@.skip(0) =~= uw@);
                crate::text::push_str(&mut m, d.as_str());
                return m;
            },
        };
        cur = match back(n, unit, cur) {
            Some(c) => c,
            None => return crate::text::to_string("date out of range"),
        };
        if t.len() - k < 2 {
            k = t.len();
        } else {
            k = k + 2;
        }
    }
    String::new()
}

/// The bound that a `--from`/`--to` value gives, once trimmed: a unix timestamp, an absolute date
/// at `offset`, an emerge run number, or a relative date before `now`, tried in that order.
pub open spec fn time_bound_of(s: Seq<char>, offset: i32, now: i64) -> Option<TimeBound> {
    let t = trim(s);
    if i64_of(encode_utf8(t)) is Some {
        Some(TimeBound::Unix(i64_of(encode_utf8(t))->0))
    } else if abs_date(t, offset) is Some {
        Some(TimeBound::Unix(abs_date(t, offset)->0))
    } else if command_num(t) is Some {
        Some(TimeBound::Run(command_num(t)->0))
    } else if date_ago(t, now) is Some {
        Some(TimeBound::Unix(date_ago(t, now)->0))
    } else {
        None
    }
}


/// The string of `v[lo..hi]`.
fn string_of(v: &Vec<char>, lo: usize, hi: usize) -> (r: String)
    requires
        lo <= hi <= v@.len(),
    ensures
        r@ == v@.subrange(lo as int, hi as int),
{
    let mut r = String::new();
    let mut i = lo;
    while i < hi
        invariant
            lo <= i <= hi <= v@.len(),
            r@ == v@.subrange(lo as int, i as int),
        decreases hi - i,
    {
        push_char(&mut r, v[i]);
        assert(r@ =~= v@.subrange(lo as int, i + 1));
        i += 1;
    }
    r
}

/// Time bounds are read at a UTC offset (in seconds), relative dates before a given time.
impl ArgParse<String, (i32, i64)> for TimeBound {
    open spec fn parse_spec(val: String, arg: (i32, i64), src: Seq<char>) -> Result<
        TimeBound,
        ArgErrorView,
    > {
        match time_bound_of(val@, arg.0, arg.1) {
            Some(b) => Ok(b),
            None => Err(ArgErrorView { msg: bound_msg(trim(val@), arg.1), ..err_new(val@, src) }),
        }
    }

    fn parse(val: &String, arg: (i32, i64), src: &'static str) -> (r: Result<TimeBound, ArgError>) {
        let (offset, now) = arg;
        let v = chars_vec(val.as_str());
        let (lo, hi) = trim_bounds(&v);
        let t = string_of(&v, lo, hi);
        let ts = t.as_str();
        let et = match int_from_str(ts) {
            Ok(i) => return Ok(TimeBound::Unix(i)),
            Err(m) => m,
        };
        if let Some(i) = parse_abs_date(ts, offset) {
            return Ok(TimeBound::Unix(i));
        }
        if let Some(n) = parse_command_num(ts) {
            return Ok(TimeBound::Run(n));
        }
        if let Some(i) = parse_date_ago(ts, now) {
            return Ok(TimeBound::Unix(i));
        }
        let mut m = String::new();
        crate::text::push_str(&mut m, "Not a unix timestamp (");
        crate::text::push_str(&mut m, et.as_str());
        crate::text::push_str(&mut m, "), absolute date (");
        crate::text::push_str(&mut m, "not a date in YYYY-MM-DD[THH:MM[:SS]][Z|+HH:MM] form");
        crate::text::push_str(&mut m, "), relative date (");
        crate::text::push_str(&mut m, ago_error(ts, now).as_str());
        crate::text::push_str(&mut m, "), or command (");
        crate::text::push_str(&mut m, command_error(ts).as_str());
        crate::text::push_str(&mut m, ")");
        assert(m@ =~= bound_msg(t@, now));
        Err(ArgError::new(val.as_str(), src).msg(m.as_str()))
    }
}

/// The date of a timestamp in UTC as `time::Date` displays it (`YYYY-MM-DD`), through
/// `time::Timestamp::from_seconds`; `None` outside the supported years.
pub uninterp spec fn utc_date(ts: i64) -> Option<Seq<char>>;

/// `time::Timestamp::from_seconds`, with the date as `Date` displays it and the hour, minute and
/// second, which the crate computes from the seconds within the day.
#[verifier::external_body]
fn utc_parts(ts: i64) -> (r: Option<(String, u8, u8, u8)>)
    ensures
        match r {
            Some((d, h, m, s)) => {
                &&& utc_date(ts) == Some(d@)
                &&& h == (ts as int % 86400) / 3600
                &&& m == (ts as int / 60) % 60
                &&& s == ts as int % 60
            },
            None => utc_date(ts) is None,
        },
{
    let t = time::Timestamp::from_seconds(ts).ok()?;
    Some((t.date().to_string(), t.hour(), t.minute(), t.second()))
}

/// A timestamp written as `YYYY-MM-DDTHH:MM:SSZ`, or as `#ts#` outside the supported years.
pub open spec fn utc_text(ts: i64) -> Seq<char> {
    match utc_date(ts) {
        Some(d) => d + seq!['T'] + two_digits(((ts as int % 86400) / 3600) as nat) + seq![':']
            + two_digits(((ts as int / 60) % 60) as nat) + seq![':'] + two_digits(
            (ts as int % 60) as nat,
        ) + seq!['Z'],
        None => seq!['#'] + dec_int(ts as int) + seq!['#'],
    }
}

/// A Unix timestamp shown in UTC.
pub struct FmtUtc(pub i64);

impl FmtUtc {
    /// The timestamp as `YYYY-MM-DDTHH:MM:SSZ`, or `#ts#` when it is out of range.
    pub fn to_string(&self) -> (r: String)
        ensures
            r@ == utc_text(self.0),
    {
        let mut out = String::new();
        match utc_parts(self.0) {
            Some((d, h, m, s)) => {
                push_str(&mut out, d.as_str());
                push_char(&mut out, 'T');
                push_two(&mut out, h as u64);
                push_char(&mut out, ':');
                push_two(&mut out, m as u64);
                push_char(&mut out, ':');
                push_two(&mut out, s as u64);
                push_char(&mut out, 'Z');
            },
            None => {
                push_char(&mut out, '#');
                push_i64(&mut out, self.0);
                push_char(&mut out, '#');
            },
        }
        assert(out@ =~= utc_text(self.0));
        out
    }
}

} // verus!
