//! Durations and time bounds: how a duration is written, and which log span a bound selects.
use crate::config::types::{err_new, ArgError, ArgErrorView, ArgParse, DurationStyle};
use crate::text::{dec_nat, push_char, push_str, push_u64, str_eq};
use vstd::prelude::*;

verus! {

/// A number below 100 on at least two digits.
pub open spec fn two_digits(n: nat) -> Seq<char> {
    if n < 10 {
        seq!['0'] + dec_nat(n)
    } else {
        dec_nat(n)
    }
}

/// `N unit` or `N units`, after a prefix.
pub open spec fn human_part(prefix: Seq<char>, n: nat, unit: Seq<char>) -> Seq<char> {
    prefix + dec_nat(n) + " "@ + unit + (if n > 1 {
        "s"@
    } else {
        Seq::empty()
    })
}

/// The non-zero parts of a duration in days, hours, minutes and seconds, the first after
/// `prefix` and the others after `, `.
pub open spec fn human_parts(parts: Seq<(nat, Seq<char>)>, prefix: Seq<char>) -> Seq<char>
    decreases parts.len(),
{
    if parts.len() == 0 {
        Seq::empty()
    } else if parts[0].0 > 0 {
        human_part(prefix, parts[0].0, parts[0].1) + human_parts(parts.drop_first(), ", "@)
    } else {
        human_parts(parts.drop_first(), prefix)
    }
}

/// One step of writing the parts of a duration.
proof fn lemma_human_step(parts: Seq<(nat, Seq<char>)>, k: int, prefix: Seq<char>)
    requires
        0 <= k < parts.len(),
    ensures
        human_parts(parts.skip(k), prefix) == (if parts[k].0 > 0 {
            human_part(prefix, parts[k].0, parts[k].1) + human_parts(parts.skip(k + 1), ", "@)
        } else {
            human_parts(parts.skip(k + 1), prefix)
        }),
{
    assert(parts.skip(k).drop_first() =~= parts.skip(k + 1));
    assert(parts.skip(k)[0] == parts[k]);
}

/// A non-negative duration written in a style, after the `dur` prefix.
pub open spec fn dur_text(sec: nat, style: DurationStyle, dur: Seq<char>) -> Seq<char> {
    let h = sec / 3600;
    let m = sec % 3600 / 60;
    let s = sec % 60;
    match style {
        DurationStyle::Hms => if sec >= 3600 {
            dur + dec_nat(h) + ":"@ + two_digits(m) + ":"@ + two_digits(s)
        } else if sec >= 60 {
            dur + dec_nat(m) + ":"@ + two_digits(s)
        } else {
            dur + dec_nat(sec)
        },
        DurationStyle::Secs => dur + dec_nat(sec),
        DurationStyle::HmsFixed => dur + dec_nat(h) + ":"@ + two_digits(m) + ":"@ + two_digits(s),
        DurationStyle::Human => if sec == 0 {
            dur + "0 second"@
        } else {
            human_parts(
                seq![
                    (sec / 86400, "day"@),
                    (sec % 86400 / 3600, "hour"@),
                    (m, "minute"@),
                    (s, "second"@),
                ],
                dur,
            )
        },
    }
}

/// How a duration is shown: a negative one is unknown (`?`), and one far below zero is an
/// estimate, shown as its distance from `i64::MIN` followed by `?`.
pub open spec fn fmt_dur_text(sec: i64, style: DurationStyle, dur: Seq<char>, qmark: Seq<char>) -> Seq<
    char,
> {
    if sec < i64::MIN / 2 {
        dur_text((i64::MAX + sec + 1) as nat, style, dur) + qmark + "?"@
    } else if sec < 0 {
        qmark + "?"@
    } else {
        dur_text(sec as nat, style, dur)
    }
}

/// A duration in seconds, to be shown in the configured style.
pub struct FmtDur(pub i64);

/// Appends a number below 100 on at least two digits.
pub(crate) fn push_two(out: &mut String, n: u64)
    requires
        n < 100,
    ensures
        final(out)@ == old(out)@ + two_digits(n as nat),
{
    if n < 10 {
        push_char(out, '0');
    }
    push_u64(out, n);
    assert(n < 10 ==> final(out)@ =~= old(out)@ + two_digits(n as nat));
}

/// Appends `N unit(s)` after the prefix, when `n` is not zero; returns whether it did.
fn push_human(out: &mut String, prefix: &str, n: u64, unit: &str) -> (r: bool)
    ensures
        r == (n > 0),
        final(out)@ == old(out)@ + (if n > 0 {
            human_part(prefix@, n as nat, unit@)
        } else {
            Seq::empty()
        }),
{
    if n == 0 {
        assert(final(out)@ =~= old(out)@ + Seq::<char>::empty());
        return false;
    }
    proof {
        reveal_strlit(" ");
        reveal_strlit("s");
    }
    push_str(out, prefix);
    push_u64(out, n);
    push_char(out, ' ');
    push_str(out, unit);
    if n > 1 {
        push_char(out, 's');
    }
    assert(final(out)@ =~= old(out)@ + human_part(prefix@, n as nat, unit@));
    true
}

/// Appends a positive duration in days, hours, minutes and seconds.
#[verifier::rlimit(30)]
fn push_human_dur(out: &mut String, sec: u64, dur: &str)
    requires
        sec > 0,
    ensures
        final(out)@ == old(out)@ + dur_text(sec as nat, DurationStyle::Human, dur@),
{
    proof {
        reveal_strlit(", ");
    }
    let m = sec % 3600 / 60;
    let s = sec % 60;
    let ghost start = out@;
        let ghost parts = seq![
            ((sec / 86400) as nat, "day"@),
            ((sec % 86400 / 3600) as nat, "hour"@),
            (m as nat, "minute"@),
            (s as nat, "second"@),
        ];
        assert(parts.skip(0) =~= parts);
        let mut any = push_human(out, dur, sec / 86400, "day");
        proof {
            lemma_human_step(parts, 0, dur@);
        }
        assert(start + human_parts(parts, dur@) =~= out@ + human_parts(
            parts.skip(1),
            if any { ", "@ } else { dur@ },
        ));
        let p2 = if any { ", " } else { dur };
        let b2 = push_human(out, p2, sec % 86400 / 3600, "hour");
        proof {
            lemma_human_step(parts, 1, p2@);
        }
        any = any || b2;
        assert(start + human_parts(parts, dur@) =~= out@ + human_parts(
            parts.skip(2),
            if any { ", "@ } else { dur@ },
        ));
        let p3 = if any { ", " } else { dur };
        let b3 = push_human(out, p3, m, "minute");
        proof {
            lemma_human_step(parts, 2, p3@);
        }
        any = any || b3;
        assert(start + human_parts(parts, dur@) =~= out@ + human_parts(
            parts.skip(3),
            if any { ", "@ } else { dur@ },
        ));
        let p4 = if any { ", " } else { dur };
        push_human(out, p4, s, "second");
        proof {
            lemma_human_step(parts, 3, p4@);
        }
        assert(parts.skip(4) =~= Seq::<(nat, Seq<char>)>::empty());
    assert(out@ =~= start + dur_text(sec as nat, DurationStyle::Human, dur@));
}

/// Appends a non-negative duration in a style.
fn push_dur(out: &mut String, sec: u64, style: DurationStyle, dur: &str)
    ensures
        final(out)@ == old(out)@ + dur_text(sec as nat, style, dur@),
{
    proof {
        reveal_strlit(":");
        reveal_strlit("0 second");
        reveal_strlit(", ");
    }
    let h = sec / 3600;
    let m = sec % 3600 / 60;
    let s = sec % 60;
    let ghost start = out@;
    match style {
        DurationStyle::Hms => {
            push_str(out, dur);
            if sec >= 3600 {
                push_u64(out, h);
                push_char(out, ':');
                push_two(out, m);
                push_char(out, ':');
                push_two(out, s);
            } else if sec >= 60 {
                push_u64(out, m);
                push_char(out, ':');
                push_two(out, s);
            } else {
                push_u64(out, sec);
            }
            assert(out@ =~= start + dur_text(sec as nat, style, dur@));
        },
        DurationStyle::Secs => {
            push_str(out, dur);
            push_u64(out, sec);
            assert(out@ =~= start + dur_text(sec as nat, style, dur@));
        },
        DurationStyle::HmsFixed => {
            push_str(out, dur);
            push_u64(out, h);
            push_char(out, ':');
            push_two(out, m);
            push_char(out, ':');
            push_two(out, s);
            assert(out@ =~= start + dur_text(sec as nat, style, dur@));
        },
        DurationStyle::Human => {
            if sec == 0 {
                push_str(out, dur);
                push_str(out, "0 second");
                assert(out@ =~= start + dur_text(sec as nat, style, dur@));
            } else {
                push_human_dur(out, sec, dur);
                assert(out@ =~= start + dur_text(sec as nat, style, dur@));
            }
        },
    }
}

impl FmtDur {
    /// Marks a duration as an estimate, to be shown with a question mark.
    pub fn unsure(self) -> (r: Self)
        requires
            self.0 >= 0,
        ensures
            r.0 == i64::MIN + self.0,
    {
        FmtDur(i64::MIN + self.0)
    }

    /// The duration in a style, numbers after the `dur` color and question marks after the
    /// `qmark` color.
    pub fn text(&self, style: DurationStyle, dur: &str, qmark: &str) -> (r: String)
        ensures
            r@ == fmt_dur_text(self.0, style, dur@, qmark@),
    {
        let sec = self.0;
        let mut out = String::new();
        proof {
            reveal_strlit("?");
        }
        if sec < i64::MIN / 2 {
            push_dur(&mut out, (i64::MAX + sec + 1) as u64, style, dur);
            push_str(&mut out, qmark);
            push_char(&mut out, '?');
        } else if sec < 0 {
            push_str(&mut out, qmark);
            push_char(&mut out, '?');
        } else {
            push_dur(&mut out, sec as u64, style, dur);
        }
        assert(out@ =~= fmt_dur_text(self.0, style, dur@, qmark@));
        out
    }
}

/// A bound of the span of the log to read.
#[derive(Clone, Copy, Debug, PartialEq, Eq, Structural)]
pub enum TimeBound {
    /// Unbounded
    Unbounded,
    /// Bound by unix timestamp
    Unix(i64),
    /// Bound by time of nth fist/last emerge run
    Run(usize),
}

/// The name the bound of a log span also goes by.
pub type HistBound = TimeBound;

/// The lower bound that `b` gives, `runs` being the start times of the emerge runs in log order:
/// `Run(n)` is the start of the `n`-th last run, counted from zero.
pub open spec fn lower_bound(runs: Seq<i64>, b: TimeBound) -> Option<i64> {
    match b {
        TimeBound::Run(n) => if n < runs.len() {
            Some(runs[runs.len() - 1 - n])
        } else {
            None
        },
        TimeBound::Unix(t) => Some(t),
        TimeBound::Unbounded => None,
    }
}

/// The upper bound that `b` gives: `Run(n)` is the start of the `n`-th last run, counted from
/// zero.
pub open spec fn upper_bound(runs: Seq<i64>, b: TimeBound) -> Option<i64> {
    match b {
        TimeBound::Run(n) => if n < runs.len() {
            Some(runs[runs.len() - 1 - n])
        } else {
            None
        },
        TimeBound::Unix(t) => Some(t),
        TimeBound::Unbounded => None,
    }
}

/// The timestamps to read the log between: the bounds, or the whole range without them; an
/// error with both bounds when they are not in increasing order.
pub open spec fn bounds_spec(runs: Seq<i64>, min: TimeBound, max: TimeBound) -> Result<
    (i64, i64),
    (i64, i64),
> {
    match (lower_bound(runs, min), upper_bound(runs, max)) {
        (Some(a), Some(b)) => if a < b {
            Ok((a, b))
        } else {
            Err((a, b))
        },
        (Some(a), None) => Ok((a, i64::MAX)),
        (None, Some(b)) => Ok((i64::MIN, b)),
        (None, None) => Ok((i64::MIN, i64::MAX)),
    }
}

/// `--from Nc` and `--to Nc` both name the `N`-th last emerge run (the last one being `1c`, read
/// as zero): alone, each bounds the log at that run's start.
pub proof fn lemma_run_bounds(runs: Seq<i64>, n: usize)
    requires
        n < runs.len(),
    ensures
        bounds_spec(runs, TimeBound::Unbounded, TimeBound::Run(n)) == Ok::<(i64, i64), (i64, i64)>(
            (i64::MIN, runs[runs.len() - 1 - n]),
        ),
        bounds_spec(runs, TimeBound::Run(n), TimeBound::Unbounded) == Ok::<(i64, i64), (i64, i64)>(
            (runs[runs.len() - 1 - n], i64::MAX),
        ),
{
}

/// Resolves the time bounds of a log read, given the start times of the emerge runs.
pub fn ts_bounds(runs: &Vec<i64>, min: TimeBound, max: TimeBound) -> (r: Result<
    (i64, i64),
    (i64, i64),
>)
    ensures
        r == bounds_spec(runs@, min, max),
{
    let n = runs.len();
    let lo = match min {
        TimeBound::Run(k) => if k < n {
            Some(runs[n - 1 - k])
        } else {
            None
        },
        TimeBound::Unix(t) => Some(t),
        TimeBound::Unbounded => None,
    };
    let hi = match max {
        TimeBound::Run(k) => if k < n {
            Some(runs[n - 1 - k])
        } else {
            None
        },
        TimeBound::Unix(t) => Some(t),
        TimeBound::Unbounded => None,
    };
    match (lo, hi) {
        (Some(a), Some(b)) => if a < b {
            Ok((a, b))
        } else {
            Err((a, b))
        },
        (Some(a), None) => Ok((a, i64::MAX)),
        (None, Some(b)) => Ok((i64::MIN, b)),
        (None, None) => Ok((i64::MIN, i64::MAX)),
    }
}

/// How statistics are grouped in time.
#[derive(Clone, Copy, Debug, PartialEq, Eq, Structural)]
pub enum Timespan {
    Year,
    Month,
    Week,
    Day,
    NoGroup,
}

/// The grouping that a name selects.
pub open spec fn timespan_of(v: Seq<char>) -> Option<Timespan> {
    if v == "y"@ || v == "year"@ {
        Some(Timespan::Year)
    } else if v == "m"@ || v == "month"@ {
        Some(Timespan::Month)
    } else if v == "w"@ || v == "week"@ {
        Some(Timespan::Week)
    } else if v == "d"@ || v == "day"@ {
        Some(Timespan::Day)
    } else if v == "n"@ || v == "none"@ {
        Some(Timespan::NoGroup)
    } else {
        None
    }
}

impl ArgParse<String, ()> for Timespan {
    open spec fn parse_spec(val: String, arg: (), src: Seq<char>) -> Result<Timespan, ArgErrorView> {
        match timespan_of(val@) {
            Some(a) => Ok(a),
            None => Err(
                ArgErrorView { possible: "(y)ear (m)onth (w)eek (d)ay (n)one"@, ..err_new(val@, src) },
            ),
        }
    }

    fn parse(v: &String, _a: (), s: &'static str) -> (r: Result<Timespan, ArgError>) {
        let x = v.as_str();
        if str_eq(x, "y") || str_eq(x, "year") {
            Ok(Timespan::Year)
        } else if str_eq(x, "m") || str_eq(x, "month") {
            Ok(Timespan::Month)
        } else if str_eq(x, "w") || str_eq(x, "week") {
            Ok(Timespan::Week)
        } else if str_eq(x, "d") || str_eq(x, "day") {
            Ok(Timespan::Day)
        } else if str_eq(x, "n") || str_eq(x, "none") {
            Ok(Timespan::NoGroup)
        } else {
            Err(ArgError::new(x, s).pos("(y)ear (m)onth (w)eek (d)ay (n)one"))
        }
    }
}

impl Timespan {
    /// The column title of the grouping.
    pub fn name(&self) -> (r: &'static str)
        ensures
            r@ == match self {
                Timespan::Year => "Year"@,
                Timespan::Month => "Month"@,
                Timespan::Week => "Week"@,
                Timespan::Day => "Date"@,
                Timespan::NoGroup => ""@,
            },
    {
        match self {
            Timespan::Year => "Year",
            Timespan::Month => "Month",
            Timespan::Week => "Week",
            Timespan::Day => "Date",
            Timespan::NoGroup => "",
        }
    }
}

/// How dates are written.
#[derive(Clone, Copy, Debug, PartialEq, Eq, Structural)]
pub enum DateStyle {
    /// `[year]-[month]-[day]`
    Ymd,
    /// `[year]-[month]-[day] [hour]:[minute]:[second]`
    Ymdhms,
    /// `[year]-[month]-[day] [hour]:[minute]:[second] [offset]`
    Ymdhmso,
    /// RFC 3339
    Rfc3339,
    /// RFC 2822
    Rfc2822,
    /// `[year][month][day][hour][minute][second]`
    Compact,
    /// Seconds since the epoch
    Unix,
}

/// The date style that a name selects.
pub open spec fn date_style_of(v: Seq<char>) -> Option<DateStyle> {
    if v == "ymd"@ || v == "d"@ {
        Some(DateStyle::Ymd)
    } else if v == "ymdhms"@ || v == "dt"@ {
        Some(DateStyle::Ymdhms)
    } else if v == "ymdhmso"@ || v == "dto"@ {
        Some(DateStyle::Ymdhmso)
    } else if v == "rfc3339"@ || v == "3339"@ {
        Some(DateStyle::Rfc3339)
    } else if v == "rfc2822"@ || v == "2822"@ {
        Some(DateStyle::Rfc2822)
    } else if v == "compact"@ {
        Some(DateStyle::Compact)
    } else if v == "unix"@ {
        Some(DateStyle::Unix)
    } else {
        None
    }
}

impl DateStyle {
    /// The default style: date and time.
    pub fn default() -> (r: Self)
        ensures
            r == DateStyle::Ymdhms,
    {
        DateStyle::Ymdhms
    }
}

impl ArgParse<String, ()> for DateStyle {
    open spec fn parse_spec(val: String, arg: (), src: Seq<char>) -> Result<DateStyle, ArgErrorView> {
        match date_style_of(val@) {
            Some(a) => Ok(a),
            None => Err(
                ArgErrorView {
                    possible: "ymd d ymdhms dt ymdhmso dto rfc3339 3339 rfc2822 2822 compact unix"@,
                    ..err_new(val@, src)
                },
            ),
        }
    }

    fn parse(v: &String, _a: (), s: &'static str) -> (r: Result<DateStyle, ArgError>) {
        let x = v.as_str();
        if str_eq(x, "ymd") || str_eq(x, "d") {
            Ok(DateStyle::Ymd)
        } else if str_eq(x, "ymdhms") || str_eq(x, "dt") {
            Ok(DateStyle::Ymdhms)
        } else if str_eq(x, "ymdhmso") || str_eq(x, "dto") {
            Ok(DateStyle::Ymdhmso)
        } else if str_eq(x, "rfc3339") || str_eq(x, "3339") {
            Ok(DateStyle::Rfc3339)
        } else if str_eq(x, "rfc2822") || str_eq(x, "2822") {
            Ok(DateStyle::Rfc2822)
        } else if str_eq(x, "compact") {
            Ok(DateStyle::Compact)
        } else if str_eq(x, "unix") {
            Ok(DateStyle::Unix)
        } else {
            Err(
                ArgError::new(x, s).pos(
                    "ymd d ymdhms dt ymdhmso dto rfc3339 3339 rfc2822 2822 compact unix",
                ),
            )
        }
    }
}


/// A duration marked as an estimate reads as the duration followed by a question mark (for
/// durations below 2^62 seconds).
pub proof fn lemma_unsure_text(d: i64, style: DurationStyle, dur: Seq<char>, qmark: Seq<char>)
    requires
        0 <= d < 0x4000_0000_0000_0000,
    ensures
        fmt_dur_text((i64::MIN + d) as i64, style, dur, qmark) == fmt_dur_text(d, style, dur, qmark)
            + qmark + "?"@,
{
}

} // verus!
