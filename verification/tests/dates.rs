use emlop::config::types::ArgParse;
use emlop::dates::{epoch_now, fmt_utctime, parse_command_num, parse_date_ago, FmtDate, FmtUtc};
use emlop::datetime::{DateStyle, HistBound, TimeBound, Timespan};
use time::format_description::well_known::Rfc3339;
use time::{Month, OffsetDateTime, Weekday};

fn parse_rfc(s: &str) -> OffsetDateTime {
    OffsetDateTime::parse(s, &Rfc3339).expect(s)
}
fn ts(t: OffsetDateTime) -> i64 {
    t.unix_timestamp()
}
fn parse_fromto(s: &str, offset: i32) -> Result<TimeBound, ()> {
    TimeBound::parse(&String::from(s), (offset, 0), "").map_err(|_| ())
}
fn parse_ago(ago: &str, now: &str) -> String {
    fmt_utctime(parse_date_ago(ago, ts(parse_rfc(now))).unwrap()).unwrap()
}

#[test]
fn datetime_date() {
    let tb_unix = |rfc| TimeBound::Unix(ts(parse_rfc(rfc)));
    let utc = 0;

    // Absolute dates
    assert_eq!(Ok(tb_unix("2018-04-03T00:00:00Z")), parse_fromto(" 1522713600 ", utc));
    assert_eq!(Ok(tb_unix("2018-04-03T00:00:00Z")), parse_fromto(" 2018-04-03 ", utc));
    assert_eq!(Ok(tb_unix("2018-04-03T01:02:00Z")), parse_fromto("2018-04-03 01:02", utc));
    assert_eq!(Ok(tb_unix("2018-04-03T01:02:03Z")), parse_fromto("2018-04-03 01:02:03", utc));
    assert_eq!(Ok(tb_unix("2018-04-03T01:02:03Z")), parse_fromto("2018-04-03T01:02:03", utc));
    assert_eq!(Ok(tb_unix("2018-04-03T01:02:03Z")), parse_fromto("2018-04-03T01:02:03Z", utc));
    assert_eq!(Ok(tb_unix("2018-04-03T00:02:03Z")),
               parse_fromto("2018-04-03T01:02:03+01:00", utc));

    // Different timezone
    for secs in [3600, -7200, 5400, -5400, 42, -42] {
        let tb = TimeBound::Unix(ts(parse_rfc("2018-04-03T00:00:00Z")) - secs as i64);
        assert_eq!(Ok(tb), parse_fromto("2018-04-03T00:00", secs));
    }

    // Relative dates
    assert_eq!("2025-05-03T11:57:56Z", parse_ago("1 hour, 3 days  45sec", "2025-05-06T12:58:41Z"));
    assert_eq!("2025-04-01T12:58:41Z", parse_ago("5 weeks", "2025-05-06T12:58:41Z"));
    assert_eq!("2025-05-04T11:58:41Z", parse_ago("2d1h", "2025-05-06T12:58:41Z"));
    assert_eq!("2025-04-29T12:58:41Z", parse_ago("w", "2025-05-06T12:58:41Z"));
    assert_eq!("2025-02-28T01:02:03Z", parse_ago("2m", "2025-04-29T01:02:03Z"));
    assert_eq!("2024-02-29T01:02:03Z", parse_ago("2m", "2024-04-29T01:02:03Z"));
    assert_eq!("2023-02-28T01:02:03Z", parse_ago("y", "2024-02-29T01:02:03Z"));

    // Failure cases
    assert!(parse_fromto("", utc).is_err());
    assert!(parse_fromto(" ", utc).is_err());
    assert!(parse_fromto(",", utc).is_err());
    assert!(parse_fromto("junk2018-04-03T01:01:01", utc).is_err());
    assert!(parse_fromto("2018-04-03T01:01:01junk", utc).is_err());
    assert!(parse_fromto("2018-02-29T01:01:01", utc).is_err());
    assert!(parse_fromto("152271000o", utc).is_err());
    assert!(parse_fromto("1 day 3 centuries", utc).is_err());
    assert!(parse_fromto("a while ago", utc).is_err());
}

#[test]
fn datetime_command_num() {
    assert_eq!(parse_command_num("1c").unwrap(), 0);
    assert_eq!(parse_command_num("5c").unwrap(), 4);
    assert_eq!(parse_command_num("c").unwrap(), 0);
    assert_eq!(parse_command_num("1 commands ").unwrap(), 0);
    assert!(parse_command_num("").is_none());
    assert!(parse_command_num("0c").is_none());
    assert!(parse_command_num("0").is_none());
    assert!(parse_command_num("1cool").is_none());
    assert!(parse_command_num("-1c").is_none());
}

#[test]
fn command_bounds() {
    assert_eq!(parse_fromto("3c", 0), Ok(TimeBound::Run(2)));
    assert_eq!(parse_fromto(" command ", 0), Ok(TimeBound::Run(0)));
    assert_eq!(parse_fromto("-42", 0), Ok(TimeBound::Unix(-42)));
}

#[test]
fn relative_bounds_use_now() {
    let now = ts(parse_rfc("2025-05-06T12:58:41Z"));
    assert_eq!(TimeBound::parse(&String::from("1d"), (0, now), "").unwrap(),
               TimeBound::Unix(now - 86400));
}

#[test]
fn datetime_timespan_next_() {
    for t in [// input             year       month      week       day
              "2019-01-01T00:00:00 2020-01-01 2019-02-01 2019-01-07 2019-01-02",
              "2019-01-01T23:59:59 2020-01-01 2019-02-01 2019-01-07 2019-01-02",
              "2019-01-30T00:00:00 2020-01-01 2019-02-01 2019-02-04 2019-01-31",
              "2019-01-31T00:00:00 2020-01-01 2019-02-01 2019-02-04 2019-02-01",
              "2019-12-31T00:00:00 2020-01-01 2020-01-01 2020-01-06 2020-01-01",
              "2020-02-28T12:34:00 2021-01-01 2020-03-01 2020-03-02 2020-02-29"]
    {
        let v: Vec<&str> = t.split_whitespace().collect();
        let (base_s, year_s, month_s, week_s, day_s) = (v[0], v[1], v[2], v[3], v[4]);
        let base_utc = parse_rfc(&format!("{base_s}+00:00"));
        for offset_s in ["+00:00", "+05:00", "-10:30"] {
            let base = parse_rfc(&format!("{base_s}{offset_s}"));
            let year = parse_rfc(&format!("{year_s}T00:00:00{offset_s}"));
            let month = parse_rfc(&format!("{month_s}T00:00:00{offset_s}"));
            let week = parse_rfc(&format!("{week_s}T00:00:00{offset_s}"));
            let day = parse_rfc(&format!("{day_s}T00:00:00{offset_s}"));
            // Check our test data is correct
            let offset = base.offset();
            assert!(base < year && base < month && base < week && base < day,
                    "{base} < {year} / {month} / {week} / {day}");
            assert_eq!(ts(base), ts(base_utc) - offset.whole_seconds() as i64);
            assert_eq!(Month::January, year.month());
            assert_eq!(1, year.day());
            assert_eq!(1, month.day());
            assert_eq!(Weekday::Monday, week.weekday());
            // Check the tested code is correct
            let o = offset.whole_seconds();
            assert_eq!(Some(ts(year)), Timespan::Year.next(ts(base), o), "{base} Y {year}");
            assert_eq!(Some(ts(month)), Timespan::Month.next(ts(base), o), "{base} M {month}");
            assert_eq!(Some(ts(week)), Timespan::Week.next(ts(base), o), "{base} W {week}");
            assert_eq!(Some(ts(day)), Timespan::Day.next(ts(base), o), "{base} D {day}");
        }
    }
}

#[test]
fn timespan_group_names() {
    let t = ts(parse_rfc("2024-05-06T01:02:03Z"));
    assert_eq!(Timespan::Year.at(t, 0).unwrap(), "2024");
    assert_eq!(Timespan::Month.at(t, 0).unwrap(), "2024-05");
    assert_eq!(Timespan::Week.at(t, 0).unwrap(), "2024-19");
    assert_eq!(Timespan::Day.at(t, 0).unwrap(), "2024-05-06");
    assert_eq!(Timespan::Day.at(t, -7200).unwrap(), "2024-05-05");
    assert_eq!(Timespan::NoGroup.at(t, 0).unwrap(), "");
}

#[test]
fn date_styles_write() {
    let t = ts(parse_rfc("2018-04-03T01:02:03Z"));
    assert_eq!(FmtDate(t).text(DateStyle::Unix, 0).unwrap(), "1522717323");
    assert_eq!(FmtDate(t).text(DateStyle::Ymd, 0).unwrap(), "2018-04-03");
    assert_eq!(FmtDate(t).text(DateStyle::Ymdhms, 3600).unwrap(), "2018-04-03 02:02:03");
    assert_eq!(FmtDate(t).text(DateStyle::Ymdhmso, 3600).unwrap(), "2018-04-03 02:02:03 +01:00");
    assert_eq!(FmtDate(t).text(DateStyle::Rfc3339, 0).unwrap(), "2018-04-03T01:02:03+00:00");
    assert_eq!(FmtDate(t).text(DateStyle::Rfc2822, 0).unwrap(), "Tue, 03 Apr 2018 01:02:03 +00:00");
    assert_eq!(FmtDate(t).text(DateStyle::Compact, 0).unwrap(), "20180403010203");
    assert_eq!(fmt_utctime(t).unwrap(), "2018-04-03T01:02:03Z");
}

#[test]
fn utc_stamps() {
    assert_eq!("1970-01-01T00:00:00Z", FmtUtc(0).to_string());
    assert_eq!("2018-04-03T01:02:03Z", FmtUtc(ts(parse_rfc("2018-04-03T01:02:03Z"))).to_string());
    assert_eq!("1969-12-31T23:59:59Z", FmtUtc(-1).to_string());
    assert_eq!("#9223372036854775807#", FmtUtc(i64::MAX).to_string());
    assert_eq!("#-9223372036854775808#", FmtUtc(i64::MIN).to_string());
}

#[test]
fn hist_bounds_and_now() {
    assert!(matches!(HistBound::parse(&"42".to_string(), (0, 0), ""), Ok(TimeBound::Unix(42))));
    assert!(matches!(HistBound::parse(&"2c".to_string(), (0, 0), ""), Ok(TimeBound::Run(1))));
    assert!(epoch_now() > 1_500_000_000);
}

#[test]
fn bound_error_causes() {
    let msg = |s: &str| TimeBound::parse(&String::from(s), (0, 0), "--from").err().unwrap().to_string();
    let m = msg("junk");
    assert!(m.contains("Not a unix timestamp (invalid digit found in string)"), "{m}");
    assert!(m.contains("relative date (not a number)"), "{m}");
    assert!(m.contains("or command (bad span \"junk\")"), "{m}");
    let m = msg("1 fortnight");
    assert!(m.contains("relative date (bad span \"fortnight\")"), "{m}");
    let m = msg("  ");
    assert!(m.contains("(cannot parse integer from empty string)"), "{m}");
    assert!(m.contains("relative date (empty)"), "{m}");
    let m = msg("1;d");
    assert!(m.contains("relative date (bad char)"), "{m}");
}
