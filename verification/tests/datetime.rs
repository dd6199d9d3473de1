use emlop::config::types::{ArgParse, DurationStyle};
use emlop::datetime::{ts_bounds, DateStyle, FmtDur, TimeBound, Timespan};

#[test]
fn duration() {
    for (hms, fixed, secs, human, i) in
        [("0", "0:00:00", "0", "0 second", 0),
         ("1", "0:00:01", "1", "1 second", 1),
         ("59", "0:00:59", "59", "59 seconds", 59),
         ("1:00", "0:01:00", "60", "1 minute", 60),
         ("1:01", "0:01:01", "61", "1 minute, 1 second", 61),
         ("59:59", "0:59:59", "3599", "59 minutes, 59 seconds", 3599),
         ("1:00:00", "1:00:00", "3600", "1 hour", 3600),
         ("48:00:01", "48:00:01", "172801", "2 days, 1 second", 172801),
         ("99:59:59", "99:59:59", "359999", "4 days, 3 hours, 59 minutes, 59 seconds", 359999),
         ("100:00:00", "100:00:00", "360000", "4 days, 4 hours", 360000),
         ("?", "?", "?", "?", -1),
         ("?", "?", "?", "?", -123456),
         ("42?", "0:00:42?", "42?", "42 seconds?", i64::MIN + 42)]
    {
        for (st, exp) in [("hms", hms), ("hmsfixed", fixed), ("secs", secs), ("human", human)] {
            let style = DurationStyle::parse(&String::from(st), (), "test").unwrap();
            assert_eq!(exp, FmtDur(i).text(style, "", ""), "{st} {i}");
        }
    }
}

#[test]
fn duration_colors_and_estimates() {
    assert_eq!(FmtDur(61).text(DurationStyle::Secs, "<d>", "<q>"), "<d>61");
    assert_eq!(FmtDur(-5).text(DurationStyle::Secs, "<d>", "<q>"), "<q>?");
    assert_eq!(FmtDur(90).unsure().text(DurationStyle::Hms, "<d>", "<q>"), "<d>1:30<q>?");
    assert_eq!(FmtDur(90).unsure().0, i64::MIN + 90);
}

#[test]
fn time_bounds() {
    let runs = vec![10, 20, 30, 40];
    let u = TimeBound::Unbounded;
    assert_eq!(ts_bounds(&runs, u, u), Ok((i64::MIN, i64::MAX)));
    assert_eq!(ts_bounds(&runs, TimeBound::Unix(5), u), Ok((5, i64::MAX)));
    assert_eq!(ts_bounds(&runs, u, TimeBound::Unix(5)), Ok((i64::MIN, 5)));
    // Counting runs from the end for the lower bound and from the start for the upper bound
    assert_eq!(ts_bounds(&runs, TimeBound::Run(0), u), Ok((40, i64::MAX)));
    assert_eq!(ts_bounds(&runs, TimeBound::Run(3), u), Ok((10, i64::MAX)));
    assert_eq!(ts_bounds(&runs, TimeBound::Run(4), u), Ok((i64::MIN, i64::MAX)));
    assert_eq!(ts_bounds(&runs, u, TimeBound::Run(1)), Ok((i64::MIN, 30)));
    assert_eq!(ts_bounds(&runs, u, TimeBound::Run(0)), Ok((i64::MIN, 40)));
    assert_eq!(ts_bounds(&runs, TimeBound::Run(1), TimeBound::Run(0)), Ok((30, 40)));
    assert_eq!(ts_bounds(&runs, TimeBound::Unix(30), TimeBound::Unix(30)), Err((30, 30)));
    assert_eq!(ts_bounds(&runs, TimeBound::Run(0), TimeBound::Run(0)), Err((40, 40)));
}

#[test]
fn timespan_names() {
    for (s, t) in [("y", Timespan::Year),
                   ("month", Timespan::Month),
                   ("w", Timespan::Week),
                   ("day", Timespan::Day),
                   ("n", Timespan::NoGroup)]
    {
        assert_eq!(Timespan::parse(&String::from(s), (), "test").unwrap(), t);
    }
    assert!(Timespan::parse(&String::from("decade"), (), "test").is_err());
    assert_eq!(Timespan::Day.name(), "Date");
    assert_eq!(Timespan::NoGroup.name(), "");
}

#[test]
fn date_styles() {
    assert_eq!(DateStyle::parse(&String::from("dto"), (), "test").unwrap(), DateStyle::Ymdhmso);
    assert_eq!(DateStyle::parse(&String::from("unix"), (), "test").unwrap(), DateStyle::Unix);
    assert!(DateStyle::parse(&String::from("iso"), (), "test").is_err());
    assert_eq!(DateStyle::default(), DateStyle::Ymdhms);
}
