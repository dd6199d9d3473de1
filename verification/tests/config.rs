use emlop::config::toml::{Toml, TomlPred};
use emlop::config::types::{Average, OutStyle, ResumeKind};
use emlop::config::{CliAccuracy, CliConf, CliLog, CliPred, CliStats, Conf, ConfAccuracy, ConfLog, ConfPred,
                    ConfStats};
use emlop::datetime::{DateStyle, TimeBound, Timespan};

fn no_cli() -> CliConf {
    CliConf { color: None,
              utc: None,
              theme: None,
              from: None,
              to: None,
              logfile: None,
              header: None,
              showskip: None,
              duration: None,
              date: None,
              output: None }
}

fn no_pred() -> CliPred {
    CliPred { show: None,
              avg: None,
              limit: None,
              unknownb: None,
              unknownc: None,
              pwidth: None,
              pdepth: None,
              resume: None,
              tmpdir: None,
              first: None,
              last: None }
}

#[test]
fn common_defaults() {
    let c = Conf::try_new(&no_cli(), &Toml::empty(), false, 3600, 0).unwrap();
    assert_eq!(c.logfile, "/var/log/emerge.log");
    assert_eq!(c.merge.val, ">>> ");
    assert_eq!(c.unmerge.val, "<<< ");
    assert_eq!(c.clr.val, "");
    assert_eq!(c.lineend, "\n");
    assert!(!c.header && !c.showskip);
    assert_eq!(c.out, OutStyle::Tab);
    assert_eq!(c.date_fmt, DateStyle::Ymdhms);
    assert_eq!(c.date_offset, 3600);
    assert_eq!((c.from, c.to), (TimeBound::Unbounded, TimeBound::Unbounded));
    let t = Conf::try_new(&no_cli(), &Toml::empty(), true, 0, 0).unwrap();
    assert_eq!(t.out, OutStyle::Columns);
    assert_eq!(t.clr.val, "\x1B[m");
    assert_eq!(t.merge.val, "\x1B[1;32m");
}

#[test]
fn command_line_over_file() {
    let mut toml = Toml::empty();
    toml.header = Some(false);
    toml.logfile = Some("/file.log".into());
    toml.color = Some("no".into());
    let mut cli = no_cli();
    cli.header = Some("y".into());
    cli.from = Some("42".into());
    let c = Conf::try_new(&cli, &toml, true, 0, 0).unwrap();
    assert!(c.header);
    assert_eq!(c.logfile, "/file.log");
    assert_eq!(c.merge.val, ">>> ");
    assert_eq!(c.from, TimeBound::Unix(42));
    cli.logfile = Some("/cli.log".into());
    assert_eq!(Conf::try_new(&cli, &toml, true, 0, 0).unwrap().logfile, "/cli.log");
    cli.utc = Some("yes".into());
    assert_eq!(Conf::utc(&cli, &toml, false).ok(), Some(true));
    assert_eq!(Conf::utc(&no_cli(), &Toml::empty(), false).ok(), Some(false));
}

#[test]
fn common_errors_come_in_order() {
    let mut cli = no_cli();
    cli.header = Some("maybe".into());
    cli.duration = Some("fortnight".into());
    let e = Conf::try_new(&cli, &Toml::empty(), false, 0, 0).err().unwrap().to_string();
    assert!(e.contains("--header") && e.contains("maybe"), "{e}");
    cli.color = Some("purple".into());
    let e = Conf::utc(&cli, &Toml::empty(), false).err().unwrap().to_string();
    assert!(e.contains("--color"), "{e}");
}

#[test]
fn command_defaults() {
    let t = Toml::empty();
    let l = ConfLog::try_new(CliLog { show: None,
                                      starttime: None,
                                      search: vec!["a".into()],
                                      exact: true,
                                      first: Some(3),
                                      last: None },
                             &t).unwrap();
    assert!(l.show.merge && !l.show.sync && !l.starttime && l.exact);
    assert_eq!((l.first, l.last, l.search), (3, usize::MAX, vec!["a".to_string()]));
    let s = ConfStats::try_new(CliStats { show: None,
                                          limit: None,
                                          avg: None,
                                          group: None,
                                          search: vec![],
                                          exact: false },
                               &t).unwrap();
    assert!(s.show.pkg && !s.show.merge);
    assert_eq!((s.lim, s.avg, s.group), (10, Average::Median, Timespan::NoGroup));
    let a = ConfAccuracy::try_new(CliAccuracy { show: None,
                                                avg: None,
                                                limit: None,
                                                search: vec![],
                                                exact: false,
                                                first: None,
                                                last: None },
                                  &t).unwrap();
    assert!(a.show.merge && a.show.tot && !a.show.pkg);
    let p = ConfPred::try_new(no_pred(), &t).unwrap();
    assert!(p.show.run && p.show.merge && p.show.tot);
    assert_eq!((p.lim, p.unknownb, p.unknownc, p.pwidth, p.pdepth), (10, 10, 30, 60, 3));
    assert_eq!(p.tmpdirs, vec!["/var/tmp".to_string()]);
    assert_eq!(p.mtimedbfile, "/var/cache/edb/mtimedb");
    assert_eq!(p.resume, ResumeKind::Auto);
}

#[test]
fn number_options() {
    let mut toml = Toml::empty();
    toml.predict = Some(TomlPred { show: None,
                                   avg: None,
                                   limit: Some(20),
                                   unknownb: None,
                                   unknownc: Some(4000),
                                   tmpdir: Some(vec!["/t".into()]),
                                   pwidth: None,
                                   pdepth: None,
                                   mtimedbfile: Some("/m".into()) });
    let mut cli = no_pred();
    cli.unknownc = Some("5".into());
    let p = ConfPred::try_new(cli, &toml).unwrap();
    assert_eq!((p.lim, p.unknownc), (20, 5));
    assert_eq!(p.tmpdirs, vec!["/t".to_string()]);
    assert_eq!(p.mtimedbfile, "/m");
    let e = ConfPred::try_new(no_pred(), &toml).err().unwrap().to_string();
    assert!(e.contains("[predict] unknownc") && e.contains("Should be between 0 and 3600"), "{e}");
    let mut cli = no_pred();
    cli.limit = Some("x".into());
    let e = ConfPred::try_new(cli, &Toml::empty()).err().unwrap().to_string();
    assert!(e.contains("--limit") && e.contains("Not an integer"), "{e}");
    let mut cli = no_pred();
    cli.pdepth = Some("101".into());
    assert!(ConfPred::try_new(cli, &Toml::empty()).is_err());
}
