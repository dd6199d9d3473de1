//! Runtime configuration: the values that command line and config file resolve to.
pub mod toml;
pub mod types;

use crate::config::toml::Toml;
use crate::config::types::{
    ArgError, ArgErrorView, ArgParse, Average, DurationStyle, OutStyle, ResumeKind, Show,
};
use crate::datetime::{DateStyle, TimeBound, Timespan};
use crate::parse::ansi::{apply_colors, default_theme, AnsiStr, Theme, ThemeView};
use crate::text::{dec_int, i64_of, to_string, views, words};
use vstd::utf8::encode_utf8;
use vstd::prelude::*;

verus! {

/// Common config
///
/// Using raw `set/clear` ANSI colors instead of some `paint()` method to simplify alignment.
pub struct Conf {
    pub pkg: AnsiStr,
    pub binpkg: AnsiStr,
    pub merge: AnsiStr,
    pub binmerge: AnsiStr,
    pub unmerge: AnsiStr,
    pub sync: AnsiStr,
    pub dur: AnsiStr,
    pub cnt: AnsiStr,
    pub qmark: AnsiStr,
    pub skip: AnsiStr,
    pub clr: AnsiStr,
    pub lineend: &'static str,
    pub header: bool,
    pub showskip: bool,
    pub dur_t: DurationStyle,
    /// Offset from UTC of the dates shown, in seconds.
    pub date_offset: i32,
    pub date_fmt: DateStyle,
    pub out: OutStyle,
    pub logfile: String,
    pub from: TimeBound,
    pub to: TimeBound,
}

/// Options of the `log` command.
pub struct ConfLog {
    pub show: Show,
    pub search: Vec<String>,
    pub exact: bool,
    pub starttime: bool,
    pub first: usize,
    pub last: usize,
}

/// Options of the `predict` command.
pub struct ConfPred {
    pub show: Show,
    pub avg: Average,
    pub first: usize,
    pub last: usize,
    pub lim: u16,
    pub resume: ResumeKind,
    pub unknownb: i64,
    pub unknownc: i64,
    pub tmpdirs: Vec<String>,
    pub mtimedbfile: String,
    pub pwidth: usize,
    pub pdepth: usize,
}

/// Options of the `stats` command.
pub struct ConfStats {
    pub show: Show,
    pub search: Vec<String>,
    pub exact: bool,
    pub avg: Average,
    pub lim: u16,
    pub group: Timespan,
}

/// Options of the `accuracy` command.
pub struct ConfAccuracy {
    pub show: Show,
    pub search: Vec<String>,
    pub exact: bool,
    pub avg: Average,
    pub first: usize,
    pub last: usize,
    pub lim: u16,
}

/// Options of the `complete` command.
pub struct ConfComplete {
    pub shell: Option<String>,
    pub pkg: Option<String>,
}

/// Global config, one variant per command.
pub enum Configs {
    Log(Conf, ConfLog),
    Stats(Conf, ConfStats),
    Predict(Conf, ConfPred),
    Accuracy(Conf, ConfAccuracy),
    Complete(Conf, ConfComplete),
}

/// The value of an optional reference.
pub open spec fn opt_val<T>(o: Option<&T>) -> Option<T> {
    match o {
        Some(v) => Some(*v),
        None => None,
    }
}

/// A result with its error taken by its view.
pub open spec fn res_view<R>(r: Result<R, ArgError>) -> Result<R, ArgErrorView> {
    match r {
        Ok(x) => Ok(x),
        Err(e) => Err(e@),
    }
}

/// The value of an option: the command-line value read, else the config-file value read, else
/// the default.
pub open spec fn sel_spec<T, A, R>(
    cli: Option<String>,
    toml: Option<T>,
    clisrc: Seq<char>,
    tomlsrc: Seq<char>,
    arg: A,
    def: R,
) -> Result<R, ArgErrorView> where R: ArgParse<String, A> + ArgParse<T, A> {
    match cli {
        Some(v) => <R as ArgParse<String, A>>::parse_spec(v, arg, clisrc),
        None => match toml {
            Some(t) => <R as ArgParse<T, A>>::parse_spec(t, arg, tomlsrc),
            None => Ok(def),
        },
    }
}

/// Command-line values take precedence over the config file, which takes precedence over the
/// default: a value given on the command line decides the option whatever the file and the
/// default hold, and a value in the file decides it whatever the default.
pub proof fn lemma_cli_first<T, A, R>(
    v: String,
    t1: Option<T>,
    t2: Option<T>,
    t: T,
    clisrc: Seq<char>,
    tomlsrc: Seq<char>,
    arg: A,
    d1: R,
    d2: R,
) where R: ArgParse<String, A> + ArgParse<T, A>
    ensures
        sel_spec(Some(v), t1, clisrc, tomlsrc, arg, d1) == sel_spec(Some(v), t2, clisrc, tomlsrc, arg, d2),
        sel_spec(Some(v), t1, clisrc, tomlsrc, arg, d1) == <R as ArgParse<String, A>>::parse_spec(v, arg, clisrc),
        sel_spec(None, Some(t), clisrc, tomlsrc, arg, d1) == sel_spec(None, Some(t), clisrc, tomlsrc, arg, d2),
        sel_spec(None::<String>, None::<T>, clisrc, tomlsrc, arg, d1) == Ok::<R, ArgErrorView>(d1),
{
}

/// The value of an option: from the command line when given there, else from the config file,
/// else the default.
pub fn sel<T, A, R>(
    cli: Option<&String>,
    toml: Option<&T>,
    clisrc: &'static str,
    tomlsrc: &'static str,
    arg: A,
    def: R,
) -> (r: Result<R, ArgError>) where R: ArgParse<String, A> + ArgParse<T, A>
    ensures
        res_view(r) == sel_spec(opt_val(cli), opt_val(toml), clisrc@, tomlsrc@, arg, def),
{
    if let Some(val) = cli {
        <R as ArgParse<String, A>>::parse(val, arg, clisrc)
    } else if let Some(val) = toml {
        <R as ArgParse<T, A>>::parse(val, arg, tomlsrc)
    } else {
        Ok(def)
    }
}

/// The colors of a theme when colors are on, else plain markers.
pub open spec fn styled(color: bool, themed: &'static str, plain: &'static str) -> &'static str {
    if color {
        themed
    } else {
        plain
    }
}

impl Conf {
    /// The common config from resolved options: colors come from the theme when `color` is on,
    /// and merges are otherwise marked with `>>> ` and unmerges with `<<< `.
    pub fn new(
        theme: &Theme,
        color: bool,
        header: bool,
        showskip: bool,
        dur_t: DurationStyle,
        date_offset: i32,
        date_fmt: DateStyle,
        out: OutStyle,
        logfile: String,
        from: TimeBound,
        to: TimeBound,
    ) -> (r: Self)
        ensures
            r.pkg.val == styled(color, theme.merge, ""),
            r.binpkg.val == styled(color, theme.binmerge, ""),
            r.merge.val == styled(color, theme.merge, ">>> "),
            r.binmerge.val == styled(color, theme.binmerge, ">>> "),
            r.unmerge.val == styled(color, theme.unmerge, "<<< "),
            r.sync.val == styled(color, theme.sync, ""),
            r.dur.val == styled(color, theme.duration, ""),
            r.cnt.val == styled(color, theme.count, ""),
            r.qmark.val == styled(color, theme.qmark, ""),
            r.skip.val == styled(color, theme.skip, ""),
            r.clr.val == styled(color, "\x1B[m", ""),
            r.lineend == styled(color, "\x1B[m\n", "\n"),
            r.header == header,
            r.showskip == showskip,
            r.dur_t == dur_t,
            r.date_offset == date_offset,
            r.date_fmt == date_fmt,
            r.out == out,
            r.logfile == logfile,
            r.from == from,
            r.to == to,
    {
        Conf {
            pkg: AnsiStr::from(if color { theme.merge } else { "" }),
            binpkg: AnsiStr::from(if color { theme.binmerge } else { "" }),
            merge: AnsiStr::from(if color { theme.merge } else { ">>> " }),
            binmerge: AnsiStr::from(if color { theme.binmerge } else { ">>> " }),
            unmerge: AnsiStr::from(if color { theme.unmerge } else { "<<< " }),
            sync: AnsiStr::from(if color { theme.sync } else { "" }),
            dur: AnsiStr::from(if color { theme.duration } else { "" }),
            cnt: AnsiStr::from(if color { theme.count } else { "" }),
            qmark: AnsiStr::from(if color { theme.qmark } else { "" }),
            skip: AnsiStr::from(if color { theme.skip } else { "" }),
            clr: AnsiStr::from(if color { "\x1B[m" } else { "" }),
            lineend: if color { "\x1B[m\n" } else { "\n" },
            header,
            showskip,
            dur_t,
            date_offset,
            date_fmt,
            out,
            logfile,
            from,
            to,
        }
    }
}

/// The command-line values of the common options, as given (`None` when absent).
pub struct CliConf {
    pub color: Option<String>,
    pub utc: Option<String>,
    pub theme: Option<String>,
    pub from: Option<String>,
    pub to: Option<String>,
    pub logfile: Option<String>,
    pub header: Option<String>,
    pub showskip: Option<String>,
    pub duration: Option<String>,
    pub date: Option<String>,
    pub output: Option<String>,
}

/// The common options once read.
pub struct ConfChoice {
    pub color: bool,
    pub theme: ThemeView,
    pub logfile: Seq<char>,
    pub from: TimeBound,
    pub to: TimeBound,
    pub header: bool,
    pub showskip: bool,
    pub dur_t: DurationStyle,
    pub date_fmt: DateStyle,
    pub out: OutStyle,
}

/// The error of a choice, if it failed.
pub open spec fn err_of<R>(r: Result<R, ArgErrorView>) -> Option<ArgErrorView> {
    match r {
        Ok(_) => None,
        Err(e) => Some(e),
    }
}

/// The first error of a list of choices.
pub open spec fn first_err(errs: Seq<Option<ArgErrorView>>) -> Option<ArgErrorView>
    decreases errs.len(),
{
    if errs.len() == 0 {
        None
    } else if errs[0] is Some {
        errs[0]
    } else {
        first_err(errs.drop_first())
    }
}

/// The theme: the default, updated by the config file, then by the command line.
pub open spec fn theme_choice(cli: Option<String>, toml: Option<String>) -> Result<ThemeView, ArgErrorView> {
    let t = match toml {
        Some(s) => apply_colors(default_theme(), words(s@, false), "theme"@),
        None => Ok(default_theme()),
    };
    match t {
        Ok(t) => match cli {
            Some(s) => apply_colors(t, words(s@, false), "--theme"@),
            None => Ok(t),
        },
        Err(e) => Err(e),
    }
}

/// A `--from`/`--to` bound: unbounded when not given.
pub open spec fn bound_choice(v: Option<String>, offset: i32, now: i64, src: Seq<char>) -> Result<
    TimeBound,
    ArgErrorView,
> {
    match v {
        Some(d) => <TimeBound as ArgParse<String, (i32, i64)>>::parse_spec(d, (offset, now), src),
        None => Ok(TimeBound::Unbounded),
    }
}

/// The log file: from the command line, else the config file, else `/var/log/emerge.log`.
pub open spec fn logfile_choice(cli: Option<String>, toml: Option<String>) -> Seq<char> {
    match cli {
        Some(v) => v@,
        None => match toml {
            Some(v) => v@,
            None => "/var/log/emerge.log"@,
        },
    }
}

/// Whether dates are in UTC, after the color option is read.
pub open spec fn utc_choice(cli: CliConf, toml: Toml, isterm: bool) -> Result<bool, ArgErrorView> {
    match sel_spec::<String, bool, bool>(cli.color, toml.color, "--color"@, "color"@, isterm, isterm) {
        Err(e) => Err(e),
        Ok(_) => sel_spec::<bool, (), bool>(cli.utc, toml.utc, "--utc"@, "utc"@, (), false),
    }
}

/// The common options that the command line and the config file give, or the first error in the
/// order they are read: color, utc, theme, log file, `--from`, `--to`, header, showskip,
/// duration, date, output. Colors default to whether the output is a terminal, and so does the
/// output style (columns on a terminal, tabs otherwise).
pub open spec fn conf_choice(cli: CliConf, toml: Toml, isterm: bool, offset: i32, now: i64) -> Result<
    ConfChoice,
    ArgErrorView,
> {
    let color = sel_spec::<String, bool, bool>(cli.color, toml.color, "--color"@, "color"@, isterm, isterm);
    let utc = sel_spec::<bool, (), bool>(cli.utc, toml.utc, "--utc"@, "utc"@, (), false);
    let theme = theme_choice(cli.theme, toml.theme);
    let from = bound_choice(cli.from, offset, now, "--from"@);
    let to = bound_choice(cli.to, offset, now, "--to"@);
    let header = sel_spec::<bool, (), bool>(cli.header, toml.header, "--header"@, "header"@, (), false);
    let showskip = sel_spec::<bool, (), bool>(
        cli.showskip,
        toml.showskip,
        "--showskip"@,
        "showskip"@,
        (),
        false,
    );
    let dur_t = sel_spec::<String, (), DurationStyle>(
        cli.duration,
        toml.duration,
        "--duration"@,
        "duration"@,
        (),
        DurationStyle::Hms,
    );
    let date_fmt = sel_spec::<String, (), DateStyle>(
        cli.date,
        toml.date,
        "--date"@,
        "date"@,
        (),
        DateStyle::Ymdhms,
    );
    let out = sel_spec::<String, bool, OutStyle>(
        cli.output,
        toml.output,
        "--output"@,
        "output"@,
        isterm,
        if isterm { OutStyle::Columns } else { OutStyle::Tab },
    );
    match first_err(
        seq![
            err_of(color),
            err_of(utc),
            err_of(theme),
            err_of(from),
            err_of(to),
            err_of(header),
            err_of(showskip),
            err_of(dur_t),
            err_of(date_fmt),
            err_of(out),
        ],
    ) {
        Some(e) => Err(e),
        None => Ok(
            ConfChoice {
                color: color->Ok_0,
                theme: theme->Ok_0,
                logfile: logfile_choice(cli.logfile, toml.logfile),
                from: from->Ok_0,
                to: to->Ok_0,
                header: header->Ok_0,
                showskip: showskip->Ok_0,
                dur_t: dur_t->Ok_0,
                date_fmt: date_fmt->Ok_0,
                out: out->Ok_0,
            },
        ),
    }
}

/// `c` is the common config of the options `v`, with dates at `offset`: colors come from the
/// theme when `color` is on, and merges are otherwise marked with `>>> ` and unmerges with
/// `<<< `.
pub open spec fn conf_is(c: Conf, v: ConfChoice, offset: i32) -> bool {
    &&& c.pkg.val@ == (if v.color { v.theme.merge } else { ""@ })
    &&& c.binpkg.val@ == (if v.color { v.theme.binmerge } else { ""@ })
    &&& c.merge.val@ == (if v.color { v.theme.merge } else { ">>> "@ })
    &&& c.binmerge.val@ == (if v.color { v.theme.binmerge } else { ">>> "@ })
    &&& c.unmerge.val@ == (if v.color { v.theme.unmerge } else { "<<< "@ })
    &&& c.sync.val@ == (if v.color { v.theme.sync } else { ""@ })
    &&& c.dur.val@ == (if v.color { v.theme.duration } else { ""@ })
    &&& c.cnt.val@ == (if v.color { v.theme.count } else { ""@ })
    &&& c.qmark.val@ == (if v.color { v.theme.qmark } else { ""@ })
    &&& c.skip.val@ == (if v.color { v.theme.skip } else { ""@ })
    &&& c.clr.val@ == (if v.color { "\x1B[m"@ } else { ""@ })
    &&& c.lineend@ == (if v.color { "\x1B[m\n"@ } else { "\n"@ })
    &&& c.header == v.header
    &&& c.showskip == v.showskip
    &&& c.dur_t == v.dur_t
    &&& c.date_offset == offset
    &&& c.date_fmt == v.date_fmt
    &&& c.out == v.out
    &&& c.logfile@ == v.logfile
    &&& c.from == v.from
    &&& c.to == v.to
}

impl Conf {
    /// Whether dates are read and shown in UTC; the color option is read first, as `try_new`
    /// reads it.
    pub fn utc(cli: &CliConf, toml: &Toml, isterm: bool) -> (r: Result<bool, ArgError>)
        ensures
            res_view(r) == utc_choice(*cli, *toml, isterm),
    {
        let color = sel(cli.color.as_ref(), toml.color.as_ref(), "--color", "color", isterm, isterm);
        if let Err(e) = color {
            return Err(e);
        }
        sel(cli.utc.as_ref(), toml.utc.as_ref(), "--utc", "utc", (), false)
    }

    /// The common config from the command line and the config file, dates being at `offset` and
    /// relative dates counted back from `now`.
    pub fn try_new(cli: &CliConf, toml: &Toml, isterm: bool, offset: i32, now: i64) -> (r: Result<
        Conf,
        ArgError,
    >)
        ensures
            match r {
                Ok(c) => conf_choice(*cli, *toml, isterm, offset, now) matches Ok(v) && conf_is(
                    c,
                    v,
                    offset,
                ),
                Err(e) => conf_choice(*cli, *toml, isterm, offset, now) == Err::<
                    ConfChoice,
                    ArgErrorView,
                >(e@),
            },
    {
        proof {
            reveal_with_fuel(first_err, 11);
        }
        let color = match sel(cli.color.as_ref(), toml.color.as_ref(), "--color", "color", isterm, isterm) {
            Ok(c) => c,
            Err(e) => return Err(e),
        };
        match sel(cli.utc.as_ref(), toml.utc.as_ref(), "--utc", "utc", (), false) {
            Ok(_) => {},
            Err(e) => return Err(e),
        };
        let theme = match Theme::new().update(toml.theme.as_ref(), "theme") {
            Ok(t) => t,
            Err(e) => return Err(e),
        };
        let theme = match theme.update(cli.theme.as_ref(), "--theme") {
            Ok(t) => t,
            Err(e) => return Err(e),
        };
        let logfile = match sel(
            cli.logfile.as_ref(),
            toml.logfile.as_ref(),
            "--logfile",
            "logfile",
            (),
            to_string("/var/log/emerge.log"),
        ) {
            Ok(l) => l,
            Err(e) => return Err(e),
        };
        let from = match &cli.from {
            Some(d) => match TimeBound::parse(d, (offset, now), "--from") {
                Ok(b) => b,
                Err(e) => return Err(e),
            },
            None => TimeBound::Unbounded,
        };
        let to = match &cli.to {
            Some(d) => match TimeBound::parse(d, (offset, now), "--to") {
                Ok(b) => b,
                Err(e) => return Err(e),
            },
            None => TimeBound::Unbounded,
        };
        let header = match sel(cli.header.as_ref(), toml.header.as_ref(), "--header", "header", (), false) {
            Ok(b) => b,
            Err(e) => return Err(e),
        };
        let showskip = match sel(
            cli.showskip.as_ref(),
            toml.showskip.as_ref(),
            "--showskip",
            "showskip",
            (),
            false,
        ) {
            Ok(b) => b,
            Err(e) => return Err(e),
        };
        let dur_t = match sel(
            cli.duration.as_ref(),
            toml.duration.as_ref(),
            "--duration",
            "duration",
            (),
            DurationStyle::Hms,
        ) {
            Ok(d) => d,
            Err(e) => return Err(e),
        };
        let date_fmt = match sel(cli.date.as_ref(), toml.date.as_ref(), "--date", "date", (), DateStyle::default()) {
            Ok(d) => d,
            Err(e) => return Err(e),
        };
        let outdef = if isterm { OutStyle::Columns } else { OutStyle::Tab };
        let out = match sel(cli.output.as_ref(), toml.output.as_ref(), "--output", "output", isterm, outdef) {
            Ok(o) => o,
            Err(e) => return Err(e),
        };
        Ok(Conf::new(&theme, color, header, showskip, dur_t, offset, date_fmt, out, logfile, from, to))
    }
}

/// A number option within `lo..=hi`, read as `sel` reads it.
pub open spec fn in_bounds(i: i64, lo: i64, hi: i64, src: Seq<char>) -> Result<i64, ArgErrorView> {
    if lo <= i <= hi {
        Ok(i)
    } else {
        Err(
            ArgErrorView {
                msg: "Should be between "@ + dec_int(lo as int) + " and "@ + dec_int(hi as int),
                ..crate::config::types::err_new(dec_int(i as int), src)
            },
        )
    }
}

/// A number option within `lo..=hi`: from the command line (which must hold an integer), else the
/// config file, else the default.
pub open spec fn num_choice(
    cli: Option<String>,
    toml: Option<i64>,
    clisrc: Seq<char>,
    tomlsrc: Seq<char>,
    lo: i64,
    hi: i64,
    def: i64,
) -> Result<i64, ArgErrorView> {
    match cli {
        Some(v) => match i64_of(encode_utf8(v@)) {
            Some(i) => in_bounds(i, lo, hi, clisrc),
            None => Err(
                ArgErrorView {
                    msg: "Not an integer"@,
                    ..crate::config::types::err_new(v@, clisrc)
                },
            ),
        },
        None => match toml {
            Some(i) => in_bounds(i, lo, hi, tomlsrc),
            None => Ok(def),
        },
    }
}

/// A number option within `lo..=hi`.
fn num_sel(
    cli: Option<&String>,
    toml: Option<&i64>,
    clisrc: &'static str,
    tomlsrc: &'static str,
    lo: i64,
    hi: i64,
    def: i64,
) -> (r: Result<i64, ArgError>)
    ensures
        res_view(r) == num_choice(opt_val(cli), opt_val(toml), clisrc@, tomlsrc@, lo, hi, def),
        r matches Ok(i) ==> (lo <= i <= hi || i == def),
{
    sel(cli, toml, clisrc, tomlsrc, lo..=hi, def)
}

/// A count option: the given value, else no limit.
pub open spec fn or_max(o: Option<usize>) -> usize {
    match o {
        Some(n) => n,
        None => usize::MAX,
    }
}

/// The command-line values of the `log` options.
pub struct CliLog {
    pub show: Option<String>,
    pub starttime: Option<String>,
    pub search: Vec<String>,
    pub exact: bool,
    pub first: Option<usize>,
    pub last: Option<usize>,
}

/// The events `log` shows and whether it dates merges by their start: show defaults to merges,
/// start times to off.
pub open spec fn log_choice(cli: CliLog, toml: Toml) -> Result<(Show, bool), ArgErrorView> {
    let show = sel_spec::<String, &'static str, Show>(
        cli.show,
        match toml.log {
            Some(l) => l.show,
            None => None,
        },
        "--show"@,
        "[log] show"@,
        "rmusa",
        Show { run: false, pkg: false, tot: false, sync: false, merge: true, unmerge: false },
    );
    let starttime = sel_spec::<bool, (), bool>(
        cli.starttime,
        match toml.log {
            Some(l) => l.starttime,
            None => None,
        },
        "--starttime"@,
        "[log] starttime"@,
        (),
        false,
    );
    match (show, starttime) {
        (Err(e), _) => Err(e),
        (Ok(_), Err(e)) => Err(e),
        (Ok(s), Ok(t)) => Ok((s, t)),
    }
}

impl ConfLog {
    /// The `log` options from the command line and the config file.
    pub fn try_new(cli: CliLog, toml: &Toml) -> (r: Result<ConfLog, ArgError>)
        ensures
            match r {
                Ok(c) => {
                    &&& log_choice(cli, *toml) == Ok::<(Show, bool), ArgErrorView>((c.show, c.starttime))
                    &&& c.search@ == cli.search@
                    &&& c.exact == cli.exact
                    &&& c.first == or_max(cli.first)
                    &&& c.last == or_max(cli.last)
                },
                Err(e) => log_choice(cli, *toml) == Err::<(Show, bool), ArgErrorView>(e@),
            },
    {
        let tshow: Option<&String> = match &toml.log {
            Some(t) => t.show.as_ref(),
            None => None,
        };
        let show = match sel(cli.show.as_ref(), tshow, "--show", "[log] show", "rmusa", Show::m()) {
            Ok(s) => s,
            Err(e) => return Err(e),
        };
        let tstart: Option<&bool> = match &toml.log {
            Some(t) => t.starttime.as_ref(),
            None => None,
        };
        let starttime = match sel(
            cli.starttime.as_ref(),
            tstart,
            "--starttime",
            "[log] starttime",
            (),
            false,
        ) {
            Ok(b) => b,
            Err(e) => return Err(e),
        };
        let first = match cli.first {
            Some(n) => n,
            None => usize::MAX,
        };
        let last = match cli.last {
            Some(n) => n,
            None => usize::MAX,
        };
        Ok(ConfLog { show, search: cli.search, exact: cli.exact, starttime, first, last })
    }
}

/// The command-line values of the `stats` options.
pub struct CliStats {
    pub show: Option<String>,
    pub limit: Option<String>,
    pub avg: Option<String>,
    pub group: Option<String>,
    pub search: Vec<String>,
    pub exact: bool,
}

/// What `stats` shows (packages by default), the number of durations a prediction uses (1 to
/// 65000, 10 by default), the average (median by default) and the grouping (none by default).
pub open spec fn stats_choice(cli: CliStats, toml: Toml) -> Result<
    (Show, i64, Average, Timespan),
    ArgErrorView,
> {
    let t = toml.stats;
    let show = sel_spec::<String, &'static str, Show>(
        cli.show,
        match t {
            Some(s) => s.show,
            None => None,
        },
        "--show"@,
        "[stats] show"@,
        "rptsa",
        Show { run: false, pkg: true, tot: false, sync: false, merge: false, unmerge: false },
    );
    let lim = num_choice(
        cli.limit,
        match t {
            Some(s) => s.limit,
            None => None,
        },
        "--limit"@,
        "[stats] limit"@,
        1,
        65000,
        10,
    );
    let avg = sel_spec::<String, (), Average>(
        cli.avg,
        match t {
            Some(s) => s.avg,
            None => None,
        },
        "--avg"@,
        "[stats] avg"@,
        (),
        Average::Median,
    );
    let group = sel_spec::<String, (), Timespan>(
        cli.group,
        match t {
            Some(s) => s.group,
            None => None,
        },
        "--groupby"@,
        "[stats] group"@,
        (),
        Timespan::NoGroup,
    );
    match (show, lim, avg, group) {
        (Err(e), _, _, _) => Err(e),
        (Ok(_), Err(e), _, _) => Err(e),
        (Ok(_), Ok(_), Err(e), _) => Err(e),
        (Ok(_), Ok(_), Ok(_), Err(e)) => Err(e),
        (Ok(s), Ok(l), Ok(a), Ok(g)) => Ok((s, l, a, g)),
    }
}

impl ConfStats {
    /// The `stats` options from the command line and the config file.
    pub fn try_new(cli: CliStats, toml: &Toml) -> (r: Result<ConfStats, ArgError>)
        ensures
            match r {
                Ok(c) => {
                    &&& stats_choice(cli, *toml) matches Ok((s, l, a, g)) && c.show == s && c.lim
                        == l && c.avg == a && c.group == g
                    &&& c.search@ == cli.search@
                    &&& c.exact == cli.exact
                },
                Err(e) => stats_choice(cli, *toml) == Err::<(Show, i64, Average, Timespan), ArgErrorView>(
                    e@,
                ),
            },
    {
        let t = &toml.stats;
        let tshow: Option<&String> = match t {
            Some(s) => s.show.as_ref(),
            None => None,
        };
        let show = match sel(cli.show.as_ref(), tshow, "--show", "[stats] show", "rptsa", Show::p()) {
            Ok(s) => s,
            Err(e) => return Err(e),
        };
        let tlim: Option<&i64> = match t {
            Some(s) => s.limit.as_ref(),
            None => None,
        };
        let lim = match num_sel(cli.limit.as_ref(), tlim, "--limit", "[stats] limit", 1, 65000, 10) {
            Ok(l) => l,
            Err(e) => return Err(e),
        };
        let tavg: Option<&String> = match t {
            Some(s) => s.avg.as_ref(),
            None => None,
        };
        let avg = match sel(cli.avg.as_ref(), tavg, "--avg", "[stats] avg", (), Average::Median) {
            Ok(a) => a,
            Err(e) => return Err(e),
        };
        let tgroup: Option<&String> = match t {
            Some(s) => s.group.as_ref(),
            None => None,
        };
        let group = match sel(cli.group.as_ref(), tgroup, "--groupby", "[stats] group", (), Timespan::NoGroup) {
            Ok(g) => g,
            Err(e) => return Err(e),
        };
        Ok(ConfStats { show, search: cli.search, exact: cli.exact, lim: lim as u16, avg, group })
    }
}

/// The command-line values of the `accuracy` options.
pub struct CliAccuracy {
    pub show: Option<String>,
    pub avg: Option<String>,
    pub limit: Option<String>,
    pub search: Vec<String>,
    pub exact: bool,
    pub first: Option<usize>,
    pub last: Option<usize>,
}

/// What `accuracy` shows (merges and totals by default), the average (median by default) and the
/// number of durations a prediction uses (1 to 65000, 10 by default).
pub open spec fn accuracy_choice(cli: CliAccuracy, toml: Toml) -> Result<(Show, Average, i64), ArgErrorView> {
    let t = toml.accuracy;
    let show = sel_spec::<String, &'static str, Show>(
        cli.show,
        match t {
            Some(a) => a.show,
            None => None,
        },
        "--show"@,
        "[accuracy] show"@,
        "mpta",
        Show { run: false, pkg: false, tot: true, sync: false, merge: true, unmerge: false },
    );
    let avg = sel_spec::<String, (), Average>(
        cli.avg,
        match t {
            Some(a) => a.avg,
            None => None,
        },
        "--avg"@,
        "[accuracy] avg"@,
        (),
        Average::Median,
    );
    let lim = num_choice(
        cli.limit,
        match t {
            Some(a) => a.limit,
            None => None,
        },
        "--limit"@,
        "[accuracy] limit"@,
        1,
        65000,
        10,
    );
    match (show, avg, lim) {
        (Err(e), _, _) => Err(e),
        (Ok(_), Err(e), _) => Err(e),
        (Ok(_), Ok(_), Err(e)) => Err(e),
        (Ok(s), Ok(a), Ok(l)) => Ok((s, a, l)),
    }
}

impl ConfAccuracy {
    /// The `accuracy` options from the command line and the config file.
    pub fn try_new(cli: CliAccuracy, toml: &Toml) -> (r: Result<ConfAccuracy, ArgError>)
        ensures
            match r {
                Ok(c) => {
                    &&& accuracy_choice(cli, *toml) matches Ok((s, a, l)) && c.show == s && c.avg == a
                        && c.lim == l
                    &&& c.search@ == cli.search@
                    &&& c.exact == cli.exact
                    &&& c.first == or_max(cli.first)
                    &&& c.last == or_max(cli.last)
                },
                Err(e) => accuracy_choice(cli, *toml) == Err::<(Show, Average, i64), ArgErrorView>(e@),
            },
    {
        let t = &toml.accuracy;
        let tshow: Option<&String> = match t {
            Some(a) => a.show.as_ref(),
            None => None,
        };
        let show = match sel(cli.show.as_ref(), tshow, "--show", "[accuracy] show", "mpta", Show::mt()) {
            Ok(s) => s,
            Err(e) => return Err(e),
        };
        let tavg: Option<&String> = match t {
            Some(a) => a.avg.as_ref(),
            None => None,
        };
        let avg = match sel(cli.avg.as_ref(), tavg, "--avg", "[accuracy] avg", (), Average::Median) {
            Ok(a) => a,
            Err(e) => return Err(e),
        };
        let tlim: Option<&i64> = match t {
            Some(a) => a.limit.as_ref(),
            None => None,
        };
        let lim = match num_sel(cli.limit.as_ref(), tlim, "--limit", "[accuracy] limit", 1, 65000, 10) {
            Ok(l) => l,
            Err(e) => return Err(e),
        };
        let first = match cli.first {
            Some(n) => n,
            None => usize::MAX,
        };
        let last = match cli.last {
            Some(n) => n,
            None => usize::MAX,
        };
        Ok(ConfAccuracy { show, search: cli.search, exact: cli.exact, avg, first, last, lim: lim as u16 })
    }
}

/// The command-line values of the `predict` options.
pub struct CliPred {
    pub show: Option<String>,
    pub avg: Option<String>,
    pub limit: Option<String>,
    pub unknownb: Option<String>,
    pub unknownc: Option<String>,
    pub pwidth: Option<String>,
    pub pdepth: Option<String>,
    pub resume: Option<ResumeKind>,
    pub tmpdir: Option<Vec<String>>,
    pub first: Option<usize>,
    pub last: Option<usize>,
}

/// The `predict` options once read.
pub struct PredChoice {
    pub show: Show,
    pub avg: Average,
    pub lim: i64,
    pub unknownb: i64,
    pub unknownc: i64,
    pub pwidth: i64,
    pub pdepth: i64,
}

/// The `predict` options, or the first error in the order they are read: show (processes,
/// merges and total by default), average (median), limit (1 to 65000, 10), the assumed times of
/// unknown binary and compiled merges (0 to 3600, 10 and 30), the process width (10 to 1000, 60)
/// and depth (0 to 100, 3).
pub open spec fn pred_choice(cli: CliPred, toml: Toml) -> Result<PredChoice, ArgErrorView> {
    let t = toml.predict;
    let show = sel_spec::<String, &'static str, Show>(
        cli.show,
        match t {
            Some(p) => p.show,
            None => None,
        },
        "--show"@,
        "[predict] show"@,
        "rmta",
        Show { run: true, pkg: false, tot: true, sync: false, merge: true, unmerge: false },
    );
    let avg = sel_spec::<String, (), Average>(
        cli.avg,
        match t {
            Some(p) => p.avg,
            None => None,
        },
        "--avg"@,
        "[predict] avg"@,
        (),
        Average::Median,
    );
    let lim = num_choice(
        cli.limit,
        match t {
            Some(p) => p.limit,
            None => None,
        },
        "--limit"@,
        "[predict] limit"@,
        1,
        65000,
        10,
    );
    let unknownb = num_choice(
        cli.unknownb,
        match t {
            Some(p) => p.unknownb,
            None => None,
        },
        "--unknownb"@,
        "[predict] unknownb"@,
        0,
        3600,
        10,
    );
    let unknownc = num_choice(
        cli.unknownc,
        match t {
            Some(p) => p.unknownc,
            None => None,
        },
        "--unknownc"@,
        "[predict] unknownc"@,
        0,
        3600,
        30,
    );
    let pwidth = num_choice(
        cli.pwidth,
        match t {
            Some(p) => p.pwidth,
            None => None,
        },
        "--pwidth"@,
        "[predict] pwidth"@,
        10,
        1000,
        60,
    );
    let pdepth = num_choice(
        cli.pdepth,
        match t {
            Some(p) => p.pdepth,
            None => None,
        },
        "--pdepth"@,
        "[predict] pdepth"@,
        0,
        100,
        3,
    );
    match first_err(
        seq![
            err_of(show),
            err_of(avg),
            err_of(lim),
            err_of(unknownb),
            err_of(unknownc),
            err_of(pwidth),
            err_of(pdepth),
        ],
    ) {
        Some(e) => Err(e),
        None => Ok(
            PredChoice {
                show: show->Ok_0,
                avg: avg->Ok_0,
                lim: lim->Ok_0,
                unknownb: unknownb->Ok_0,
                unknownc: unknownc->Ok_0,
                pwidth: pwidth->Ok_0,
                pdepth: pdepth->Ok_0,
            },
        ),
    }
}

/// The portage temporary directories: from the command line, else the config file, else
/// `/var/tmp`.
pub open spec fn tmpdirs_choice(cli: Option<Vec<String>>, toml: Toml) -> Seq<Seq<char>> {
    match cli {
        Some(v) => views(v@),
        None => match toml.predict {
            Some(p) => match p.tmpdir {
                Some(v) => views(v@),
                None => seq!["/var/tmp"@],
            },
            None => seq!["/var/tmp"@],
        },
    }
}

/// The portage state file: from the config file, else `/var/cache/edb/mtimedb`.
pub open spec fn mtimedb_choice(toml: Toml) -> Seq<char> {
    match toml.predict {
        Some(p) => match p.mtimedbfile {
            Some(f) => f@,
            None => "/var/cache/edb/mtimedb"@,
        },
        None => "/var/cache/edb/mtimedb"@,
    }
}

/// A copy of a list of strings.
fn copy_strings(v: &Vec<String>) -> (r: Vec<String>)
    ensures
        views(r@) == views(v@),
{
    let mut r: Vec<String> = Vec::new();
    let mut i: usize = 0;
    while i < v.len()
        invariant
            i <= v@.len(),
            views(r@) == views(v@.take(i as int)),
        decreases v@.len() - i,
    {
        let ghost before = views(r@);
        r.push(to_string(v[i].as_str()));
        assert(views(r@) =~= before.push(v@[i as int]@));
        assert(views(v@.take(i + 1)) =~= views(v@.take(i as int)).push(v@[i as int]@));
        i += 1;
    }
    assert(v@.take(i as int) =~= v@);
    r
}

impl ConfPred {
    /// The `predict` options from the command line and the config file.
    pub fn try_new(cli: CliPred, toml: &Toml) -> (r: Result<ConfPred, ArgError>)
        ensures
            match r {
                Ok(c) => {
                    &&& pred_choice(cli, *toml) matches Ok(v) && c.show == v.show && c.avg == v.avg
                        && c.lim == v.lim && c.unknownb == v.unknownb && c.unknownc == v.unknownc
                        && c.pwidth == v.pwidth && c.pdepth == v.pdepth
                    &&& views(c.tmpdirs@) == tmpdirs_choice(cli.tmpdir, *toml)
                    &&& c.mtimedbfile@ == mtimedb_choice(*toml)
                    &&& c.resume == match cli.resume {
                        Some(k) => k,
                        None => ResumeKind::Auto,
                    }
                    &&& c.first == or_max(cli.first)
                    &&& c.last == or_max(cli.last)
                },
                Err(e) => pred_choice(cli, *toml) == Err::<PredChoice, ArgErrorView>(e@),
            },
    {
        proof {
            reveal_with_fuel(first_err, 8);
        }
        let t = &toml.predict;
        let tmpdirs = match cli.tmpdir {
            Some(v) => v,
            None => match t {
                Some(p) => match &p.tmpdir {
                    Some(v) => copy_strings(v),
                    None => vec![to_string("/var/tmp")],
                },
                None => vec![to_string("/var/tmp")],
            },
        };
        let mtimedbfile = match t {
            Some(p) => match &p.mtimedbfile {
                Some(f) => to_string(f.as_str()),
                None => to_string("/var/cache/edb/mtimedb"),
            },
            None => to_string("/var/cache/edb/mtimedb"),
        };
        let tshow: Option<&String> = match t {
            Some(p) => p.show.as_ref(),
            None => None,
        };
        let show = match sel(cli.show.as_ref(), tshow, "--show", "[predict] show", "rmta", Show::rmt()) {
            Ok(s) => s,
            Err(e) => return Err(e),
        };
        let tavg: Option<&String> = match t {
            Some(p) => p.avg.as_ref(),
            None => None,
        };
        let avg = match sel(cli.avg.as_ref(), tavg, "--avg", "[predict] avg", (), Average::Median) {
            Ok(a) => a,
            Err(e) => return Err(e),
        };
        let tlim: Option<&i64> = match t {
            Some(p) => p.limit.as_ref(),
            None => None,
        };
        let lim = match num_sel(cli.limit.as_ref(), tlim, "--limit", "[predict] limit", 1, 65000, 10) {
            Ok(l) => l,
            Err(e) => return Err(e),
        };
        let tub: Option<&i64> = match t {
            Some(p) => p.unknownb.as_ref(),
            None => None,
        };
        let unknownb = match num_sel(
            cli.unknownb.as_ref(),
            tub,
            "--unknownb",
            "[predict] unknownb",
            0,
            3600,
            10,
        ) {
            Ok(u) => u,
            Err(e) => return Err(e),
        };
        let tuc: Option<&i64> = match t {
            Some(p) => p.unknownc.as_ref(),
            None => None,
        };
        let unknownc = match num_sel(
            cli.unknownc.as_ref(),
            tuc,
            "--unknownc",
            "[predict] unknownc",
            0,
            3600,
            30,
        ) {
            Ok(u) => u,
            Err(e) => return Err(e),
        };
        let tpw: Option<&i64> = match t {
            Some(p) => p.pwidth.as_ref(),
            None => None,
        };
        let pwidth = match num_sel(cli.pwidth.as_ref(), tpw, "--pwidth", "[predict] pwidth", 10, 1000, 60) {
            Ok(w) => w,
            Err(e) => return Err(e),
        };
        let tpd: Option<&i64> = match t {
            Some(p) => p.pdepth.as_ref(),
            None => None,
        };
        let pdepth = match num_sel(cli.pdepth.as_ref(), tpd, "--pdepth", "[predict] pdepth", 0, 100, 3) {
            Ok(d) => d,
            Err(e) => return Err(e),
        };
        let resume = match cli.resume {
            Some(k) => k,
            None => ResumeKind::Auto,
        };
        let first = match cli.first {
            Some(n) => n,
            None => usize::MAX,
        };
        let last = match cli.last {
            Some(n) => n,
            None => usize::MAX,
        };
        Ok(
            ConfPred {
                show,
                avg,
                first,
                last,
                lim: lim as u16,
                resume,
                unknownb,
                unknownc,
                tmpdirs,
                mtimedbfile,
                pwidth: pwidth as usize,
                pdepth: pdepth as usize,
            },
        )
    }
}

} // verus!
