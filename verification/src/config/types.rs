//! Typed command-line/config-file values and their parsing.
use crate::text::{
    dec_int, i64_of, i64_to_string, parse_i64, push_char, push_str, split_words, str_eq,
    str_has_char, to_string, views, words,
};
use std::ops::RangeInclusive;
use vstd::prelude::*;
use vstd::utf8::encode_utf8;

verus! {

/// What an `ArgError` holds, as character sequences.
#[verifier::ext_equal]
pub struct ArgErrorView {
    pub val: Seq<char>,
    pub src: Seq<char>,
    pub msg: Seq<char>,
    pub possible: Seq<char>,
}

/// Argument parsing error
///
/// Designed to look like clap's error, but more tailored to our usecase.
#[derive(Debug)]
pub struct ArgError {
    val: String,
    src: &'static str,
    msg: String,
    possible: &'static str,
}

impl View for ArgError {
    type V = ArgErrorView;

    closed spec fn view(&self) -> ArgErrorView {
        ArgErrorView { val: self.val@, src: self.src@, msg: self.msg@, possible: self.possible@ }
    }
}

/// The error view of `ArgError::new(val, src)`.
pub open spec fn err_new(val: Seq<char>, src: Seq<char>) -> ArgErrorView {
    ArgErrorView { val, src, msg: Seq::empty(), possible: Seq::empty() }
}

impl ArgError {
    /// Instantiate basic error with value and source
    pub fn new(val: &str, src: &'static str) -> (r: Self)
        ensures
            r@ == err_new(val@, src@),
    {
        let r = Self { val: to_string(val), src, msg: String::new(), possible: "" };
        proof {
            reveal_strlit("");
            assert(r@.possible =~= Seq::<char>::empty());
        }
        r
    }

    /// Set extra error message
    pub fn msg(self, msg: &str) -> (r: Self)
        ensures
            r@ == (ArgErrorView { msg: msg@, ..self@ }),
    {
        Self { msg: to_string(msg), ..self }
    }

    /// Set possible values (as a space-delimited string or as a set of letters)
    pub fn pos(self, possible: &'static str) -> (r: Self)
        ensures
            r@ == (ArgErrorView { possible: possible@, ..self@ }),
    {
        Self { possible, ..self }
    }
}

/// Parsing trait for args
///
/// Similar to `From` but takes extra context and returns a custom error. `parse_spec` states what
/// `parse` returns: the parsed value, or the view of the error.
pub trait ArgParse<T, A>: Sized {
    spec fn parse_spec(val: T, arg: A, src: Seq<char>) -> Result<Self, ArgErrorView>;

    fn parse(val: &T, arg: A, src: &'static str) -> (r: Result<Self, ArgError>)
        ensures
            match r {
                Ok(v) => Self::parse_spec(*val, arg, src@) == Ok::<Self, ArgErrorView>(v),
                Err(e) => Self::parse_spec(*val, arg, src@) == Err::<Self, ArgErrorView>(e@),
            },
    ;
}

impl ArgParse<bool, ()> for bool {
    open spec fn parse_spec(val: bool, arg: (), src: Seq<char>) -> Result<bool, ArgErrorView> {
        Ok(val)
    }

    fn parse(b: &bool, _a: (), _src: &'static str) -> (r: Result<bool, ArgError>) {
        Ok(*b)
    }
}

/// `y`/`yes` and `n`/`no`.
pub open spec fn bool_of(s: Seq<char>) -> Option<bool> {
    if s == "y"@ || s == "yes"@ {
        Some(true)
    } else if s == "n"@ || s == "no"@ {
        Some(false)
    } else {
        None
    }
}

impl ArgParse<String, ()> for bool {
    open spec fn parse_spec(val: String, arg: (), src: Seq<char>) -> Result<bool, ArgErrorView> {
        match bool_of(val@) {
            Some(b) => Ok(b),
            None => Err(ArgErrorView { possible: "y(es) n(o)"@, ..err_new(val@, src) }),
        }
    }

    fn parse(s: &String, _a: (), src: &'static str) -> (r: Result<bool, ArgError>) {
        let v = s.as_str();
        if str_eq(v, "y") || str_eq(v, "yes") {
            Ok(true)
        } else if str_eq(v, "n") || str_eq(v, "no") {
            Ok(false)
        } else {
            Err(ArgError::new(v, src).pos("y(es) n(o)"))
        }
    }
}


impl ArgParse<String, ()> for String {
    open spec fn parse_spec(val: String, arg: (), src: Seq<char>) -> Result<String, ArgErrorView> {
        Ok(val)
    }

    fn parse(s: &String, _a: (), _src: &'static str) -> (r: Result<String, ArgError>) {
        Ok(s.clone())
    }
}

/// Lower bound of an inclusive range (`RangeInclusive::start`).
#[verifier::external_body]
fn range_start(r: &RangeInclusive<i64>) -> (s: i64)
    ensures
        s == r@.start,
{
    *r.start()
}

/// Upper bound of an inclusive range (`RangeInclusive::end`).
#[verifier::external_body]
fn range_end(r: &RangeInclusive<i64>) -> (e: i64)
    ensures
        e == r@.end,
{
    *r.end()
}

/// Whether `i` lies in the range, as `RangeInclusive::contains` decides it.
pub open spec fn in_range(i: int, r: RangeInclusive<i64>) -> bool {
    r@.start <= i && if r@.exhausted { i < r@.end } else { i <= r@.end }
}

/// The message of an out-of-range error.
pub open spec fn range_msg(r: RangeInclusive<i64>) -> Seq<char> {
    "Should be between "@ + dec_int(r@.start as int) + " and "@ + dec_int(r@.end as int)
}

impl ArgParse<i64, RangeInclusive<i64>> for i64 {
    open spec fn parse_spec(val: i64, arg: RangeInclusive<i64>, src: Seq<char>) -> Result<
        i64,
        ArgErrorView,
    > {
        if in_range(val as int, arg) {
            Ok(val)
        } else {
            Err(ArgErrorView { msg: range_msg(arg), ..err_new(dec_int(val as int), src) })
        }
    }

    fn parse(i: &i64, r: RangeInclusive<i64>, src: &'static str) -> (res: Result<i64, ArgError>) {
        let start = range_start(&r);
        let end = range_end(&r);
        if r.contains(i) {
            Ok(*i)
        } else {
            let mut m = String::new();
            push_str(&mut m, "Should be between ");
            crate::text::push_i64(&mut m, start);
            push_str(&mut m, " and ");
            crate::text::push_i64(&mut m, end);
            Err(ArgError::new(i64_to_string(*i).as_str(), src).msg(m.as_str()))
        }
    }
}

impl ArgParse<String, RangeInclusive<i64>> for i64 {
    open spec fn parse_spec(val: String, arg: RangeInclusive<i64>, src: Seq<char>) -> Result<
        i64,
        ArgErrorView,
    > {
        match i64_of(encode_utf8(val@)) {
            Some(i) => <i64 as ArgParse<i64, RangeInclusive<i64>>>::parse_spec(i, arg, src),
            None => Err(ArgErrorView { msg: "Not an integer"@, ..err_new(val@, src) }),
        }
    }

    fn parse(s: &String, r: RangeInclusive<i64>, src: &'static str) -> (res: Result<i64, ArgError>) {
        match parse_i64(s.as_str().as_bytes()) {
            Some(i) => <i64 as ArgParse<i64, RangeInclusive<i64>>>::parse(&i, r, src),
            None => Err(ArgError::new(s.as_str(), src).msg("Not an integer")),
        }
    }
}


/// `sep` then each item in green, separated by `", "`.
pub open spec fn render_items(items: Seq<Seq<char>>, sep: Seq<char>) -> Seq<char>
    decreases items.len(),
{
    if items.len() == 0 {
        Seq::empty()
    } else {
        sep + "\x1B[32m"@ + items[0] + "\x1B[m"@ + render_items(items.drop_first(), ", "@)
    }
}

/// `sep` then each character in green, separated by `", "`.
pub open spec fn render_chars(p: Seq<char>, sep: Seq<char>) -> Seq<char>
    decreases p.len(),
{
    if p.len() == 0 {
        Seq::empty()
    } else {
        sep + "\x1B[32m"@ + seq![p[0]] + "\x1B[m"@ + render_chars(p.drop_first(), ", "@)
    }
}

/// The list of possible values: words if `p` holds a space, letters otherwise.
pub open spec fn possible_part(p: Seq<char>) -> Seq<char> {
    if p.len() == 0 {
        Seq::empty()
    } else if p.contains(' ') {
        render_items(words(p, true), "\n  possible values: "@)
    } else {
        render_chars(p, "\n  possible value: combination of "@)
    }
}

/// The text an `ArgError` displays.
pub open spec fn arg_error_text(e: ArgErrorView) -> Seq<char> {
    "\x1B[1;31m"@ + "error"@ + "\x1B[m"@ + ": invalid value '"@ + "\x1B[33m"@ + e.val + "\x1B[m"@
        + "' for '"@ + "\x1B[32m"@ + e.src + "\x1B[m"@ + "'"@ + (if e.msg.len() == 0 {
        Seq::empty()
    } else {
        ": "@ + e.msg
    }) + possible_part(e.possible) + "\n\nFor more information, try '"@ + "\x1B[32m"@
        + "--help"@ + "\x1B[m"@ + "'."@
}

fn push_items(f: &mut String, items: &Vec<String>, i: usize, sep: &str)
    requires
        i <= items@.len(),
    ensures
        final(f)@ == old(f)@ + render_items(views(items@).skip(i as int), sep@),
    decreases items@.len() - i,
{
    let ghost all = views(items@);
    if i < items.len() {
        assert(all.skip(i as int).drop_first() =~= all.skip(i + 1));
        assert(all.skip(i as int)[0] == items@[i as int]@);
        let ghost f0 = f@;
        push_str(f, sep);
        push_str(f, "\x1B[32m");
        push_str(f, items[i].as_str());
        push_str(f, "\x1B[m");
        push_items(f, items, i + 1, ", ");
        assert(final(f)@ =~= f0 + (sep@ + "\x1B[32m"@ + items@[i as int]@ + "\x1B[m"@
            + render_items(all.skip(i + 1), ", "@)));
    } else {
        assert(all.skip(i as int).len() == 0);
        assert(final(f)@ =~= old(f)@ + render_items(all.skip(i as int), sep@));
    }
}

fn push_chars(f: &mut String, p: &str, first: &str)
    ensures
        final(f)@ == old(f)@ + render_chars(p@, first@),
{
    let ghost f0 = f@;
    assert(p@.skip(0) =~= p@);
    let mut start = true;
    for x in it: p.chars()
        invariant
            it.seq() == p@,
            start == (it.index() == 0),
            f0 + render_chars(p@, first@) == f@ + render_chars(
                p@.skip(it.index() as int),
                if it.index() == 0 { first@ } else { ", "@ },
            ),
    {
        let ghost i = it.index();
        let ghost rest = p@.skip(i as int);
        let ghost sep = if i == 0 { first@ } else { ", "@ };
        assert(rest.drop_first() =~= p@.skip(i + 1));
        assert(rest[0] == x);
        let ghost fb = f@;
        if start {
            push_str(f, first);
        } else {
            push_str(f, ", ");
        }
        start = false;
        push_str(f, "\x1B[32m");
        push_char(f, x);
        push_str(f, "\x1B[m");
        assert(f@ =~= fb + (sep + "\x1B[32m"@ + seq![x] + "\x1B[m"@));
        assert(render_chars(rest, sep) =~= sep + "\x1B[32m"@ + seq![x] + "\x1B[m"@ + render_chars(
            p@.skip(i + 1),
            ", "@,
        ));
    }
    assert(p@.skip(p@.len() as int).len() == 0);
}

impl ArgError {
    /// The message displayed for this error, with ansi colors.
    pub fn to_string(&self) -> (r: String)
        ensures
            r@ == arg_error_text(self@),
    {
        let r = "\x1B[1;31m";
        let g = "\x1B[32m";
        let b = "\x1B[33m";
        let c = "\x1B[m";
        let mut f = String::new();
        push_str(&mut f, r);
        push_str(&mut f, "error");
        push_str(&mut f, c);
        push_str(&mut f, ": invalid value '");
        push_str(&mut f, b);
        push_str(&mut f, self.val.as_str());
        push_str(&mut f, c);
        push_str(&mut f, "' for '");
        push_str(&mut f, g);
        push_str(&mut f, self.src);
        push_str(&mut f, c);
        push_str(&mut f, "'");
        if !self.msg.as_str().is_empty() {
            push_str(&mut f, ": ");
            push_str(&mut f, self.msg.as_str());
        }
        if !self.possible.is_empty() {
            if str_has_char(self.possible, ' ') {
                let items = split_words(self.possible, true);
                assert(views(items@).skip(0) =~= views(items@));
                push_items(&mut f, &items, 0, "\n  possible values: ");
            } else {
                push_chars(&mut f, self.possible, "\n  possible value: combination of ");
            }
        }
        push_str(&mut f, "\n\nFor more information, try '");
        push_str(&mut f, g);
        push_str(&mut f, "--help");
        push_str(&mut f, c);
        push_str(&mut f, "'.");
        assert(f@ =~= arg_error_text(self@));
        f
    }
}


#[derive(Clone, Copy, Debug, PartialEq, Eq, Structural)]
pub enum Average {
    Arith,
    Median,
    WeightedArith,
    WeightedMedian,
}

/// The average function that a name selects.
pub open spec fn average_of(v: Seq<char>) -> Option<Average> {
    if v == "a"@ || v == "arith"@ {
        Some(Average::Arith)
    } else if v == "m"@ || v == "median"@ {
        Some(Average::Median)
    } else if v == "wa"@ || v == "weighted-arith"@ {
        Some(Average::WeightedArith)
    } else if v == "wm"@ || v == "weighted-median"@ {
        Some(Average::WeightedMedian)
    } else {
        None
    }
}

impl ArgParse<String, ()> for Average {
    open spec fn parse_spec(val: String, arg: (), src: Seq<char>) -> Result<Average, ArgErrorView> {
        match average_of(val@) {
            Some(a) => Ok(a),
            None => Err(
                ArgErrorView {
                    possible: "(a)rith (m)edian wa/weightedarith wm/weigtedmedian"@,
                    ..err_new(val@, src)
                },
            ),
        }
    }

    fn parse(v: &String, _a: (), s: &'static str) -> (r: Result<Average, ArgError>) {
        let x = v.as_str();
        if str_eq(x, "a") || str_eq(x, "arith") {
            Ok(Average::Arith)
        } else if str_eq(x, "m") || str_eq(x, "median") {
            Ok(Average::Median)
        } else if str_eq(x, "wa") || str_eq(x, "weighted-arith") {
            Ok(Average::WeightedArith)
        } else if str_eq(x, "wm") || str_eq(x, "weighted-median") {
            Ok(Average::WeightedMedian)
        } else {
            Err(ArgError::new(x, s).pos("(a)rith (m)edian wa/weightedarith wm/weigtedmedian"))
        }
    }
}

impl Average {
    pub fn as_str(&self) -> (r: &'static str)
        ensures
            r@ == match self {
                Average::Arith => "Arithetic mean"@,
                Average::Median => "Median"@,
                Average::WeightedArith => "Weighted arithmetic mean"@,
                Average::WeightedMedian => "Weighted median"@,
            },
    {
        match self {
            Average::Arith => "Arithetic mean",
            Average::Median => "Median",
            Average::WeightedArith => "Weighted arithmetic mean",
            Average::WeightedMedian => "Weighted median",
        }
    }
}

/// Which portage resume list to read.
#[derive(Clone, Copy, Debug, PartialEq, Eq, Structural)]
pub enum ResumeKind {
    Auto,
    Either,
    Main,
    Backup,
    No,
}

#[derive(Clone, Copy, Debug, PartialEq, Eq, Structural)]
pub enum DurationStyle {
    Hms,
    HmsFixed,
    Secs,
    Human,
}

/// The duration style that a name selects.
pub open spec fn duration_style_of(v: Seq<char>) -> Option<DurationStyle> {
    if v == "hms"@ {
        Some(DurationStyle::Hms)
    } else if v == "hmsfixed"@ {
        Some(DurationStyle::HmsFixed)
    } else if v == "s"@ || v == "secs"@ {
        Some(DurationStyle::Secs)
    } else if v == "h"@ || v == "human"@ {
        Some(DurationStyle::Human)
    } else {
        None
    }
}

impl ArgParse<String, ()> for DurationStyle {
    open spec fn parse_spec(val: String, arg: (), src: Seq<char>) -> Result<
        DurationStyle,
        ArgErrorView,
    > {
        match duration_style_of(val@) {
            Some(a) => Ok(a),
            None => Err(
                ArgErrorView { possible: "hms hmsfixed (s)ecs (h)uman"@, ..err_new(val@, src) },
            ),
        }
    }

    fn parse(v: &String, _a: (), s: &'static str) -> (r: Result<DurationStyle, ArgError>) {
        let x = v.as_str();
        if str_eq(x, "hms") {
            Ok(DurationStyle::Hms)
        } else if str_eq(x, "hmsfixed") {
            Ok(DurationStyle::HmsFixed)
        } else if str_eq(x, "s") || str_eq(x, "secs") {
            Ok(DurationStyle::Secs)
        } else if str_eq(x, "h") || str_eq(x, "human") {
            Ok(DurationStyle::Human)
        } else {
            Err(ArgError::new(x, s).pos("hms hmsfixed (s)ecs (h)uman"))
        }
    }
}

/// Whether to use colors.
pub type ColorStyle = bool;

/// Color choice for a name, `auto` deferring to whether the output is a terminal.
pub open spec fn color_of(v: Seq<char>, isterm: bool) -> Option<bool> {
    if v == "auto"@ || v == "a"@ {
        Some(isterm)
    } else if v == "yes"@ || v == "y"@ {
        Some(true)
    } else if v == "no"@ || v == "n"@ {
        Some(false)
    } else {
        None
    }
}

impl ArgParse<String, bool> for ColorStyle {
    open spec fn parse_spec(val: String, isterm: bool, src: Seq<char>) -> Result<
        bool,
        ArgErrorView,
    > {
        match color_of(val@, isterm) {
            Some(a) => Ok(a),
            None => Err(ArgErrorView { possible: "(y)es (n)o (a)uto"@, ..err_new(val@, src) }),
        }
    }

    fn parse(v: &String, isterm: bool, s: &'static str) -> (r: Result<bool, ArgError>) {
        let x = v.as_str();
        if str_eq(x, "auto") || str_eq(x, "a") {
            Ok(isterm)
        } else if str_eq(x, "yes") || str_eq(x, "y") {
            Ok(true)
        } else if str_eq(x, "no") || str_eq(x, "n") {
            Ok(false)
        } else {
            Err(ArgError::new(x, s).pos("(y)es (n)o (a)uto"))
        }
    }
}

#[derive(Clone, Copy, Debug, PartialEq, Eq, Structural)]
pub enum OutStyle {
    Columns,
    Tab,
}

/// Output style for a name, `auto` picking columns on a terminal.
pub open spec fn out_style_of(v: Seq<char>, isterm: bool) -> Option<OutStyle> {
    if v == "auto"@ || v == "a"@ {
        Some(if isterm { OutStyle::Columns } else { OutStyle::Tab })
    } else if v == "tab"@ || v == "t"@ {
        Some(OutStyle::Tab)
    } else if v == "columns"@ || v == "c"@ {
        Some(OutStyle::Columns)
    } else {
        None
    }
}

impl ArgParse<String, bool> for OutStyle {
    open spec fn parse_spec(val: String, isterm: bool, src: Seq<char>) -> Result<
        OutStyle,
        ArgErrorView,
    > {
        match out_style_of(val@, isterm) {
            Some(a) => Ok(a),
            None => Err(ArgErrorView { possible: "(c)olumns (t)ab (a)uto"@, ..err_new(val@, src) }),
        }
    }

    fn parse(v: &String, isterm: bool, s: &'static str) -> (r: Result<OutStyle, ArgError>) {
        let x = v.as_str();
        if str_eq(x, "auto") || str_eq(x, "a") {
            Ok(if isterm { OutStyle::Columns } else { OutStyle::Tab })
        } else if str_eq(x, "tab") || str_eq(x, "t") {
            Ok(OutStyle::Tab)
        } else if str_eq(x, "columns") || str_eq(x, "c") {
            Ok(OutStyle::Columns)
        } else {
            Err(ArgError::new(x, s).pos("(c)olumns (t)ab (a)uto"))
        }
    }
}

/// Terminal selection for interactive features.
#[derive(Clone, Copy, Debug, PartialEq, Eq, Structural)]
pub enum Tty {
    Auto,
    In,
    Out,
    Inout,
    Neither,
}

/// The terminal selection that a name selects.
pub open spec fn tty_of(v: Seq<char>) -> Option<Tty> {
    if v == "a"@ || v == "auto"@ {
        Some(Tty::Auto)
    } else if v == "i"@ || v == "in"@ {
        Some(Tty::In)
    } else if v == "o"@ || v == "out"@ {
        Some(Tty::Out)
    } else if v == "io"@ || v == "inout"@ {
        Some(Tty::Inout)
    } else if v == "n"@ || v == "none"@ {
        Some(Tty::Neither)
    } else {
        None
    }
}

impl ArgParse<String, ()> for Tty {
    open spec fn parse_spec(val: String, arg: (), src: Seq<char>) -> Result<Tty, ArgErrorView> {
        match tty_of(val@) {
            Some(a) => Ok(a),
            None => Err(
                ArgErrorView { possible: "(a)uto (i)n (o)ut (io)nout (n)one"@, ..err_new(val@, src) },
            ),
        }
    }

    fn parse(v: &String, _a: (), s: &'static str) -> (r: Result<Tty, ArgError>) {
        let x = v.as_str();
        if str_eq(x, "a") || str_eq(x, "auto") {
            Ok(Tty::Auto)
        } else if str_eq(x, "i") || str_eq(x, "in") {
            Ok(Tty::In)
        } else if str_eq(x, "o") || str_eq(x, "out") {
            Ok(Tty::Out)
        } else if str_eq(x, "io") || str_eq(x, "inout") {
            Ok(Tty::Inout)
        } else if str_eq(x, "n") || str_eq(x, "none") {
            Ok(Tty::Neither)
        } else {
            Err(ArgError::new(x, s).pos("(a)uto (i)n (o)ut (io)nout (n)one"))
        }
    }
}

/// Which kinds of events or tables to show.
#[derive(Clone, Copy, Debug, PartialEq, Eq, Structural)]
pub struct Show {
    pub run: bool,
    pub pkg: bool,
    pub tot: bool,
    pub sync: bool,
    pub merge: bool,
    pub unmerge: bool,
}

impl Show {
    pub fn m() -> (r: Self)
        ensures
            r == (Show { run: false, pkg: false, tot: false, sync: false, merge: true, unmerge: false }),
    {
        Self { run: false, pkg: false, tot: false, sync: false, merge: true, unmerge: false }
    }

    pub fn rmt() -> (r: Self)
        ensures
            r == (Show { run: true, pkg: false, tot: true, sync: false, merge: true, unmerge: false }),
    {
        Self { run: true, pkg: false, tot: true, sync: false, merge: true, unmerge: false }
    }

    pub fn p() -> (r: Self)
        ensures
            r == (Show { run: false, pkg: true, tot: false, sync: false, merge: false, unmerge: false }),
    {
        Self { run: false, pkg: true, tot: false, sync: false, merge: false, unmerge: false }
    }

    pub fn mt() -> (r: Self)
        ensures
            r == (Show { run: false, pkg: false, tot: true, sync: false, merge: true, unmerge: false }),
    {
        Self { run: false, pkg: false, tot: true, sync: false, merge: true, unmerge: false }
    }
}

/// The selection that a letter string stands for, when all its letters are valid.
pub open spec fn show_of(show: Seq<char>, valid: Seq<char>) -> Option<Show> {
    if forall|i: int| 0 <= i < show.len() ==> valid.contains(#[trigger] show[i]) {
        Some(
            Show {
                run: show.contains('r') || show.contains('a'),
                pkg: show.contains('p') || show.contains('a'),
                tot: show.contains('t') || show.contains('a'),
                sync: show.contains('s') || show.contains('a'),
                merge: show.contains('m') || show.contains('a'),
                unmerge: show.contains('u') || show.contains('a'),
            },
        )
    } else {
        None
    }
}

impl ArgParse<String, &'static str> for Show {
    open spec fn parse_spec(val: String, valid: &'static str, src: Seq<char>) -> Result<
        Show,
        ArgErrorView,
    > {
        match show_of(val@, valid@) {
            Some(a) => Ok(a),
            None => Err(
                ArgErrorView { msg: "Invalid letter"@, possible: valid@, ..err_new(val@, src) },
            ),
        }
    }

    fn parse(show: &String, valid: &'static str, src: &'static str) -> (r: Result<Show, ArgError>) {
        let x = show.as_str();
        let mut all = true;
        for c in it: x.chars()
            invariant
                it.seq() == x@,
                all == (forall|j: int| 0 <= j < it.index() ==> valid@.contains(#[trigger] x@[j])),
        {
            if !str_has_char(valid, c) {
                all = false;
            }
        }
        if all {
            let a = str_has_char(x, 'a');
            Ok(
                Self {
                    run: str_has_char(x, 'r') || a,
                    pkg: str_has_char(x, 'p') || a,
                    tot: str_has_char(x, 't') || a,
                    sync: str_has_char(x, 's') || a,
                    merge: str_has_char(x, 'm') || a,
                    unmerge: str_has_char(x, 'u') || a,
                },
            )
        } else {
            Err(ArgError::new(x, src).msg("Invalid letter").pos(valid))
        }
    }
}

/// Appends `name` after a comma, or first, when `flag` is set; the boolean tells whether a
/// name was written.
pub open spec fn add_name(acc: (Seq<char>, bool), flag: bool, name: Seq<char>) -> (Seq<char>, bool) {
    if flag {
        (acc.0 + (if acc.1 { ","@ } else { Seq::empty() }) + name, true)
    } else {
        acc
    }
}

/// The names of the selected kinds, comma-separated.
pub open spec fn show_text(s: Show) -> Seq<char> {
    let a0 = (Seq::<char>::empty(), false);
    let a1 = add_name(a0, s.run, "run"@);
    let a2 = add_name(a1, s.pkg, "pkg"@);
    let a3 = add_name(a2, s.tot, "total"@);
    let a4 = add_name(a3, s.sync, "sync"@);
    let a5 = add_name(a4, s.merge, "merge"@);
    add_name(a5, s.unmerge, "unmerge"@).0
}

fn push_flag(f: &mut String, started: bool, flag: bool, name: &str) -> (r: bool)
    ensures
        (final(f)@, r) == add_name((old(f)@, started), flag, name@),
{
    if flag {
        if started {
            push_str(f, ",");
        } else {
            assert(old(f)@ + Seq::<char>::empty() =~= old(f)@);
        }
        push_str(f, name);
        assert(final(f)@ =~= old(f)@ + (if started { ","@ } else { Seq::empty() }) + name@);
    }
    started || flag
}

impl Show {
    /// The names of the selected kinds, comma-separated.
    pub fn to_string(&self) -> (r: String)
        ensures
            r@ == show_text(*self),
    {
        let mut f = String::new();
        let st = push_flag(&mut f, false, self.run, "run");
        let st = push_flag(&mut f, st, self.pkg, "pkg");
        let st = push_flag(&mut f, st, self.tot, "total");
        let st = push_flag(&mut f, st, self.sync, "sync");
        let st = push_flag(&mut f, st, self.merge, "merge");
        let _st = push_flag(&mut f, st, self.unmerge, "unmerge");
        f
    }
}

} // verus!
