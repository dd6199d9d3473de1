//! Current emerge state: pending packages from portage's resume lists, and package moves.
use crate::config::types::ResumeKind;
use crate::parse::history::{parse_version, version_pos, version_split, FilterStr};
use crate::parse::ansi::{strip_from, Ansi};
use crate::text::{
    chars_vec, lemma_ascii_boundary, push_char, push_str, split_words, str_eq, str_slice, to_string, trim, views, words,
};
use crate::re::{regex_compiles, regex_new, PlainRegex};
use vstd::prelude::*;
use vstd::string::*;
use vstd::utf8::*;

verus! {

broadcast use vstd::utf8::group_utf8_lib;

/// Package name and version, and whether it is a binary package.
#[derive(Debug, PartialEq, Eq, PartialOrd, Ord)]
pub struct Pkg {
    key: String,
    pos: usize,
    pub bin: bool,
}

/// The mathematical value of a [`Pkg`].
pub struct PkgView {
    pub key: Seq<char>,
    pub pos: nat,
    pub bin: bool,
}

impl View for Pkg {
    type V = PkgView;

    closed spec fn view(&self) -> PkgView {
        PkgView { key: self.key@, pos: self.pos as nat, bin: self.bin }
    }
}

impl Clone for Pkg {
    fn clone(&self) -> (r: Self)
        ensures
            r@ == self@,
    {
        proof {
            use_type_invariant(self);
        }
        Pkg { key: self.key.clone(), pos: self.pos, bin: self.bin }
    }
}

/// The package that a `categ/name-version` key gives, if it has a version.
pub open spec fn pkg_of(key: Seq<char>, bin: bool) -> Option<PkgView> {
    match version_pos(encode_utf8(key)) {
        Some(p) => Some(PkgView { key, pos: p as nat, bin }),
        None => None,
    }
}

impl Pkg {
    #[verifier::type_invariant]
    spec fn inv(self) -> bool {
        version_pos(encode_utf8(self.key@)) == Some(self.pos as int)
    }

    /// Splits `categ/name-version` at its version: `None` when there is none.
    pub fn try_new(key: &str, bin: bool) -> (r: Option<Self>)
        ensures
            match r {
                Some(p) => pkg_of(key@, bin) == Some(p@),
                None => pkg_of(key@, bin) is None,
            },
    {
        let f = FilterStr::True;
        match parse_version(key, &f) {
            Some(pos) => {
                Some(Pkg { key: to_string(key), pos, bin })
            },
            None => None,
        }
    }

    /// The `categ/name` part.
    pub fn ebuild(&self) -> (r: &str)
        ensures
            r.spec_bytes() == encode_utf8(self@.key).take(self@.pos - 1),
    {
        proof {
            use_type_invariant(self);
            crate::parse::history::lemma_version_dash_split(encode_utf8(self.key@), 0);
            crate::parse::history::lemma_split_boundaries(encode_utf8(self.key@), self.pos as int);
        }
        str_slice(self.key.as_str(), 0, self.pos - 1)
    }

    /// The version part.
    pub fn version(&self) -> (r: &str)
        ensures
            r.spec_bytes() == encode_utf8(self@.key).skip(self@.pos as int),
    {
        proof {
            use_type_invariant(self);
            crate::parse::history::lemma_version_dash_split(encode_utf8(self.key@), 0);
            crate::parse::history::lemma_split_boundaries(encode_utf8(self.key@), self.pos as int);
        }
        let s = self.key.as_str();
        let n = s.as_bytes().len();
        let r = str_slice(s, self.pos, n);
        assert(r.spec_bytes() =~= encode_utf8(self@.key).skip(self@.pos as int));
        r
    }

    /// The whole `categ/name-version` key.
    pub fn ebuild_version(&self) -> (r: &str)
        ensures
            r@ == self@.key,
    {
        self.key.as_str()
    }

    /// Whether it is a binary package.
    pub fn is_bin(&self) -> (r: bool)
        ensures
            r == self@.bin,
    {
        self.bin
    }

    /// Whether two packages have the same key and kind.
    pub fn same(&self, other: &Pkg) -> (r: bool)
        ensures
            r == (self@ == other@),
    {
        proof {
            use_type_invariant(self);
            use_type_invariant(other);
        }
        str_eq(self.key.as_str(), other.key.as_str()) && self.bin == other.bin
    }
}

/// A portage resume list: each entry is `[kind, root, key, action]`.
pub struct Resume {
    pub mergelist: Vec<Vec<String>>,
}

/// The parts of portage's mtimedb that are read: the resume lists and the update files.
pub struct Mtimedb {
    pub resume: Option<Resume>,
    pub resume_backup: Option<Resume>,
    /// The names of the package update files, when the database lists them.
    pub updates: Option<Vec<String>>,
}

impl Mtimedb {
    /// A database without resume lists or update files.
    pub fn empty() -> (r: Self)
        ensures
            r.resume is None,
            r.resume_backup is None,
            r.updates is None,
    {
        Mtimedb { resume: None, resume_backup: None, updates: None }
    }
}

/// The entries of a resume list, as plain text.
pub open spec fn entries(r: Resume) -> Seq<Seq<Seq<char>>> {
    r.mergelist@.map_values(|e: Vec<String>| crate::text::views(e@))
}

/// The package of a resume entry: its third field, binary when the first is `binary`.
pub open spec fn entry_pkg(e: Seq<Seq<char>>) -> Option<PkgView> {
    if e.len() > 2 {
        pkg_of(e[2], e[0] == "binary"@)
    } else {
        None
    }
}

/// The packages of a resume list, skipping entries without one.
pub open spec fn resume_pkgs(l: Seq<Seq<Seq<char>>>) -> Seq<PkgView>
    decreases l.len(),
{
    if l.len() == 0 {
        Seq::empty()
    } else {
        match entry_pkg(l.last()) {
            Some(p) => resume_pkgs(l.drop_last()).push(p),
            None => resume_pkgs(l.drop_last()),
        }
    }
}

/// The resume list that `kind` selects: `Either`/`Auto` take the main list when it is not empty
/// and the backup otherwise; `No` stands for an empty list.
pub open spec fn chosen_list(kind: ResumeKind, db: Mtimedb) -> Option<Seq<Seq<Seq<char>>>> {
    match kind {
        ResumeKind::Either | ResumeKind::Auto => match db.resume {
            Some(r) if entries(r).len() > 0 => Some(entries(r)),
            _ => match db.resume_backup {
                Some(b) => Some(entries(b)),
                None => None,
            },
        },
        ResumeKind::Main => match db.resume {
            Some(r) => Some(entries(r)),
            None => None,
        },
        ResumeKind::Backup => match db.resume_backup {
            Some(r) => Some(entries(r)),
            None => None,
        },
        ResumeKind::No => Some(Seq::empty()),
    }
}

/// `Either` and `Auto` read the same list: the main one when it has entries, else the backup;
/// `Main` and `Backup` read their own list, and `No` reads an empty one.
pub proof fn lemma_resume_choice(db: Mtimedb)
    ensures
        chosen_list(ResumeKind::Auto, db) == chosen_list(ResumeKind::Either, db),
        chosen_list(ResumeKind::No, db) == Some(Seq::<Seq<Seq<char>>>::empty()),
        (db.resume matches Some(r) && r.mergelist@.len() > 0) ==> chosen_list(
            ResumeKind::Either,
            db,
        ) == chosen_list(ResumeKind::Main, db),
        !(db.resume matches Some(r) && r.mergelist@.len() > 0) ==> chosen_list(
            ResumeKind::Either,
            db,
        ) == chosen_list(ResumeKind::Backup, db),
{
}

/// The views of a list of packages.
pub open spec fn pkg_views(v: Seq<Pkg>) -> Seq<PkgView> {
    v.map_values(|p: Pkg| p@)
}

/// The packages of one resume list.
fn list_pkgs(r: &Resume) -> (v: Vec<Pkg>)
    ensures
        pkg_views(v@) == resume_pkgs(entries(*r)),
{
    let mut v: Vec<Pkg> = Vec::new();
    let mut i: usize = 0;
    proof {
        reveal_strlit("binary");
    }
    while i < r.mergelist.len()
        invariant
            i <= r.mergelist@.len(),
            pkg_views(v@) == resume_pkgs(entries(*r).take(i as int)),
        decreases r.mergelist@.len() - i,
    {
        let e = &r.mergelist[i];
        let ghost l = entries(*r);
        assert(l.take(i + 1).drop_last() =~= l.take(i as int));
        assert(l.take(i + 1).last() == crate::text::views(e@));
        if e.len() > 2 {
            let bin = str_eq(e[0].as_str(), "binary");
            match Pkg::try_new(e[2].as_str(), bin) {
                Some(p) => {
                    v.push(p);
                    assert(pkg_views(v@) =~= resume_pkgs(l.take(i + 1)));
                },
                None => {},
            }
        }
        assert(pkg_views(v@) =~= resume_pkgs(l.take(i + 1)));
        i += 1;
    }
    assert(entries(*r).take(r.mergelist@.len() as int) =~= entries(*r));
    v
}

/// The pending packages of the selected resume list; `None` when that list is missing.
pub fn try_get_resume(kind: ResumeKind, db: &Mtimedb) -> (r: Option<Vec<Pkg>>)
    ensures
        match r {
            Some(v) => chosen_list(kind, *db) matches Some(l) && pkg_views(v@) == resume_pkgs(l),
            None => chosen_list(kind, *db) is None,
        },
{
    match kind {
        ResumeKind::Either | ResumeKind::Auto => {
            if let Some(r) = &db.resume {
                if r.mergelist.len() > 0 {
                    return Some(list_pkgs(r));
                }
            }
            match &db.resume_backup {
                Some(b) => Some(list_pkgs(b)),
                None => None,
            }
        },
        ResumeKind::Main => match &db.resume {
            Some(r) => Some(list_pkgs(r)),
            None => None,
        },
        ResumeKind::Backup => match &db.resume_backup {
            Some(r) => Some(list_pkgs(r)),
            None => None,
        },
        ResumeKind::No => {
            let v: Vec<Pkg> = Vec::new();
            assert(pkg_views(v@) =~= Seq::<PkgView>::empty());
            Some(v)
        },
    }
}

/// The pending packages of the selected resume list, empty when that list is missing.
pub fn get_resume(kind: ResumeKind, db: &Mtimedb) -> (r: Vec<Pkg>)
    ensures
        pkg_views(r@) == match chosen_list(kind, *db) {
            Some(l) => resume_pkgs(l),
            None => Seq::<PkgView>::empty(),
        },
{
    match try_get_resume(kind, db) {
        Some(v) => v,
        None => {
            let v: Vec<Pkg> = Vec::new();
            assert(pkg_views(v@) =~= Seq::<PkgView>::empty());
            v
        },
    }
}

/// The length of the run of lowercase ASCII letters at `i`.
pub open spec fn lower_run(s: Seq<char>, i: int) -> nat
    decreases s.len() - i,
{
    if 0 <= i < s.len() && 'a' <= s[i] <= 'z' {
        1 + lower_run(s, i + 1)
    } else {
        0
    }
}

/// The length of the run of spaces at `i`.
pub open spec fn space_run(s: Seq<char>, i: int) -> nat
    decreases s.len() - i,
{
    if 0 <= i < s.len() && s[i] == ' ' {
        1 + space_run(s, i + 1)
    } else {
        0
    }
}

/// The length of the run at `i` of characters other than space, `:` and newline.
pub open spec fn word_run(s: Seq<char>, i: int) -> nat
    decreases s.len() - i,
{
    if 0 <= i < s.len() && s[i] != ' ' && s[i] != ':' && s[i] != '\n' {
        1 + word_run(s, i + 1)
    } else {
        0
    }
}

/// The first index at or after `i` of `c`.
pub open spec fn char_pos_from(s: Seq<char>, c: char, i: int) -> Option<int>
    decreases s.len() - i,
{
    if i < 0 || i >= s.len() {
        None
    } else if s[i] == c {
        Some(i)
    } else {
        char_pos_from(s, c, i + 1)
    }
}

/// What `^\[([a-z]+)[^]]*\] +([^ :\n]+)` captures in a line of `emerge --pretend` output:
/// `[`, lowercase letters (the kind), anything up to the first `]`, spaces, then a word (the
/// package).
pub open spec fn pretend_match(line: Seq<char>) -> Option<(Seq<char>, Seq<char>)> {
    if line.len() > 0 && line[0] == '[' && lower_run(line, 1) > 0 {
        match char_pos_from(line, ']', 1) {
            Some(c) => {
                let sp = space_run(line, c + 1);
                let w = word_run(line, c + 1 + sp);
                if sp > 0 && w > 0 {
                    Some(
                        (
                            line.subrange(1, 1 + lower_run(line, 1) as int),
                            line.subrange(c + 1 + sp, c + 1 + sp + w),
                        ),
                    )
                } else {
                    None
                }
            },
            None => None,
        }
    } else {
        None
    }
}

/// The pattern that finds packages in `emerge --pretend` output.
pub open spec fn pretend_pattern() -> Seq<char> {
    "^\\[([a-z]+)[^]]*\\] +([^ :\\n]+)"@
}

/// The regex that finds packages in `emerge --pretend` output.
pub struct PretendRegex {
    re: PlainRegex,
}

impl PretendRegex {
    /// The pattern this regex was built from.
    pub closed spec fn pattern(&self) -> Seq<char> {
        self.re.pattern()
    }

    /// The regex, compiled once for a whole output; `None` if the pattern does not compile.
    pub fn new() -> (r: Option<Self>)
        ensures
            r is Some <==> regex_compiles(pretend_pattern()),
            r matches Some(x) ==> x.pattern() == pretend_pattern(),
    {
        match regex_new("^\\[([a-z]+)[^]]*\\] +([^ :\\n]+)") {
            Ok(re) => Some(PretendRegex { re }),
            Err(_) => None,
        }
    }
}

/// `Regex::captures` with the pretend-output pattern: the kind and the package, when the line
/// matches.
#[verifier::external_body]
fn pretend_captures(re: &PretendRegex, line: &str) -> (r: Option<(String, String)>)
    requires
        re.pattern() == pretend_pattern(),
    ensures
        match r {
            Some((k, p)) => pretend_match(line@) == Some((k@, p@)),
            None => pretend_match(line@) is None,
        },
{
    let c = re.re.re.captures(line)?;
    Some((c[1].to_string(), c[2].to_string()))
}

/// The package a line of `emerge --pretend` output names: `None` for other lines, `Some(None)`
/// for an `[ebuild` or `[binary` line whose package has no version.
pub open spec fn pretend_spec(line: Seq<char>) -> Option<Option<PkgView>> {
    match pretend_match(line) {
        Some((kind, pkg)) => if kind == "ebuild"@ {
            Some(pkg_of(pkg, false))
        } else if kind == "binary"@ {
            Some(pkg_of(pkg, true))
        } else {
            None
        },
        None => None,
    }
}

/// Reads one line of `emerge --pretend` output.
pub fn pretend_line(re: &PretendRegex, line: &str) -> (r: Option<Option<Pkg>>)
    requires
        re.pattern() == pretend_pattern(),
    ensures
        match r {
            Some(Some(p)) => pretend_spec(line@) == Some(Some(p@)),
            Some(None) => pretend_spec(line@) == Some(None::<PkgView>),
            None => pretend_spec(line@) is None,
        },
{
    let (kind, pkg) = match pretend_captures(re, line) {
        Some(c) => c,
        None => return None,
    };
    let bin = if str_eq(kind.as_str(), "ebuild") {
        false
    } else if str_eq(kind.as_str(), "binary") {
        true
    } else {
        return None;
    };
    Some(Pkg::try_new(pkg.as_str(), bin))
}


/// A pretend line marks its package as binary exactly when its bracketed kind is `binary`: an
/// `[ebuild` line gives a package built from source, a `[binary` line a binary package, each with
/// the line's package key; a line of any other kind gives nothing.
pub proof fn lemma_pretend_kind(line: Seq<char>)
    ensures
        match pretend_match(line) {
            Some((kind, pkg)) => {
                &&& kind == "binary"@ ==> pretend_spec(line) is Some && (pretend_spec(line)->0 matches Some(p)
                    ==> p.bin && p.key == pkg)
                &&& kind == "ebuild"@ ==> pretend_spec(line) is Some && (pretend_spec(line)->0 matches Some(p)
                    ==> !p.bin && p.key == pkg)
                &&& kind != "binary"@ && kind != "ebuild"@ ==> pretend_spec(line) is None
            },
            None => pretend_spec(line) is None,
        },
{
    reveal_strlit("binary");
    reveal_strlit("ebuild");
    assert("binary"@ != "ebuild"@) by {
        assert("binary"@[0] != "ebuild"@[0]);
    }
}

/// A package key is its name, a dash and its version: the package keeps the key, joining its
/// name (what `ebuild` gives) and its version (what `version` gives) back around a dash gives
/// the key, the name is not empty and has no dash followed by a digit, and the version starts
/// with a digit.
pub proof fn lemma_pkg_split_join(key: Seq<char>, bin: bool)
    requires
        pkg_of(key, bin) is Some,
    ensures
        ({
            let p = pkg_of(key, bin)->0;
            let b = encode_utf8(p.key);
            &&& p.key == key
            &&& b.take(p.pos - 1) + seq![45u8] + b.skip(p.pos as int) == b
            &&& crate::text::is_digit(b[p.pos as int])
            &&& p.pos >= 2
            &&& p.bin == bin
            &&& forall|j: int|
                1 <= j < p.pos - 1 ==> !(#[trigger] b[j] == 45u8 && crate::text::is_digit(b[j + 1]))
        }),
{
    let b = encode_utf8(key);
    crate::parse::history::lemma_version_dash_split(b, 0);
    let pos = pkg_of(key, bin)->0.pos as int;
    assert(version_split(b, pos));
    assert(b.take(pos - 1) + seq![45u8] + b.skip(pos) =~= b);
    lemma_no_earlier_split(b, 0);
}

/// No version starts before the first one found.
proof fn lemma_no_earlier_split(b: Seq<u8>, i: int)
    requires
        0 <= i,
        crate::parse::history::version_dash_from(b, i) is Some,
    ensures
        forall|j: int|
            i <= j < crate::parse::history::version_dash_from(b, i)->0 ==> !(1 <= j && j + 1 < b.len()
                && #[trigger] b[j] == 45u8 && crate::text::is_digit(b[j + 1])),
    decreases b.len() - i,
{
    if i < b.len() && !version_split(b, i + 1) {
        lemma_no_earlier_split(b, i + 1);
    }
}


/// `char::is_alphanumeric` (Unicode letters and numbers): the result is named.
pub uninterp spec fn is_alnum(c: char) -> bool;

/// `char::is_alphanumeric`, whose result is named by [`is_alnum`].
#[verifier::external_body]
fn char_is_alphanumeric(c: char) -> (r: bool)
    ensures
        r == is_alnum(c),
{
    c.is_alphanumeric()
}

/// `s` without leading and trailing dots.
pub open spec fn trim_dots(s: Seq<char>) -> Seq<char>
    decreases s.len(),
{
    if s.len() > 0 && s[0] == '.' {
        trim_dots(s.drop_first())
    } else if s.len() > 0 && s.last() == '.' {
        trim_dots(s.drop_last())
    } else {
        s
    }
}

/// The stage a `>>>` build log line names: its second and third words, without surrounding dots.
pub open spec fn stage_tag(line: Seq<char>) -> Seq<char> {
    let w = words(line, true);
    trim_dots(
        if w.len() >= 3 {
            w[1] + " "@ + w[2]
        } else if w.len() == 2 {
            w[1]
        } else {
            Seq::empty()
        },
    )
}

/// The summary of a build log read from its last line up, having kept `last`: the stage of the
/// last `>>>` line, with the last line after it that holds a letter or digit (stripped of escape
/// codes, cut at `max`).
pub open spec fn buildlog_from(lines: Seq<Seq<char>>, max: usize, last: Seq<char>) -> Seq<char>
    decreases lines.len(),
{
    if lines.len() == 0 {
        " ("@ + last + ")"@
    } else {
        let l = lines[0];
        if l.len() >= 3 && l.take(3) == ">>>"@ {
            if last.len() == 0 {
                " ("@ + stage_tag(l) + ")"@
            } else {
                " ("@ + stage_tag(l) + ": "@ + last + ")"@
            }
        } else {
            let s = strip_from(trim(l), Ansi::Txt, Seq::empty(), max);
            let next = if last.len() == 0 && exists|i: int| 0 <= i < s.len() && is_alnum(#[trigger] s[i]) {
                s
            } else {
                last
            };
            buildlog_from(lines.drop_first(), max, next)
        }
    }
}

/// `s` without surrounding dots.
fn trim_dots_of(s: &Vec<char>) -> (r: String)
    ensures
        r@ == trim_dots(s@),
{
    let mut lo: usize = 0;
    let mut hi: usize = s.len();
    assert(s@.subrange(0, s@.len() as int) =~= s@);
    while lo < hi && (s[lo] == '.' || s[hi - 1] == '.')
        invariant
            lo <= hi <= s@.len(),
            trim_dots(s@) == trim_dots(s@.subrange(lo as int, hi as int)),
        decreases hi - lo,
    {
        let ghost t = s@.subrange(lo as int, hi as int);
        if s[lo] == '.' {
            assert(t.drop_first() =~= s@.subrange(lo + 1, hi as int));
            lo += 1;
        } else {
            assert(t.drop_last() =~= s@.subrange(lo as int, hi - 1));
            hi -= 1;
        }
    }
    let mut r = String::new();
    let mut i = lo;
    while i < hi
        invariant
            lo <= i <= hi <= s@.len(),
            r@ == s@.subrange(lo as int, i as int),
        decreases hi - i,
    {
        push_char(&mut r, s[i]);
        assert(r@ =~= s@.subrange(lo as int, i + 1));
        i += 1;
    }
    r
}

/// The stage of a `>>>` line.
fn stage_tag_of(line: &str) -> (r: String)
    ensures
        r@ == stage_tag(line@),
{
    let w = split_words(line, true);
    let mut t = String::new();
    proof {
        reveal_strlit(" ");
    }
    if w.len() >= 3 {
        push_str(&mut t, w[1].as_str());
        push_str(&mut t, " ");
        push_str(&mut t, w[2].as_str());
    } else if w.len() == 2 {
        push_str(&mut t, w[1].as_str());
    }
    if w.len() >= 2 {
        assert(views(w@)[1] == w@[1]@);
    }
    if w.len() >= 3 {
        assert(views(w@)[2] == w@[2]@);
    }
    let v = chars_vec(t.as_str());
    trim_dots_of(&v)
}

/// Summarizes a build log from its lines, last line first (see [`buildlog_from`]).
pub fn buildlog_summary(lines: &Vec<String>, max: usize) -> (r: String)
    ensures
        r@ == buildlog_from(views(lines@), max, Seq::empty()),
{
    proof {
        reveal_strlit(" (");
        reveal_strlit(")");
        reveal_strlit(": ");
        reveal_strlit(">>>");
    }
    let mut last = String::new();
    let mut k: usize = 0;
    assert(views(lines@).skip(0) =~= views(lines@));
    while k < lines.len()
        invariant
            k <= lines@.len(),
            buildlog_from(views(lines@), max, Seq::empty()) == buildlog_from(
                views(lines@).skip(k as int),
                max,
                last@,
            ),
        decreases lines@.len() - k,
    {
        let l = lines[k].as_str();
        proof {
            reveal_strlit(">>>");
            reveal_strlit(" (");
            reveal_strlit(")");
            reveal_strlit(": ");
        }
        let ghost rest = views(lines@).skip(k as int);
        assert(rest[0] == l@);
        assert(rest.drop_first() =~= views(lines@).skip(k + 1));
        let lv = chars_vec(l);
        if lv.len() >= 3 && lv[0] == '>' && lv[1] == '>' && lv[2] == '>' {
            assert(l@.take(3) =~= ">>>"@);
            let tag = stage_tag_of(l);
            let mut out = String::new();
            push_str(&mut out, " (");
            push_str(&mut out, tag.as_str());
            if last.as_str().is_empty() {
                assert(last@.len() == 0);
            } else {
                push_str(&mut out, ": ");
                push_str(&mut out, last.as_str());
            }
            push_str(&mut out, ")");
            return out;
        }
        assert(!(l@.len() >= 3 && l@.take(3) == ">>>"@)) by {
            if l@.len() >= 3 && l@.take(3) == ">>>"@ {
                assert(l@[0] == l@.take(3)[0]);
                assert(l@[1] == l@.take(3)[1]);
                assert(l@[2] == l@.take(3)[2]);
            }
        }
        if last.as_str().is_empty() {
            let s = Ansi::strip(l, max);
            let sv = chars_vec(s.as_str());
            let mut j: usize = 0;
            let mut any = false;
            while j < sv.len()
                invariant
                    j <= sv@.len(),
                    sv@ == s@,
                    any == exists|i: int| 0 <= i < j && is_alnum(#[trigger] s@[i]),
                decreases sv@.len() - j,
            {
                if char_is_alphanumeric(sv[j]) {
                    any = true;
                }
                j += 1;
            }
            if any {
                last = s;
            }
        }
        k += 1;
    }
    let mut out = String::new();
    push_str(&mut out, " (");
    push_str(&mut out, last.as_str());
    push_str(&mut out, ")");
    out
}

} // verus!
