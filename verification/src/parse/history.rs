//! Emerge log lines: timestamps, merge/unmerge/sync events and the package filter.
use crate::config::types::Show;
use crate::re::{ci_regex_compiles, ci_regex_is_match, ci_regex_matches, ci_regex_set_compiles, ci_regex_new, ci_regex_set_is_match, ci_regex_set_new, CiRegex, CiRegexSet};
use crate::text::{
    bytes_ends_with, bytes_starts_with, starts_with, digits_value, ends_with, is_digit, lemma_ascii_boundary, push_char, push_str,
    str_eq, str_has_char, str_slice, to_string, utf8_str, views,
};
use vstd::prelude::*;
use vstd::string::*;
use vstd::utf8::*;

verus! {

broadcast use vstd::utf8::group_utf8_lib;

/// An event read from the emerge log.
///
/// For the keyed variants, `key` is `categ/name-version` and `pos` is the byte index where the
/// version starts.
pub enum Hist {
    /// Emerge run started (might never complete).
    RunStart { ts: i64, args: String },
    /// Merge started (might never complete).
    MergeStart { ts: i64, key: String, pos: usize },
    /// Merge is a binary merge.
    MergeBin { ts: i64, key: String, pos: usize },
    /// Merge completed.
    MergeStop { ts: i64, key: String, pos: usize },
    /// Unmerge started (might never complete).
    UnmergeStart { ts: i64, key: String, pos: usize },
    /// Unmerge completed.
    UnmergeStop { ts: i64, key: String, pos: usize },
    /// Sync started (might never complete).
    SyncStart { ts: i64 },
    /// Sync completed.
    SyncStop { ts: i64, repo: String },
}

/// The mathematical value of a [`Hist`].
pub enum HistView {
    RunStart { ts: i64, args: Seq<char> },
    MergeStart { ts: i64, key: Seq<char>, pos: nat },
    MergeBin { ts: i64, key: Seq<char>, pos: nat },
    MergeStop { ts: i64, key: Seq<char>, pos: nat },
    UnmergeStart { ts: i64, key: Seq<char>, pos: nat },
    UnmergeStop { ts: i64, key: Seq<char>, pos: nat },
    SyncStart { ts: i64 },
    SyncStop { ts: i64, repo: Seq<char> },
}

impl View for Hist {
    type V = HistView;

    open spec fn view(&self) -> HistView {
        match self {
            Hist::RunStart { ts, args } => HistView::RunStart { ts: *ts, args: args@ },
            Hist::MergeStart { ts, key, pos } => HistView::MergeStart {
                ts: *ts,
                key: key@,
                pos: *pos as nat,
            },
            Hist::MergeBin { ts, key, pos } => HistView::MergeBin {
                ts: *ts,
                key: key@,
                pos: *pos as nat,
            },
            Hist::MergeStop { ts, key, pos } => HistView::MergeStop {
                ts: *ts,
                key: key@,
                pos: *pos as nat,
            },
            Hist::UnmergeStart { ts, key, pos } => HistView::UnmergeStart {
                ts: *ts,
                key: key@,
                pos: *pos as nat,
            },
            Hist::UnmergeStop { ts, key, pos } => HistView::UnmergeStop {
                ts: *ts,
                key: key@,
                pos: *pos as nat,
            },
            Hist::SyncStart { ts } => HistView::SyncStart { ts: *ts },
            Hist::SyncStop { ts, repo } => HistView::SyncStop { ts: *ts, repo: repo@ },
        }
    }
}

/// The view of an optional event.
pub open spec fn opt_hist(h: Option<Hist>) -> Option<HistView> {
    match h {
        Some(h) => Some(h@),
        None => None,
    }
}

impl HistView {
    /// Whether the event names a package (merges and unmerges).
    pub open spec fn keyed(self) -> bool {
        match self {
            HistView::MergeStart { .. } | HistView::MergeBin { .. } | HistView::MergeStop { .. }
            | HistView::UnmergeStart { .. } | HistView::UnmergeStop { .. } => true,
            _ => false,
        }
    }

    /// The `categ/name-version` key of a keyed event.
    pub open spec fn key(self) -> Seq<char> {
        match self {
            HistView::MergeStart { key, .. } | HistView::MergeBin { key, .. }
            | HistView::MergeStop { key, .. } | HistView::UnmergeStart { key, .. }
            | HistView::UnmergeStop { key, .. } => key,
            _ => Seq::empty(),
        }
    }

    /// The byte index of the version in the key of a keyed event.
    pub open spec fn pos(self) -> int {
        match self {
            HistView::MergeStart { pos, .. } | HistView::MergeBin { pos, .. }
            | HistView::MergeStop { pos, .. } | HistView::UnmergeStart { pos, .. }
            | HistView::UnmergeStop { pos, .. } => pos as int,
            _ => 0,
        }
    }

    /// The timestamp of the event.
    pub open spec fn ts(self) -> i64 {
        match self {
            HistView::RunStart { ts, .. } | HistView::MergeStart { ts, .. }
            | HistView::MergeBin { ts, .. } | HistView::MergeStop { ts, .. }
            | HistView::UnmergeStart { ts, .. } | HistView::UnmergeStop { ts, .. }
            | HistView::SyncStart { ts } | HistView::SyncStop { ts, .. } => ts,
        }
    }

    /// For a keyed event, the version position follows a dash and starts with a digit.
    pub open spec fn wf(self) -> bool {
        self.keyed() ==> version_split(encode_utf8(self.key()), self.pos())
    }

    /// The key can be cut before the byte that precedes the version.
    pub open spec fn ebuild_cut(self) -> bool {
        self.pos() >= 1 && is_char_boundary(encode_utf8(self.key()), self.pos() - 1)
    }

    /// The key can be cut where the version starts.
    pub open spec fn version_cut(self) -> bool {
        is_char_boundary(encode_utf8(self.key()), self.pos())
    }
}

/// A well-formed keyed event can be cut around its version.
pub proof fn lemma_wf_cuts(h: HistView)
    requires
        h.keyed(),
        h.wf(),
    ensures
        h.ebuild_cut(),
        h.version_cut(),
{
    lemma_split_boundaries(encode_utf8(h.key()), h.pos());
}

/// The ASCII code of `-`.
pub open spec fn dash() -> u8 {
    45
}

/// `pos` starts a version in `b`: it follows a dash that is not the first byte, and is a digit.
pub open spec fn version_split(b: Seq<u8>, pos: int) -> bool {
    2 <= pos < b.len() && b[pos - 1] == dash() && is_digit(b[pos])
}

/// The bytes of an ASCII string.
pub open spec fn ascii(s: Seq<char>) -> Seq<u8> {
    s.map_values(|c: char| c as u8)
}

/// The bytes of an ASCII literal.
pub fn tag(s: &str) -> (r: &[u8])
    requires
        is_ascii_chars(s@),
    ensures
        r@ == ascii(s@),
{
    let r = s.as_bytes();
    proof {
        is_ascii_chars_encode_utf8(s@);
        assert(r@ =~= ascii(s@));
    }
    r
}

/// Splitting a valid encoding at the version position cuts at character boundaries.
pub proof fn lemma_split_boundaries(b: Seq<u8>, pos: int)
    requires
        valid_utf8(b),
        version_split(b, pos),
    ensures
        is_char_boundary(b, 0),
        is_char_boundary(b, pos - 1),
        is_char_boundary(b, pos),
        is_char_boundary(b, b.len() as int),
{
    is_char_boundary_start_end_of_seq(b);
    lemma_ascii_boundary(b, pos - 1);
    lemma_ascii_boundary(b, pos);
}

impl Hist {
    /// The `categ/name` part of a merge or unmerge event.
    pub fn ebuild(&self) -> (r: &str)
        requires
            self@.keyed(),
            self@.ebuild_cut(),
        ensures
            r.spec_bytes() == encode_utf8(self@.key()).take(self@.pos() - 1),
    {
        match self {
            Hist::MergeStart { key, pos, .. } | Hist::MergeBin { key, pos, .. }
            | Hist::MergeStop { key, pos, .. } | Hist::UnmergeStart { key, pos, .. }
            | Hist::UnmergeStop { key, pos, .. } => {
                proof {
                    is_char_boundary_start_end_of_seq(encode_utf8(key@));
                }
                str_slice(key.as_str(), 0, *pos - 1)
            },
            _ => {
                assert(false);
                ""
            },
        }
    }

    /// The `categ/name` part of a merge or unmerge event, taking the event.
    pub fn take_ebuild(self) -> (r: String)
        requires
            self@.keyed(),
            self@.ebuild_cut(),
        ensures
            encode_utf8(r@) == encode_utf8(self@.key()).take(self@.pos() - 1),
    {
        let e = self.ebuild();
        to_string(e)
    }

    /// The version part of a merge or unmerge event.
    pub fn version(&self) -> (r: &str)
        requires
            self@.keyed(),
            self@.version_cut(),
        ensures
            r.spec_bytes() == encode_utf8(self@.key()).skip(self@.pos()),
    {
        match self {
            Hist::MergeStart { key, pos, .. } | Hist::MergeBin { key, pos, .. }
            | Hist::MergeStop { key, pos, .. } | Hist::UnmergeStart { key, pos, .. }
            | Hist::UnmergeStop { key, pos, .. } => {
                proof {
                    is_char_boundary_start_end_of_seq(encode_utf8(key@));
                }
                let s = key.as_str();
                assert(self@.key() == key@ && self@.pos() == *pos as int);
                let n = s.as_bytes().len();
                let r = str_slice(s, *pos, n);
                assert(r.spec_bytes() =~= encode_utf8(self@.key()).skip(self@.pos()));
                r
            },
            _ => {
                assert(false);
                ""
            },
        }
    }

    /// The whole `categ/name-version` key of a merge or unmerge event.
    pub fn ebuild_version(&self) -> (r: &str)
        requires
            self@.keyed(),
        ensures
            r@ == self@.key(),
    {
        match self {
            Hist::MergeStart { key, .. } | Hist::MergeBin { key, .. } | Hist::MergeStop {
                key,
                ..
            } | Hist::UnmergeStart { key, .. } | Hist::UnmergeStop { key, .. } => key.as_str(),
            _ => {
                assert(false);
                ""
            },
        }
    }

    /// The timestamp of the event.
    pub fn ts(&self) -> (r: i64)
        ensures
            r == self@.ts(),
    {
        match self {
            Hist::RunStart { ts, .. } | Hist::MergeStart { ts, .. } | Hist::MergeBin { ts, .. }
            | Hist::MergeStop { ts, .. } | Hist::UnmergeStart { ts, .. } | Hist::UnmergeStop {
                ts,
                ..
            } | Hist::SyncStart { ts } | Hist::SyncStop { ts, .. } => *ts,
        }
    }
}

/// `memchr::memchr`: the first index of `needle` in `haystack`.
pub assume_specification[ memchr::memchr ](needle: u8, haystack: &[u8]) -> (r: Option<usize>)
    ensures
        match r {
            Some(i) => i < haystack@.len() && haystack@[i as int] == needle && forall|j: int|
                0 <= j < i ==> haystack@[j] != needle,
            None => forall|j: int| 0 <= j < haystack@.len() ==> haystack@[j] != needle,
        },
;

/// `memchr::memrchr`: the last index of `needle` in `haystack`.
pub assume_specification[ memchr::memrchr ](needle: u8, haystack: &[u8]) -> (r: Option<usize>)
    ensures
        match r {
            Some(i) => i < haystack@.len() && haystack@[i as int] == needle && forall|j: int|
                i < j < haystack@.len() ==> haystack@[j] != needle,
            None => forall|j: int| 0 <= j < haystack@.len() ==> haystack@[j] != needle,
        },
;

/// `memchr::memrchr2`: the last index of `needle1` or `needle2` in `haystack`.
pub assume_specification[ memchr::memrchr2 ](needle1: u8, needle2: u8, haystack: &[u8]) -> (r:
    Option<usize>)
    ensures
        match r {
            Some(i) => i < haystack@.len() && (haystack@[i as int] == needle1 || haystack@[i as int]
                == needle2) && forall|j: int|
                i < j < haystack@.len() ==> haystack@[j] != needle1 && haystack@[j] != needle2,
            None => forall|j: int|
                0 <= j < haystack@.len() ==> haystack@[j] != needle1 && haystack@[j] != needle2,
        },
;

/// The first index of `x` in `b`.
pub open spec fn first_index(b: Seq<u8>, x: u8) -> Option<int>
    decreases b.len(),
{
    if b.len() == 0 {
        None
    } else if b[0] == x {
        Some(0)
    } else {
        match first_index(b.drop_first(), x) {
            Some(i) => Some(i + 1),
            None => None,
        }
    }
}

/// The last index of `x` in `b`.
pub open spec fn last_index(b: Seq<u8>, x: u8) -> Option<int>
    decreases b.len(),
{
    if b.len() == 0 {
        None
    } else if b.last() == x {
        Some(b.len() - 1)
    } else {
        last_index(b.drop_last(), x)
    }
}

/// The last index of `x` or `y` in `b`.
pub open spec fn last_index2(b: Seq<u8>, x: u8, y: u8) -> Option<int>
    decreases b.len(),
{
    if b.len() == 0 {
        None
    } else if b.last() == x || b.last() == y {
        Some(b.len() - 1)
    } else {
        last_index2(b.drop_last(), x, y)
    }
}

/// `first_index` is the first position holding `x`.
pub proof fn lemma_first_index(b: Seq<u8>, x: u8, i: int)
    requires
        0 <= i <= b.len(),
        forall|j: int| 0 <= j < i ==> b[j] != x,
        i == b.len() || b[i] == x,
    ensures
        first_index(b, x) == (if i == b.len() { None } else { Some(i) }),
    decreases i,
{
    if i > 0 {
        lemma_first_index(b.drop_first(), x, i - 1);
    }
}

/// `last_index` is the last position holding `x`.
pub proof fn lemma_last_index(b: Seq<u8>, x: u8, i: int)
    requires
        -1 <= i < b.len(),
        forall|j: int| i < j < b.len() ==> b[j] != x,
        i == -1 || b[i] == x,
    ensures
        last_index(b, x) == (if i == -1 { None } else { Some(i) }),
    decreases b.len(),
{
    if b.len() > 0 && i < b.len() - 1 {
        lemma_last_index(b.drop_last(), x, i);
    }
}

/// `last_index2` is the last position holding `x` or `y`.
pub proof fn lemma_last_index2(b: Seq<u8>, x: u8, y: u8, i: int)
    requires
        -1 <= i < b.len(),
        forall|j: int| i < j < b.len() ==> b[j] != x && b[j] != y,
        i == -1 || b[i] == x || b[i] == y,
    ensures
        last_index2(b, x, y) == (if i == -1 { None } else { Some(i) }),
    decreases b.len(),
{
    if b.len() > 0 && i < b.len() - 1 {
        lemma_last_index2(b.drop_last(), x, y, i);
    }
}

/// The search terms that hold a `/`, in order.
pub open spec fn slash_terms(t: Seq<Seq<char>>) -> Seq<Seq<char>>
    decreases t.len(),
{
    if t.len() == 0 {
        Seq::empty()
    } else if t.last().contains('/') {
        slash_terms(t.drop_last()).push(t.last())
    } else {
        slash_terms(t.drop_last())
    }
}

/// The search terms without a `/`, each put after a `/`.
pub open spec fn name_terms(t: Seq<Seq<char>>) -> Seq<Seq<char>>
    decreases t.len(),
{
    if t.len() == 0 {
        Seq::empty()
    } else if t.last().contains('/') {
        name_terms(t.drop_last())
    } else {
        name_terms(t.drop_last()).push(seq!['/'] + t.last())
    }
}

/// Whether `s` ends with one of the suffixes (compared as bytes, as `str::ends_with` does).
pub open spec fn ends_any(s: Seq<char>, suffixes: Seq<Seq<char>>) -> bool {
    exists|i: int|
        0 <= i < suffixes.len() && ends_with(encode_utf8(s), encode_utf8(#[trigger] suffixes[i]))
}

/// Matches package and repository names against the search terms.
pub enum FilterStr {
    /// No search term: everything matches.
    True,
    /// Exact search: `a` holds all terms, `b` those with a `/`, `c` the others after a `/`.
    Eq { a: Vec<String>, b: Vec<String>, c: Vec<String> },
    /// One case-insensitive regex.
    Re1 { r: CiRegex },
    /// Several case-insensitive regexes.
    Re { set: CiRegexSet },
}

impl FilterStr {
    /// Whether a `categ/name` package matches: an exact term equals it, a name term ends it, or
    /// a regex matches in it.
    pub open spec fn matches_pkg(&self, s: Seq<char>) -> bool {
        match self {
            FilterStr::True => true,
            FilterStr::Eq { b, c, .. } => views(b@).contains(s) || ends_any(s, views(c@)),
            FilterStr::Re1 { r } => ci_regex_matches(r.pattern(), s),
            FilterStr::Re { set } => exists|i: int|
                0 <= i < set.patterns().len() && ci_regex_matches(#[trigger] set.patterns()[i], s),
        }
    }

    /// Whether a repository name matches: an exact term equals it, or a regex matches in it.
    pub open spec fn matches_str(&self, s: Seq<char>) -> bool {
        match self {
            FilterStr::True => true,
            FilterStr::Eq { a, .. } => views(a@).contains(s),
            FilterStr::Re1 { r } => ci_regex_matches(r.pattern(), s),
            FilterStr::Re { set } => exists|i: int|
                0 <= i < set.patterns().len() && ci_regex_matches(#[trigger] set.patterns()[i], s),
        }
    }

    /// Builds the filter for these search terms: everything matches without terms, exact
    /// comparison when `exact`, case-insensitive regexes otherwise.
    pub fn try_new(terms: &Vec<String>, exact: bool) -> (r: Result<Self, regex::Error>)
        ensures
            terms@.len() == 0 ==> r matches Ok(FilterStr::True),
            terms@.len() > 0 && exact ==> (r matches Ok(FilterStr::Eq { a, b, c }) && views(a@)
                == views(terms@) && views(b@) == slash_terms(views(terms@)) && views(c@)
                == name_terms(views(terms@))),
            terms@.len() == 1 && !exact ==> (r is Ok <==> ci_regex_compiles(terms@[0]@)),
            terms@.len() == 1 && !exact ==> (r matches Ok(f) ==> (f matches FilterStr::Re1 { r }
                && r.pattern() == terms@[0]@)),
            terms@.len() > 1 && !exact ==> (r is Ok <==> ci_regex_set_compiles(views(terms@))),
            terms@.len() > 1 && !exact ==> (r matches Ok(f) ==> (f matches FilterStr::Re { set }
                && set.patterns() == views(terms@))),
    {
        if terms.len() == 0 {
            return Ok(FilterStr::True);
        }
        if exact {
            let mut a: Vec<String> = Vec::new();
            let mut b: Vec<String> = Vec::new();
            let mut c: Vec<String> = Vec::new();
            let mut i: usize = 0;
            while i < terms.len()
                invariant
                    i <= terms@.len(),
                    views(a@) == views(terms@).take(i as int),
                    views(b@) == slash_terms(views(terms@).take(i as int)),
                    views(c@) == name_terms(views(terms@).take(i as int)),
                decreases terms@.len() - i,
            {
                let t = terms[i].as_str();
                let ghost tv = views(terms@);
                assert(tv.take(i + 1).drop_last() =~= tv.take(i as int));
                assert(tv.take(i + 1).last() == t@);
                a.push(to_string(t));
                assert(views(a@) =~= tv.take(i + 1));
                if str_has_char(t, '/') {
                    b.push(to_string(t));
                    assert(views(b@) =~= slash_terms(tv.take(i + 1)));
                    assert(views(c@) =~= name_terms(tv.take(i + 1)));
                } else {
                    let mut n = String::new();
                    push_char(&mut n, '/');
                    push_str(&mut n, t);
                    c.push(n);
                    assert(seq!['/'] + t@ =~= seq!['/'].add(t@));
                    assert(views(c@) =~= name_terms(tv.take(i + 1)));
                    assert(views(b@) =~= slash_terms(tv.take(i + 1)));
                }
                i += 1;
            }
            assert(views(terms@).take(terms@.len() as int) =~= views(terms@));
            return Ok(FilterStr::Eq { a, b, c });
        }
        if terms.len() == 1 {
            match ci_regex_new(terms[0].as_str()) {
                Ok(r) => Ok(FilterStr::Re1 { r }),
                Err(e) => Err(e),
            }
        } else {
            match ci_regex_set_new(terms) {
                Ok(set) => Ok(FilterStr::Re { set }),
                Err(e) => Err(e),
            }
        }
    }

    /// Whether the `categ/name` package `s` matches.
    pub fn match_pkg(&self, s: &str) -> (r: bool)
        ensures
            r == self.matches_pkg(s@),
    {
        match self {
            FilterStr::True => true,
            FilterStr::Eq { a, b, c } => {
                let mut i: usize = 0;
                while i < b.len()
                    invariant
                        *self == (FilterStr::Eq { a: *a, b: *b, c: *c }),
                        i <= b@.len(),
                        forall|j: int| 0 <= j < i ==> b@[j]@ != s@,
                    decreases b@.len() - i,
                {
                    if str_eq(b[i].as_str(), s) {
                        assert(views(b@)[i as int] == s@);
                        return true;
                    }
                    i += 1;
                }
                assert(!views(b@).contains(s@));
                let mut i: usize = 0;
                while i < c.len()
                    invariant
                        *self == (FilterStr::Eq { a: *a, b: *b, c: *c }),
                        i <= c@.len(),
                        forall|j: int|
                            0 <= j < i ==> !ends_with(
                                encode_utf8(s@),
                                encode_utf8(#[trigger] views(c@)[j]),
                            ),
                    decreases c@.len() - i,
                {
                    if bytes_ends_with(s.as_bytes(), c[i].as_str().as_bytes()) {
                        assert(ends_with(encode_utf8(s@), encode_utf8(views(c@)[i as int])));
                        return true;
                    }
                    i += 1;
                }
                false
            },
            FilterStr::Re1 { r } => ci_regex_is_match(r, s),
            FilterStr::Re { set } => ci_regex_set_is_match(set, s),
        }
    }

    /// Whether the repository name `s` matches.
    pub fn match_str(&self, s: &str) -> (r: bool)
        ensures
            r == self.matches_str(s@),
    {
        match self {
            FilterStr::True => true,
            FilterStr::Eq { a, b, c } => {
                let mut i: usize = 0;
                while i < a.len()
                    invariant
                        *self == (FilterStr::Eq { a: *a, b: *b, c: *c }),
                        i <= a@.len(),
                        forall|j: int| 0 <= j < i ==> a@[j]@ != s@,
                    decreases a@.len() - i,
                {
                    if str_eq(a[i].as_str(), s) {
                        assert(views(a@)[i as int] == s@);
                        return true;
                    }
                    i += 1;
                }
                assert(!views(a@).contains(s@));
                false
            },
            FilterStr::Re1 { r } => ci_regex_is_match(r, s),
            FilterStr::Re { set } => ci_regex_set_is_match(set, s),
        }
    }
}

/// The first dash at or after `i` that starts a version.
pub open spec fn version_dash_from(b: Seq<u8>, i: int) -> Option<int>
    decreases b.len() - i,
{
    if i < 0 || i >= b.len() {
        None
    } else if version_split(b, i + 1) {
        Some(i)
    } else {
        version_dash_from(b, i + 1)
    }
}

/// Where the version starts in `categ/name-version`: after the first dash that is not the first
/// byte and is followed by a digit.
pub open spec fn version_pos(b: Seq<u8>) -> Option<int> {
    match version_dash_from(b, 0) {
        Some(d) => Some(d + 1),
        None => None,
    }
}

/// The version position of `atom`, when its package part passes the filter.
pub open spec fn version_of(atom: Seq<char>, filter: FilterStr) -> Option<int> {
    match version_pos(encode_utf8(atom)) {
        Some(p) => if filter.matches_pkg(decode_utf8(encode_utf8(atom).take(p - 1))) {
            Some(p)
        } else {
            None
        },
        None => None,
    }
}

/// Bytes without a dash can be skipped when looking for the version.
pub proof fn lemma_skip_no_dash(b: Seq<u8>, i: int, j: int)
    requires
        0 <= i <= j <= b.len(),
        forall|k: int| i <= k < j ==> b[k] != dash(),
    ensures
        version_dash_from(b, i) == version_dash_from(b, j),
    decreases j - i,
{
    if i < j {
        lemma_skip_no_dash(b, i + 1, j);
    }
}

/// Finds where the version starts in `categ/name-version`, and filters on the package name.
pub fn parse_version(atom: &str, filter: &FilterStr) -> (r: Option<usize>)
    ensures
        match r {
            Some(p) => version_of(atom@, *filter) == Some(p as int),
            None => version_of(atom@, *filter) is None,
        },
{
    let b = atom.as_bytes();
    let ghost bv = encode_utf8(atom@);
    let mut pos: usize = 0;
    loop
        invariant
            b@ == bv,
            bv == encode_utf8(atom@),
            pos <= b@.len(),
            version_dash_from(bv, 0) == version_dash_from(bv, pos as int),
        decreases b@.len() - pos,
    {
        let rest = &b[pos..b.len()];
        assert(rest@ =~= bv.subrange(pos as int, bv.len() as int));
        let k = match memchr::memchr(45u8, rest) {
            Some(k) => k,
            None => {
                proof {
                    assert forall|j: int| pos <= j < bv.len() implies bv[j] != dash() by {
                        assert(rest@[j - pos] == bv[j]);
                    }
                    lemma_skip_no_dash(bv, pos as int, bv.len() as int);
                    assert(version_dash_from(bv, bv.len() as int) == None::<int>);
                    assert(version_pos(bv) == None::<int>);
                }
                return None;
            },
        };
        let d = pos + k;
        proof {
            assert forall|j: int| pos <= j < d implies bv[j] != dash() by {
                assert(rest@[j - pos] == bv[j]);
            }
            assert(bv[d as int] == dash());
            lemma_skip_no_dash(bv, pos as int, d as int);
        }
        pos = d + 1;
        if pos > 1 {
            if pos >= b.len() {
                assert(version_dash_from(bv, pos as int) == None::<int>);
                return None;
            }
            if 48u8 <= b[pos] && b[pos] <= 57u8 {
                assert(version_split(bv, pos as int));
                proof {
                    encode_utf8_valid_utf8(atom@);
                    lemma_split_boundaries(bv, pos as int);
                }
                let name = str_slice(atom, 0, d);
                assert(bv.subrange(0, d as int) =~= bv.take(d as int));
                if filter.match_pkg(name) {
                    return Some(pos);
                } else {
                    return None;
                }
            }
        }
    }
}

/// The number of leading ASCII digits.
pub open spec fn digit_run(b: Seq<u8>) -> nat
    decreases b.len(),
{
    if b.len() > 0 && is_digit(b[0]) {
        1 + digit_run(b.drop_first())
    } else {
        0
    }
}

/// `atoi::FromRadix10Checked::from_radix_10_checked` for `i64`: the count of leading ASCII
/// digits, and their value when it fits in an `i64` (`Some(0)` when there is no digit).
#[verifier::external_body]
fn i64_from_digits(text: &[u8]) -> (r: (Option<i64>, usize))
    ensures
        r.1 == digit_run(text@),
        r.0 == (if digits_value(text@.take(r.1 as int)) <= i64::MAX {
            Some(digits_value(text@.take(r.1 as int)) as i64)
        } else {
            None::<i64>
        }),
{
    <i64 as atoi::FromRadix10Checked>::from_radix_10_checked(text)
}

/// The timestamp that starts a log line, when there is one and it fits in an `i64`.
pub open spec fn ts_value(line: Seq<u8>) -> Option<i64> {
    let n = digit_run(line);
    if n > 0 && digits_value(line.take(n as int)) <= i64::MAX {
        Some(digits_value(line.take(n as int)) as i64)
    } else {
        None
    }
}

/// The line starts with a timestamp within `[min, max]`.
pub open spec fn ts_in(line: Seq<u8>, min: i64, max: i64) -> bool {
    ts_value(line) matches Some(t) && min <= t <= max
}

/// The number of leading spaces.
pub open spec fn lead_spaces(b: Seq<u8>) -> nat
    decreases b.len(),
{
    if b.len() > 0 && b[0] == 32 {
        1 + lead_spaces(b.drop_first())
    } else {
        0
    }
}

/// `b` without one trailing newline.
pub open spec fn strip_nl(b: Seq<u8>) -> Seq<u8> {
    if b.len() > 0 && b.last() == 10 {
        b.drop_last()
    } else {
        b
    }
}

/// The timestamp of a log line within `[min, max]`, and the rest of the line: the separator
/// after the digits, then leading spaces and one trailing newline are dropped.
pub open spec fn ts_spec(line: Seq<u8>, min: i64, max: i64) -> Option<(i64, Seq<u8>)> {
    if ts_in(line, min, max) {
        let rest = line.skip(digit_run(line) + 1int);
        Some((ts_value(line)->0, strip_nl(rest.skip(lead_spaces(rest) as int))))
    } else {
        None
    }
}

/// A timestamp within bounds is followed by at least a separator byte.
pub open spec fn ts_ok(line: Seq<u8>, min: i64, max: i64) -> bool {
    ts_in(line, min, max) ==> digit_run(line) < line.len()
}

/// Reads the leading timestamp of a log line and keeps it when it is within `[min, max]`.
pub fn parse_ts(line: &[u8], min: i64, max: i64) -> (r: Option<(i64, &[u8])>)
    requires
        ts_ok(line@, min, max),
    ensures
        match r {
            Some((t, rest)) => ts_spec(line@, min, max) == Some((t, rest@)),
            None => ts_spec(line@, min, max) is None,
        },
{
    let (v, n) = i64_from_digits(line);
    let ts = match v {
        Some(ts) => ts,
        None => return None,
    };
    if n == 0 || ts < min || ts > max {
        return None;
    }
    let len = line.len();
    let mut i: usize = n + 1;
    let ghost rest = line@.skip(n + 1);
    while i < len && line[i] == 32u8
        invariant
            n + 1 <= i <= len,
            len == line@.len(),
            rest == line@.skip(n + 1),
            lead_spaces(rest) == (i - (n + 1)) + lead_spaces(line@.skip(i as int)),
        decreases len - i,
    {
        assert(line@.skip(i as int).drop_first() =~= line@.skip(i + 1));
        i += 1;
    }
    assert(lead_spaces(line@.skip(i as int)) == 0);
    assert(rest.skip(lead_spaces(rest) as int) =~= line@.skip(i as int));
    let mut end: usize = len;
    if end > i && line[end - 1] == 10u8 {
        end -= 1;
    }
    let r = &line[i..end];
    assert(r@ =~= strip_nl(line@.skip(i as int)));
    Some((ts, r))
}

/// The `k`-th field when splitting on single spaces (empty fields count).
pub open spec fn field(b: Seq<u8>, k: nat) -> Option<Seq<u8>>
    decreases k,
{
    match first_index(b, 32) {
        None => if k == 0 {
            Some(b)
        } else {
            None
        },
        Some(i) => if k == 0 {
            Some(b.take(i))
        } else {
            field(b.skip(i + 1), (k - 1) as nat)
        },
    }
}

/// The `k`-th space-separated field of `line`, as `line.split(' ').nth(k)` gives it.
pub fn nth_field(line: &[u8], k: usize) -> (r: Option<&[u8]>)
    ensures
        match r {
            Some(f) => field(line@, k as nat) == Some(f@),
            None => field(line@, k as nat) is None,
        },
{
    let len = line.len();
    let mut start: usize = 0;
    let mut j: usize = 0;
    assert(line@.skip(0) =~= line@);
    loop
        invariant
            start <= len,
            len == line@.len(),
            j <= k,
            field(line@, k as nat) == field(line@.skip(start as int), (k - j) as nat),
        decreases k - j,
    {
        let ghost b = line@.skip(start as int);
        let mut e: usize = start;
        while e < len && line[e] != 32u8
            invariant
                start <= e <= len,
                len == line@.len(),
                b == line@.skip(start as int),
                forall|q: int| 0 <= q < e - start ==> b[q] != 32,
            decreases len - e,
        {
            e += 1;
        }
        proof {
            lemma_first_index(b, 32, e - start);
        }
        if j == k {
            let f = &line[start..e];
            assert(e == len ==> f@ =~= b);
            assert(e < len ==> f@ =~= b.take(e - start));
            return Some(f);
        }
        if e == len {
            return None;
        }
        assert(b.skip(e - start + 1) =~= line@.skip(e + 1));
        start = e + 1;
        j += 1;
    }
}

/// The key and version position an atom gives: valid UTF-8, with a version, and a package name
/// that passes the filter.
pub open spec fn atom_key(atom: Seq<u8>, filter: FilterStr) -> Option<(Seq<char>, nat)> {
    if valid_utf8(atom) {
        match version_of(decode_utf8(atom), filter) {
            Some(p) => Some((decode_utf8(atom), p as nat)),
            None => None,
        }
    } else {
        None
    }
}

/// Reads an atom (`categ/name-version`) and finds its version, keeping it when it passes the
/// filter.
pub fn parse_atom(atom: &[u8], filter: &FilterStr) -> (r: Option<(String, usize)>)
    ensures
        match r {
            Some((k, p)) => atom_key(atom@, *filter) == Some((k@, p as nat)) && version_split(
                encode_utf8(k@),
                p as int,
            ),
            None => atom_key(atom@, *filter) is None,
        },
{
    proof {
        if atom_key(atom@, *filter) is Some {
            lemma_atom_key_wf(atom@, *filter);
        }
    }
    let s = match utf8_str(atom) {
        Some(s) => s,
        None => return None,
    };
    proof {
        assert(decode_utf8(encode_utf8(s@)) == s@);
    }
    match parse_version(s, filter) {
        Some(p) => Some((to_string(s), p)),
        None => None,
    }
}

/// The view of a keyed event of the given kind.
pub open spec fn keyed_event(kind: u8, ts: i64, key: Seq<char>, pos: nat) -> HistView {
    if kind == 0 {
        HistView::MergeStart { ts, key, pos }
    } else if kind == 1 {
        HistView::MergeBin { ts, key, pos }
    } else if kind == 2 {
        HistView::MergeStop { ts, key, pos }
    } else if kind == 3 {
        HistView::UnmergeStart { ts, key, pos }
    } else {
        HistView::UnmergeStop { ts, key, pos }
    }
}

/// The keyed event an atom gives, if any.
pub open spec fn atom_event(kind: u8, ts: i64, atom: Seq<u8>, filter: FilterStr) -> Option<HistView> {
    match atom_key(atom, filter) {
        Some((k, p)) => Some(keyed_event(kind, ts, k, p)),
        None => None,
    }
}

/// The first version dash is one.
pub proof fn lemma_version_dash_split(b: Seq<u8>, i: int)
    requires
        version_dash_from(b, i) is Some,
    ensures
        version_split(b, version_dash_from(b, i)->0 + 1),
    decreases b.len() - i,
{
    if 0 <= i < b.len() && !version_split(b, i + 1) {
        lemma_version_dash_split(b, i + 1);
    }
}

/// A key read from an atom splits at its version.
pub proof fn lemma_atom_key_wf(atom: Seq<u8>, filter: FilterStr)
    requires
        atom_key(atom, filter) is Some,
    ensures
        match atom_key(atom, filter) {
            Some((k, p)) => version_split(encode_utf8(k), p as int),
            None => true,
        },
{
    assert(encode_utf8(decode_utf8(atom)) == atom);
    lemma_version_dash_split(atom, 0);
}

/// `>>> emerge (1 of 1) www-client/falkon-24.08.3 to /`
pub open spec fn mergestart_spec(enabled: bool, ts: i64, line: Seq<u8>, filter: FilterStr) -> Option<
    HistView,
> {
    if enabled && starts_with(line, ascii(">>> emer"@)) {
        match field(line, 5) {
            Some(a) => atom_event(0, ts, a, filter),
            None => None,
        }
    } else {
        None
    }
}

/// Reads a merge start: the atom is the sixth space-separated field.
pub fn parse_mergestart(enabled: bool, ts: i64, line: &[u8], filter: &FilterStr) -> (r: Option<
    Hist,
>)
    ensures
        opt_hist(r) == mergestart_spec(enabled, ts, line@, *filter),
        r matches Some(h) ==> h@.wf(),
{
    if !enabled {
        return None;
    }
    proof {
        reveal_strlit(">>> emer");
    }
    if !bytes_starts_with(line, tag(">>> emer")) {
        return None;
    }
    let a = match nth_field(line, 5) {
        Some(a) => a,
        None => return None,
    };
    match parse_atom(a, filter) {
        Some((key, pos)) => Some(Hist::MergeStart { ts, key, pos }),
        None => None,
    }
}

/// `::: completed emerge (1 of 1) www-client/falkon-24.08.3 to /`
pub open spec fn mergestop_spec(enabled: bool, ts: i64, line: Seq<u8>, filter: FilterStr) -> Option<
    HistView,
> {
    if enabled && starts_with(line, ascii("::: comp"@)) {
        match field(line, 6) {
            Some(a) => atom_event(2, ts, a, filter),
            None => None,
        }
    } else {
        None
    }
}

/// Reads a merge stop: the atom is the seventh space-separated field.
pub fn parse_mergestop(enabled: bool, ts: i64, line: &[u8], filter: &FilterStr) -> (r: Option<
    Hist,
>)
    ensures
        opt_hist(r) == mergestop_spec(enabled, ts, line@, *filter),
        r matches Some(h) ==> h@.wf(),
{
    if !enabled {
        return None;
    }
    proof {
        reveal_strlit("::: comp");
    }
    if !bytes_starts_with(line, tag("::: comp")) {
        return None;
    }
    let a = match nth_field(line, 6) {
        Some(a) => a,
        None => return None,
    };
    match parse_atom(a, filter) {
        Some((key, pos)) => Some(Hist::MergeStop { ts, key, pos }),
        None => None,
    }
}

/// `=== (1 of 1) Merging Binary (www-client/falkon-24.08.3::/var/cache/binpkgs/...)`
pub open spec fn mergebin_spec(enabled: bool, ts: i64, line: Seq<u8>, filter: FilterStr) -> Option<
    HistView,
> {
    if enabled && starts_with(line, ascii("=== ("@)) {
        match first_index(line, 41) {
            Some(p1) => if starts_with(line.skip(p1 + 2), ascii("Merging Bin"@)) {
                match first_index(line.skip(p1), 40) {
                    Some(q) => {
                        let p2 = q + p1 + 1;
                        match first_index(line.skip(p2), 58) {
                            Some(e) => atom_event(1, ts, line.subrange(p2, e + p2), filter),
                            None => None,
                        }
                    },
                    None => None,
                }
            } else {
                None
            },
            None => None,
        }
    } else {
        None
    }
}

/// A binary merge line holds at least two bytes after its first `)`.
pub open spec fn mergebin_ok(enabled: bool, line: Seq<u8>) -> bool {
    enabled && starts_with(line, ascii("=== ("@)) ==> (first_index(line, 41) matches Some(p1)
        ==> p1 + 2 <= line.len())
}

/// The first index of `x` in `b`, through `memchr`.
fn find_first(x: u8, b: &[u8]) -> (r: Option<usize>)
    ensures
        match r {
            Some(i) => first_index(b@, x) == Some(i as int) && i < b@.len(),
            None => first_index(b@, x) is None,
        },
{
    let r = memchr::memchr(x, b);
    proof {
        match r {
            Some(i) => lemma_first_index(b@, x, i as int),
            None => lemma_first_index(b@, x, b@.len() as int),
        }
    }
    r
}

/// Reads a binary merge: the atom sits between the `(` after `Merging Binary` and the next `:`.
pub fn parse_mergebin(enabled: bool, ts: i64, line: &[u8], filter: &FilterStr) -> (r: Option<Hist>)
    requires
        mergebin_ok(enabled, line@),
    ensures
        opt_hist(r) == mergebin_spec(enabled, ts, line@, *filter),
        r matches Some(h) ==> h@.wf(),
{
    if !enabled {
        return None;
    }
    proof {
        reveal_strlit("=== (");
        reveal_strlit("Merging Bin");
    }
    if !bytes_starts_with(line, tag("=== (")) {
        return None;
    }
    let len = line.len();
    let p1 = match find_first(41u8, line) {
        Some(p1) => p1,
        None => return None,
    };
    let after = &line[p1 + 2..len];
    assert(after@ =~= line@.skip(p1 + 2));
    if !bytes_starts_with(after, tag("Merging Bin")) {
        return None;
    }
    let from_p1 = &line[p1..len];
    assert(from_p1@ =~= line@.skip(p1 as int));
    let q = match find_first(40u8, from_p1) {
        Some(q) => q,
        None => return None,
    };
    let p2 = q + p1 + 1;
    let from_p2 = &line[p2..len];
    assert(from_p2@ =~= line@.skip(p2 as int));
    let e = match find_first(58u8, from_p2) {
        Some(e) => e,
        None => return None,
    };
    let atom = &line[p2..e + p2];
    match parse_atom(atom, filter) {
        Some((key, pos)) => Some(Hist::MergeBin { ts, key, pos }),
        None => None,
    }
}

/// `=== Unmerging... (app-portage/getuto-1.13)`
pub open spec fn unmergestart_spec(enabled: bool, ts: i64, line: Seq<u8>, filter: FilterStr) -> Option<
    HistView,
> {
    if enabled && starts_with(line, ascii("=== Unmer"@)) {
        match first_index(line, 40) {
            Some(q) => atom_event(3, ts, line.subrange(q + 1, line.len() - 1), filter),
            None => None,
        }
    } else {
        None
    }
}

/// An unmerge start line does not end with its first `(`.
pub open spec fn unmergestart_ok(enabled: bool, line: Seq<u8>) -> bool {
    enabled && starts_with(line, ascii("=== Unmer"@)) ==> (first_index(line, 40) matches Some(q)
        ==> q + 2 <= line.len())
}

/// Reads an unmerge start: the atom sits between the first `(` and the last byte.
pub fn parse_unmergestart(enabled: bool, ts: i64, line: &[u8], filter: &FilterStr) -> (r: Option<
    Hist,
>)
    requires
        unmergestart_ok(enabled, line@),
    ensures
        opt_hist(r) == unmergestart_spec(enabled, ts, line@, *filter),
        r matches Some(h) ==> h@.wf(),
{
    if !enabled {
        return None;
    }
    proof {
        reveal_strlit("=== Unmer");
    }
    if !bytes_starts_with(line, tag("=== Unmer")) {
        return None;
    }
    let n = line.len();
    let q = match find_first(40u8, line) {
        Some(q) => q,
        None => return None,
    };
    let atom = &line[q + 1..n - 1];
    match parse_atom(atom, filter) {
        Some((key, pos)) => Some(Hist::UnmergeStart { ts, key, pos }),
        None => None,
    }
}

/// `>>> unmerge success: www-client/falkon-24.08.3`
pub open spec fn unmergestop_spec(enabled: bool, ts: i64, line: Seq<u8>, filter: FilterStr) -> Option<
    HistView,
> {
    if enabled && starts_with(line, ascii(">>> unmerge succ"@)) {
        match last_index(line, 32) {
            Some(q) => atom_event(4, ts, line.skip(q + 1), filter),
            None => None,
        }
    } else {
        None
    }
}

/// Reads an unmerge stop: the atom follows the last space.
pub fn parse_unmergestop(enabled: bool, ts: i64, line: &[u8], filter: &FilterStr) -> (r: Option<
    Hist,
>)
    ensures
        opt_hist(r) == unmergestop_spec(enabled, ts, line@, *filter),
        r matches Some(h) ==> h@.wf(),
{
    if !enabled {
        return None;
    }
    proof {
        reveal_strlit(">>> unmerge succ");
    }
    if !bytes_starts_with(line, tag(">>> unmerge succ")) {
        return None;
    }
    let n = line.len();
    let q = match memchr::memrchr(32u8, line) {
        Some(q) => q,
        None => {
            proof {
                lemma_last_index(line@, 32, -1);
            }
            return None;
        },
    };
    proof {
        lemma_last_index(line@, 32, q as int);
    }
    let atom = &line[q + 1..n];
    assert(atom@ =~= line@.skip(q + 1));
    match parse_atom(atom, filter) {
        Some((key, pos)) => Some(Hist::UnmergeStop { ts, key, pos }),
        None => None,
    }
}

/// `*** emerge --update --ask --deep world`
pub open spec fn runstart_spec(enabled: bool, ts: i64, line: Seq<u8>) -> Option<HistView> {
    if enabled && starts_with(line, ascii("*** emer"@)) && valid_utf8(line.skip(11)) {
        Some(HistView::RunStart { ts, args: decode_utf8(line.skip(11)) })
    } else {
        None
    }
}

/// An emerge run line is long enough to hold its arguments.
pub open spec fn runstart_ok(enabled: bool, line: Seq<u8>) -> bool {
    enabled && starts_with(line, ascii("*** emer"@)) ==> line.len() >= 11
}

/// Reads the start of an emerge run: the arguments follow `*** emerge `.
pub fn parse_runstart(enabled: bool, ts: i64, line: &[u8]) -> (r: Option<Hist>)
    requires
        runstart_ok(enabled, line@),
    ensures
        opt_hist(r) == runstart_spec(enabled, ts, line@),
{
    if !enabled {
        return None;
    }
    proof {
        reveal_strlit("*** emer");
    }
    if !bytes_starts_with(line, tag("*** emer")) {
        return None;
    }
    let rest = &line[11..line.len()];
    assert(rest@ =~= line@.skip(11));
    match utf8_str(rest) {
        Some(a) => {
            assert(decode_utf8(encode_utf8(a@)) == a@);
            Some(Hist::RunStart { ts, args: to_string(a) })
        },
        None => None,
    }
}

/// `>>> Syncing repository 'gentoo' into '/usr/portage'...` or `>>> Starting rsync with ...`
pub open spec fn syncstart_spec(enabled: bool, ts: i64, line: Seq<u8>) -> Option<HistView> {
    if enabled && (starts_with(line, ascii(">>> Syncing"@)) || starts_with(
        line,
        ascii(">>> Starting rsync"@),
    ) || starts_with(line, ascii(">>> starting rsync"@))) {
        Some(HistView::SyncStart { ts })
    } else {
        None
    }
}

/// Reads the start of a sync; which repository is synced is not kept.
pub fn parse_syncstart(enabled: bool, ts: i64, line: &[u8]) -> (r: Option<Hist>)
    ensures
        opt_hist(r) == syncstart_spec(enabled, ts, line@),
{
    proof {
        reveal_strlit(">>> Syncing");
        reveal_strlit(">>> Starting rsync");
        reveal_strlit(">>> starting rsync");
    }
    if enabled && (bytes_starts_with(line, tag(">>> Syncing")) || bytes_starts_with(
        line,
        tag(">>> Starting rsync"),
    ) || bytes_starts_with(line, tag(">>> starting rsync"))) {
        Some(Hist::SyncStart { ts })
    } else {
        None
    }
}

/// `=== Sync completed for gentoo` or `=== Sync completed with rsync://host/gentoo-portage`
pub open spec fn syncstop_spec(enabled: bool, ts: i64, line: Seq<u8>, filter: FilterStr) -> Option<
    HistView,
> {
    if enabled && starts_with(line, ascii("=== Sync comp"@)) {
        match last_index2(line, 32, 47) {
            Some(q) => {
                let repo = line.skip(q + 1);
                if valid_utf8(repo) && filter.matches_str(decode_utf8(repo)) {
                    Some(HistView::SyncStop { ts, repo: decode_utf8(repo) })
                } else {
                    None
                }
            },
            None => None,
        }
    } else {
        None
    }
}

/// Reads the end of a sync: the repository follows the last space or slash.
pub fn parse_syncstop(enabled: bool, ts: i64, line: &[u8], filter: &FilterStr) -> (r: Option<Hist>)
    ensures
        opt_hist(r) == syncstop_spec(enabled, ts, line@, *filter),
{
    if !enabled {
        return None;
    }
    proof {
        reveal_strlit("=== Sync comp");
    }
    if !bytes_starts_with(line, tag("=== Sync comp")) {
        return None;
    }
    let n = line.len();
    let q = match memchr::memrchr2(32u8, 47u8, line) {
        Some(q) => q,
        None => {
            proof {
                lemma_last_index2(line@, 32, 47, -1);
            }
            return None;
        },
    };
    proof {
        lemma_last_index2(line@, 32, 47, q as int);
    }
    let rest = &line[q + 1..n];
    assert(rest@ =~= line@.skip(q + 1));
    let repo = match utf8_str(rest) {
        Some(repo) => repo,
        None => return None,
    };
    assert(decode_utf8(encode_utf8(repo@)) == repo@);
    if filter.match_str(repo) {
        Some(Hist::SyncStop { ts, repo: to_string(repo) })
    } else {
        None
    }
}

/// The event a log line holds, after its timestamp: each kind of line is tried in turn.
pub open spec fn event_spec(t: i64, s: Seq<u8>, show: Show, filter: FilterStr) -> Option<HistView> {
    let m = show.merge || show.pkg || show.tot;
    let u = show.unmerge || show.pkg || show.tot;
    if mergestart_spec(m, t, s, filter) is Some {
        mergestart_spec(m, t, s, filter)
    } else if mergestop_spec(m, t, s, filter) is Some {
        mergestop_spec(m, t, s, filter)
    } else if unmergestart_spec(u, t, s, filter) is Some {
        unmergestart_spec(u, t, s, filter)
    } else if unmergestop_spec(u, t, s, filter) is Some {
        unmergestop_spec(u, t, s, filter)
    } else if runstart_spec(show.run, t, s) is Some {
        runstart_spec(show.run, t, s)
    } else if syncstart_spec(show.sync, t, s) is Some {
        syncstart_spec(show.sync, t, s)
    } else if syncstop_spec(show.sync, t, s, filter) is Some {
        syncstop_spec(show.sync, t, s, filter)
    } else {
        mergebin_spec(m, t, s, filter)
    }
}

/// A line body on which no parser runs out of bytes.
pub open spec fn event_ok(s: Seq<u8>, show: Show) -> bool {
    &&& runstart_ok(show.run, s)
    &&& mergebin_ok(show.merge || show.pkg || show.tot, s)
    &&& unmergestart_ok(show.unmerge || show.pkg || show.tot, s)
}

/// The event of a whole log line, when its timestamp is within `[min, max]`.
pub open spec fn line_spec(line: Seq<u8>, min: i64, max: i64, show: Show, filter: FilterStr) -> Option<
    HistView,
> {
    match ts_spec(line, min, max) {
        Some((t, s)) => event_spec(t, s, show, filter),
        None => None,
    }
}

/// A log line on which no parser runs out of bytes.
pub open spec fn line_ok(line: Seq<u8>, min: i64, max: i64, show: Show) -> bool {
    ts_ok(line, min, max) && (ts_spec(line, min, max) matches Some((t, s)) ==> event_ok(s, show))
}

/// Reads one emerge log line into the event it records, if it is within `[min, max]`, of a kind
/// that `show` asks for, and passes the filter.
pub fn parse_line(line: &[u8], min: i64, max: i64, show: Show, filter: &FilterStr) -> (r: Option<
    Hist,
>)
    requires
        line_ok(line@, min, max, show),
    ensures
        opt_hist(r) == line_spec(line@, min, max, show, *filter),
        r matches Some(h) ==> h@.wf(),
{
    let (t, s) = match parse_ts(line, min, max) {
        Some(x) => x,
        None => return None,
    };
    let m = show.merge || show.pkg || show.tot;
    let u = show.unmerge || show.pkg || show.tot;
    if let Some(h) = parse_mergestart(m, t, s, filter) {
        return Some(h);
    }
    if let Some(h) = parse_mergestop(m, t, s, filter) {
        return Some(h);
    }
    if let Some(h) = parse_unmergestart(u, t, s, filter) {
        return Some(h);
    }
    if let Some(h) = parse_unmergestop(u, t, s, filter) {
        return Some(h);
    }
    if let Some(h) = parse_runstart(show.run, t, s) {
        return Some(h);
    }
    if let Some(h) = parse_syncstart(show.sync, t, s) {
        return Some(h);
    }
    if let Some(h) = parse_syncstop(show.sync, t, s, filter) {
        return Some(h);
    }
    parse_mergebin(m, t, s, filter)
}

/// The timestamp of a line that records the start of an emerge run.
pub open spec fn run_ts_spec(line: Seq<u8>) -> Option<i64> {
    match ts_spec(line, i64::MIN, i64::MAX) {
        Some((t, s)) => if starts_with(s, ascii("*** emerge"@)) {
            Some(t)
        } else {
            None
        },
        None => None,
    }
}

/// The timestamp of an emerge run start line, used to resolve run-relative time bounds.
pub fn run_ts(line: &[u8]) -> (r: Option<i64>)
    requires
        ts_ok(line@, i64::MIN, i64::MAX),
    ensures
        r == run_ts_spec(line@),
{
    let (t, s) = match parse_ts(line, i64::MIN, i64::MAX) {
        Some(x) => x,
        None => return None,
    };
    proof {
        reveal_strlit("*** emerge");
    }
    if bytes_starts_with(s, tag("*** emerge")) {
        Some(t)
    } else {
        None
    }
}

/// Whether no parser runs out of bytes on this log line, so that `parse_line` may read it.
pub fn check_line(line: &[u8], min: i64, max: i64, show: Show) -> (r: bool)
    ensures
        r == line_ok(line@, min, max, show),
{
    let (v, n) = i64_from_digits(line);
    let inr = match v {
        Some(t) => n != 0 && t >= min && t <= max,
        None => false,
    };
    if !inr {
        return true;
    }
    if n >= line.len() {
        return false;
    }
    let (_t, s) = match parse_ts(line, min, max) {
        Some(x) => x,
        None => {
            assert(false);
            return true;
        },
    };
    proof {
        reveal_strlit("*** emer");
        reveal_strlit("=== (");
        reveal_strlit("=== Unmer");
    }
    let m = show.merge || show.pkg || show.tot;
    let u = show.unmerge || show.pkg || show.tot;
    if show.run && bytes_starts_with(s, tag("*** emer")) && s.len() < 11 {
        return false;
    }
    if m && bytes_starts_with(s, tag("=== (")) {
        if let Some(p1) = find_first(41u8, s) {
            if p1 >= s.len() - 1 {
                return false;
            }
        }
    }
    if u && bytes_starts_with(s, tag("=== Unmer")) {
        if let Some(q) = find_first(40u8, s) {
            if q >= s.len() - 1 {
                return false;
            }
        }
    }
    true
}


/// Whether `show` asks for events of this kind.
pub open spec fn shown(h: HistView, show: Show) -> bool {
    match h {
        HistView::RunStart { .. } => show.run,
        HistView::MergeStart { .. } | HistView::MergeBin { .. } | HistView::MergeStop { .. } => show.merge
            || show.pkg || show.tot,
        HistView::UnmergeStart { .. } | HistView::UnmergeStop { .. } => show.unmerge || show.pkg
            || show.tot,
        HistView::SyncStart { .. } | HistView::SyncStop { .. } => show.sync,
    }
}

/// The `categ/name` part of the key of a package event.
pub open spec fn pkg_name(h: HistView) -> Seq<char> {
    decode_utf8(encode_utf8(h.key()).take(h.pos() - 1))
}

/// Whether the search filter lets an event through: package events by package name, sync ends
/// by repository name, other events always.
pub open spec fn passes(h: HistView, filter: FilterStr) -> bool {
    match h {
        HistView::SyncStop { repo, .. } => filter.matches_str(repo),
        _ => h.keyed() ==> filter.matches_pkg(pkg_name(h)),
    }
}

/// A package event read from an atom has the line's timestamp, the kind asked for, and a
/// package name that passes the filter.
proof fn lemma_atom_event(kind: u8, ts: i64, atom: Seq<u8>, filter: FilterStr)
    ensures
        atom_event(kind, ts, atom, filter) matches Some(h) ==> h.ts() == ts && h.keyed()
            && passes(h, filter),
{
    if let Some((k, p)) = atom_key(atom, filter) {
        let b = encode_utf8(decode_utf8(atom));
        lemma_version_dash_split(b, 0);
        let h = keyed_event(kind, ts, k, p);
        assert(h.key() == k && h.pos() == p);
    }
}

/// Reading a log line selects what was asked: an event comes back only when its timestamp is
/// within `[min, max]`, when `show` asks for its kind, and when it passes the search filter.
pub proof fn lemma_line_selects(line: Seq<u8>, min: i64, max: i64, show: Show, filter: FilterStr)
    ensures
        line_spec(line, min, max, show, filter) matches Some(h) ==> min <= h.ts() <= max && shown(
            h,
            show,
        ) && passes(h, filter),
{
    if let Some((t, s)) = ts_spec(line, min, max) {
        let m = show.merge || show.pkg || show.tot;
        let u = show.unmerge || show.pkg || show.tot;
        if let Some(a) = field(s, 5) {
            lemma_atom_event(0, t, a, filter);
        }
        if let Some(a) = field(s, 6) {
            lemma_atom_event(2, t, a, filter);
        }
        if let Some(q) = first_index(s, 40) {
            lemma_atom_event(3, t, s.subrange(q + 1, s.len() - 1), filter);
        }
        if let Some(q) = last_index(s, 32) {
            lemma_atom_event(4, t, s.skip(q + 1), filter);
        }
        if let Some(p1) = first_index(s, 41) {
            if let Some(q) = first_index(s.skip(p1), 40) {
                let p2 = q + p1 + 1;
                if let Some(e) = first_index(s.skip(p2), 58) {
                    lemma_atom_event(1, t, s.subrange(p2, e + p2), filter);
                }
            }
        }
    }
}

} // verus!
