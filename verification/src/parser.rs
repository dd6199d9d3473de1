//! The first emerge log format reader: atoms split at the first dash that follows a non-dash and
//! precedes a digit.
use crate::parse::current::char_pos_from;
use crate::parse::history::{ascii, dash, first_index, lemma_first_index, tag};
use crate::re::{regex_compiles, regex_new, PlainRegex, ci_regex_compiles, ci_regex_is_match, ci_regex_matches, ci_regex_new, CiRegex};
use crate::text::{
    bytes_ends_with, bytes_starts_with, char_is_whitespace, chars_vec, ends_with, i64_of, is_digit,
    is_unicode_ws, lemma_ascii_boundary, lemma_encode_concat, parse_i64, push_char, push_str,
    split_words, starts_with, str_has_char, str_slice, to_string, trim_start, views, words,
};
use vstd::prelude::*;
use vstd::string::*;
use vstd::utf8::*;

verus! {

broadcast use vstd::utf8::group_utf8_lib;

/// A dash at `d` splits `categ/name-version`: not first, not after another dash, followed by a
/// digit.
pub open spec fn atom_dash(b: Seq<u8>, d: int) -> bool {
    1 <= d && d + 1 < b.len() && b[d] == dash() && b[d - 1] != dash() && is_digit(b[d + 1])
}

/// The first splitting dash at or after `i`.
pub open spec fn atom_dash_from(b: Seq<u8>, i: int) -> Option<int>
    decreases b.len() - i,
{
    if i < 0 || i >= b.len() {
        None
    } else if atom_dash(b, i) {
        Some(i)
    } else {
        atom_dash_from(b, i + 1)
    }
}

/// Bytes that cannot split can be skipped.
proof fn lemma_atom_skip(b: Seq<u8>, i: int, j: int)
    requires
        0 <= i <= j <= b.len(),
        forall|k: int| i <= k < j ==> !atom_dash(b, k),
    ensures
        atom_dash_from(b, i) == atom_dash_from(b, j),
    decreases j - i,
{
    if i < j {
        lemma_atom_skip(b, i + 1, j);
    }
}

/// Splits `categ/name-version` into `categ/name` and `version`.
pub fn split_atom(atom: &str) -> (r: Option<(&str, &str)>)
    ensures
        match r {
            Some((e, v)) => atom_dash_from(atom.spec_bytes(), 0) matches Some(d) && e.spec_bytes()
                == atom.spec_bytes().take(d) && v.spec_bytes() == atom.spec_bytes().skip(d + 1),
            None => atom_dash_from(atom.spec_bytes(), 0) is None,
        },
{
    let b = atom.as_bytes();
    let n = b.len();
    let ghost bv = atom.spec_bytes();
    let mut i: usize = 0;
    while i < n
        invariant
            i <= n == bv.len(),
            b@ == bv,
            bv == atom.spec_bytes(),
            atom_dash_from(bv, 0) == atom_dash_from(bv, i as int),
        decreases n - i,
    {
        if b[i] == 45u8 && i >= 1 && b[i - 1] != 45u8 && i + 1 < n && 48u8 <= b[i + 1] && b[i
            + 1] <= 57u8 {
            assert(atom_dash(bv, i as int));
            proof {
                encode_utf8_valid_utf8(atom@);
                is_char_boundary_start_end_of_seq(bv);
                lemma_ascii_boundary(bv, i as int);
                lemma_ascii_boundary(bv, i + 1);
            }
            let e = str_slice(atom, 0, i);
            let v = str_slice(atom, i + 1, n);
            assert(e.spec_bytes() =~= bv.take(i as int));
            assert(v.spec_bytes() =~= bv.skip(i + 1));
            return Some((e, v));
        }
        proof {
            lemma_atom_skip(bv, i as int, i + 1);
        }
        i += 1;
    }
    None
}


/// Encoding `a + b` puts a character boundary where `b` starts.
pub proof fn lemma_concat_boundary(a: Seq<char>, b: Seq<char>)
    ensures
        is_char_boundary(encode_utf8(a + b), encode_utf8(a).len() as int),
    decreases a.len(),
{
    if a.len() > 0 {
        let ab = a + b;
        encode_utf8_first_scalar(ab);
        encode_utf8_valid_utf8(ab);
        encode_utf8_valid_utf8(a.drop_first() + b);
        assert(ab.drop_first() =~= a.drop_first() + b);
        assert(ab[0] == a[0]);
        let l = encode_scalar(a[0] as u32).len() as int;
        assert(encode_utf8(ab) == encode_scalar(ab[0] as u32) + encode_utf8(ab.drop_first()));
        assert(pop_first_scalar(encode_utf8(ab)) =~= encode_utf8(a.drop_first() + b));
        assert(encode_utf8(a) == encode_scalar(a[0] as u32) + encode_utf8(a.drop_first()));
        lemma_concat_boundary(a.drop_first(), b);
    }
}

/// An event of the first log reader. Merge keys are `categ/name-version` followed by the
/// position in the merge list; `pos1` starts the version and `pos2` ends it (byte indexes).
#[derive(Debug)]
pub enum Hist {
    /// Merge started (might never complete).
    MergeStart { ts: i64, key: String, pos1: usize, pos2: usize },
    /// Merge completed.
    MergeStop { ts: i64, key: String, pos1: usize, pos2: usize },
    /// Unmerge started (might never complete).
    UnmergeStart { ts: i64, key: String, pos: usize },
    /// Unmerge completed.
    UnmergeStop { ts: i64, key: String, pos: usize },
    /// Sync started (might never complete).
    SyncStart { ts: i64 },
    /// Sync completed.
    SyncStop { ts: i64 },
}

/// The version of `b` lies between `pos1` and `pos2`: after a dash that is not the first byte,
/// starting with a digit, and ending at a character boundary.
pub open spec fn version_span(b: Seq<u8>, pos1: int, pos2: int) -> bool {
    &&& 2 <= pos1 < pos2 <= b.len()
    &&& b[pos1 - 1] == dash()
    &&& is_digit(b[pos1])
    &&& is_char_boundary(b, pos2)
}

impl Hist {
    /// The event names a package.
    pub open spec fn keyed(&self) -> bool {
        !(self is SyncStart || self is SyncStop)
    }

    /// The positions of a package event are where its key splits.
    pub open spec fn wf(&self) -> bool {
        match self {
            Hist::MergeStart { key, pos1, pos2, .. } | Hist::MergeStop { key, pos1, pos2, .. } => version_span(
                encode_utf8(key@),
                *pos1 as int,
                *pos2 as int,
            ),
            Hist::UnmergeStart { key, pos, .. } | Hist::UnmergeStop { key, pos, .. } => version_span(
                encode_utf8(key@),
                *pos as int,
                encode_utf8(key@).len() as int,
            ),
            _ => true,
        }
    }

    /// The key and the ends of its version.
    pub open spec fn parts(&self) -> (Seq<u8>, int, int) {
        match self {
            Hist::MergeStart { key, pos1, pos2, .. } | Hist::MergeStop { key, pos1, pos2, .. } => (
                encode_utf8(key@),
                *pos1 as int,
                *pos2 as int,
            ),
            Hist::UnmergeStart { key, pos, .. } | Hist::UnmergeStop { key, pos, .. } => (
                encode_utf8(key@),
                *pos as int,
                encode_utf8(key@).len() as int,
            ),
            _ => (Seq::empty(), 0, 0),
        }
    }

    /// The key, and where its version starts and ends.
    fn key_parts(&self) -> (r: (&str, usize, usize))
        requires
            self.keyed(),
        ensures
            (r.0.spec_bytes(), r.1 as int, r.2 as int) == self.parts(),
            valid_utf8(r.0.spec_bytes()),
            is_char_boundary(r.0.spec_bytes(), 0),
            is_char_boundary(r.0.spec_bytes(), r.0.spec_bytes().len() as int),
            r.0.spec_bytes().len() <= usize::MAX,
    {
        let r = match self {
            Hist::MergeStart { key, pos1, pos2, .. } | Hist::MergeStop { key, pos1, pos2, .. } => (
                key.as_str(),
                *pos1,
                *pos2,
            ),
            Hist::UnmergeStart { key, pos, .. } | Hist::UnmergeStop { key, pos, .. } => (
                key.as_str(),
                *pos,
                key.as_str().as_bytes().len(),
            ),
            _ => {
                assert(false);
                ("", 0, 0)
            },
        };
        let n = r.0.as_bytes().len();
        proof {
            is_char_boundary_start_end_of_seq(r.0.spec_bytes());
        }
        r
    }

    /// The `categ/name` part: the key up to the byte before the version.
    pub fn ebuild(&self) -> (r: &str)
        requires
            self.keyed(),
            self.parts().1 >= 1,
            is_char_boundary(self.parts().0, self.parts().1 - 1),
        ensures
            r.spec_bytes() == self.parts().0.take(self.parts().1 - 1),
    {
        let (k, p1, _) = self.key_parts();
        let r = str_slice(k, 0, p1 - 1);
        assert(r.spec_bytes() =~= self.parts().0.take(self.parts().1 - 1));
        r
    }

    /// The version part.
    pub fn version(&self) -> (r: &str)
        requires
            self.keyed(),
            self.parts().1 <= self.parts().2,
            is_char_boundary(self.parts().0, self.parts().1),
            is_char_boundary(self.parts().0, self.parts().2),
        ensures
            r.spec_bytes() == self.parts().0.subrange(self.parts().1, self.parts().2),
    {
        let (k, p1, p2) = self.key_parts();
        str_slice(k, p1, p2)
    }

    /// The `categ/name-version` part: the key up to the end of the version.
    pub fn ebuild_version(&self) -> (r: &str)
        requires
            self.keyed(),
            is_char_boundary(self.parts().0, self.parts().2),
        ensures
            r.spec_bytes() == self.parts().0.take(self.parts().2),
    {
        let (k, _, p2) = self.key_parts();
        let r = str_slice(k, 0, p2);
        assert(r.spec_bytes() =~= self.parts().0.take(self.parts().2));
        r
    }

    /// The position in the merge list that follows the version of a merge.
    pub fn iter(&self) -> (r: &str)
        requires
            self is MergeStart || self is MergeStop,
            is_char_boundary(self.parts().0, self.parts().2),
        ensures
            r.spec_bytes() == self.parts().0.skip(self.parts().2),
    {
        let (k, _, p2) = self.key_parts();
        let n = k.as_bytes().len();
        let r = str_slice(k, p2, n);
        assert(r.spec_bytes() =~= self.parts().0.skip(self.parts().2));
        r
    }

    /// A well-formed key can be cut at the version.
    pub proof fn lemma_wf_cuts(&self)
        requires
            self.keyed(),
            self.wf(),
        ensures
            self.parts().1 >= 1,
            is_char_boundary(self.parts().0, self.parts().1 - 1),
            is_char_boundary(self.parts().0, self.parts().1),
            is_char_boundary(self.parts().0, self.parts().2),
            self.parts().1 <= self.parts().2,
    {
        let b = self.parts().0;
        lemma_ascii_boundary(b, self.parts().1 - 1);
        lemma_ascii_boundary(b, self.parts().1);
    }

    /// The timestamp.
    pub fn ts(&self) -> (r: i64)
        ensures
            r == match self {
                Hist::MergeStart { ts, .. } | Hist::MergeStop { ts, .. } | Hist::UnmergeStart { ts, .. }
                | Hist::UnmergeStop { ts, .. } | Hist::SyncStart { ts } | Hist::SyncStop { ts } => *ts,
            },
    {
        match self {
            Hist::MergeStart { ts, .. } => *ts,
            Hist::MergeStop { ts, .. } => *ts,
            Hist::UnmergeStart { ts, .. } => *ts,
            Hist::UnmergeStop { ts, .. } => *ts,
            Hist::SyncStart { ts } => *ts,
            Hist::SyncStop { ts } => *ts,
        }
    }
}

/// The timestamps an event may carry: `min <= ts <= max`.
pub struct TsFilter {
    pub min: i64,
    pub max: i64,
}

impl TsFilter {
    /// Whether `ts` is within bounds.
    pub open spec fn accepts(self, ts: i64) -> bool {
        self.min <= ts <= self.max
    }

    /// Whether `ts` is within bounds.
    pub fn pass(&self, ts: i64) -> (r: bool)
        ensures
            r == self.accepts(ts),
    {
        self.min <= ts && ts <= self.max
    }
}

/// The timestamp filter for optional bounds: a missing bound is the extreme `i64` value.
pub fn filter_ts_fn(min: Option<i64>, max: Option<i64>) -> (r: TsFilter)
    ensures
        r.min == match min {
            Some(a) => a,
            None => i64::MIN,
        },
        r.max == match max {
            Some(b) => b,
            None => i64::MAX,
        },
{
    let mi = match min {
        Some(a) => a,
        None => i64::MIN,
    };
    let ma = match max {
        Some(b) => b,
        None => i64::MAX,
    };
    TsFilter { min: mi, max: ma }
}

/// The package filter of the first log reader.
pub enum FilterPkg {
    /// Every package passes.
    True,
    /// Only `categ/name` equal to `e` passes.
    Eq { e: String },
    /// Only names that end with `e` (a `/` and a name) pass.
    Ends { e: String },
    /// Only names that the case-insensitive regex matches pass.
    Re { r: CiRegex },
}

impl FilterPkg {
    /// Whether the package name `s` passes.
    pub open spec fn accepts(&self, s: Seq<char>) -> bool {
        match self {
            FilterPkg::True => true,
            FilterPkg::Eq { e } => e@ == s,
            FilterPkg::Ends { e } => ends_with(encode_utf8(s), encode_utf8(e@)),
            FilterPkg::Re { r } => ci_regex_matches(r.pattern(), s),
        }
    }

    /// Whether the package name `s` passes.
    pub fn pass(&self, s: &str) -> (b: bool)
        ensures
            b == self.accepts(s@),
    {
        match self {
            FilterPkg::True => true,
            FilterPkg::Eq { e } => crate::text::str_eq(e.as_str(), s),
            FilterPkg::Ends { e } => bytes_ends_with(s.as_bytes(), e.as_str().as_bytes()),
            FilterPkg::Re { r } => ci_regex_is_match(r, s),
        }
    }
}

/// The package filter for an optional search term: none keeps everything; an exact term with a
/// `/` must equal `categ/name`, an exact term without one must equal the name; any other term is
/// a case-insensitive regex, and a regex that does not compile is the error.
pub fn filter_pkg_fn(package: Option<&str>, exact: bool) -> (r: Result<FilterPkg, regex::Error>)
    ensures
        match package {
            None => r matches Ok(FilterPkg::True),
            Some(p) => if exact && p@.contains('/') {
                r matches Ok(FilterPkg::Eq { e }) && e@ == p@
            } else if exact {
                r matches Ok(FilterPkg::Ends { e }) && e@ == seq!['/'] + p@
            } else {
                &&& (r is Ok <==> ci_regex_compiles(p@))
                &&& (r matches Ok(f) ==> f matches FilterPkg::Re { r } && r.pattern() == p@)
            },
        },
{
    match package {
        None => Ok(FilterPkg::True),
        Some(search) => {
            if exact && str_has_char(search, '/') {
                Ok(FilterPkg::Eq { e: to_string(search) })
            } else if exact {
                let mut e = String::new();
                push_char(&mut e, '/');
                push_str(&mut e, search);
                assert(e@ =~= seq!['/'] + search@);
                Ok(FilterPkg::Ends { e })
            } else {
                match ci_regex_new(search) {
                    Ok(r) => Ok(FilterPkg::Re { r }),
                    Err(e) => Err(e),
                }
            }
        },
    }
}

/// The timestamp before the first `:` of a line and the index of that `:`, when the timestamp
/// reads as an `i64` and passes the filter.
pub open spec fn line_ts(b: Seq<u8>, f: TsFilter) -> Option<(i64, int)> {
    match first_index(b, 58) {
        Some(c) => match i64_of(b.take(c)) {
            Some(t) => if f.accepts(t) {
                Some((t, c))
            } else {
                None
            },
            None => None,
        },
        None => None,
    }
}

/// The timestamp of a line and its text: what follows the `:` and one more byte, without
/// leading whitespace.
pub open spec fn ts_split(b: Seq<u8>, f: TsFilter) -> Option<(i64, Seq<char>)> {
    match line_ts(b, f) {
        Some((t, c)) => Some((t, trim_start(decode_utf8(b.skip(c + 2))))),
        None => None,
    }
}

/// A kept timestamp is followed by a byte and a character boundary.
pub open spec fn ts_split_ok(b: Seq<u8>, f: TsFilter) -> bool {
    line_ts(b, f) matches Some((t, c)) ==> is_char_boundary(b, c + 2)
}

/// Whether `ts_split` can read `line`.
pub fn ts_line_ok(line: &str, f: &TsFilter) -> (r: bool)
    ensures
        r == ts_split_ok(line.spec_bytes(), *f),
{
    let b = line.as_bytes();
    let n = b.len();
    let c = match find_colon(b) {
        Some(c) => c,
        None => return true,
    };
    let t = match parse_i64(&b[0..c]) {
        Some(t) => t,
        None => {
            assert(b@.subrange(0, c as int) =~= b@.take(c as int));
            return true;
        },
    };
    assert(b@.subrange(0, c as int) =~= b@.take(c as int));
    if !f.pass(t) {
        return true;
    }
    if n - c < 2 {
        return false;
    }
    proof {
        is_char_boundary_start_end_of_seq(b@);
    }
    if n - c == 2 {
        return true;
    }
    proof {
        is_char_boundary_iff_not_is_continuation_byte(b@, c + 2);
    }
    !(128u8 <= b[c + 2] && b[c + 2] < 192u8)
}

/// The index of the first `:`.
fn find_colon(b: &[u8]) -> (r: Option<usize>)
    ensures
        match r {
            Some(c) => first_index(b@, 58) == Some(c as int) && c < b@.len(),
            None => first_index(b@, 58) is None,
        },
{
    let n = b.len();
    let mut c: usize = 0;
    while c < n && b[c] != 58u8
        invariant
            c <= n == b@.len(),
            forall|j: int| 0 <= j < c ==> b@[j] != 58,
        decreases n - c,
    {
        c += 1;
    }
    proof {
        lemma_first_index(b@, 58, c as int);
    }
    if c == n {
        None
    } else {
        Some(c)
    }
}

/// Reads the timestamp of a line and keeps it when it passes the filter, with the text that
/// follows.
pub fn parse_ts<'a>(line: &'a str, f: &TsFilter) -> (r: Option<(i64, &'a str)>)
    requires
        ts_split_ok(line.spec_bytes(), *f),
    ensures
        match r {
            Some((t, s)) => ts_split(line.spec_bytes(), *f) == Some((t, s@)),
            None => ts_split(line.spec_bytes(), *f) is None,
        },
{
    let b = line.as_bytes();
    let n = b.len();
    let c = match find_colon(b) {
        Some(c) => c,
        None => return None,
    };
    assert(b@.subrange(0, c as int) =~= b@.take(c as int));
    let t = match parse_i64(&b[0..c]) {
        Some(t) => t,
        None => return None,
    };
    if !f.pass(t) {
        return None;
    }
    proof {
        is_char_boundary_start_end_of_seq(b@);
    }
    let rest = str_slice(line, c + 2, n);
    assert(b@.subrange(c + 2, n as int) =~= b@.skip(c + 2));
    let v = chars_vec(rest);
    let len = v.len();
    let mut lo: usize = 0;
    assert(v@.skip(0) =~= v@);
    while lo < len && char_is_whitespace(v[lo])
        invariant
            lo <= len == v@.len(),
            trim_start(v@) == trim_start(v@.skip(lo as int)),
        decreases len - lo,
    {
        assert(v@.skip(lo as int).drop_first() =~= v@.skip(lo + 1));
        lo += 1;
    }
    assert(v@.skip(lo as int) =~= v@.subrange(lo as int, len as int));
    let s = rest.substring_char(lo, len);
    Some((t, s))
}

/// The mathematical value of a [`Hist`].
pub enum Event {
    MergeStart { ts: i64, key: Seq<char>, pos1: nat, pos2: nat },
    MergeStop { ts: i64, key: Seq<char>, pos1: nat, pos2: nat },
    UnmergeStart { ts: i64, key: Seq<char>, pos: nat },
    UnmergeStop { ts: i64, key: Seq<char>, pos: nat },
    SyncStart { ts: i64 },
    SyncStop { ts: i64 },
}

impl View for Hist {
    type V = Event;

    open spec fn view(&self) -> Event {
        match self {
            Hist::MergeStart { ts, key, pos1, pos2 } => Event::MergeStart {
                ts: *ts,
                key: key@,
                pos1: *pos1 as nat,
                pos2: *pos2 as nat,
            },
            Hist::MergeStop { ts, key, pos1, pos2 } => Event::MergeStop {
                ts: *ts,
                key: key@,
                pos1: *pos1 as nat,
                pos2: *pos2 as nat,
            },
            Hist::UnmergeStart { ts, key, pos } => Event::UnmergeStart {
                ts: *ts,
                key: key@,
                pos: *pos as nat,
            },
            Hist::UnmergeStop { ts, key, pos } => Event::UnmergeStop {
                ts: *ts,
                key: key@,
                pos: *pos as nat,
            },
            Hist::SyncStart { ts } => Event::SyncStart { ts: *ts },
            Hist::SyncStop { ts } => Event::SyncStop { ts: *ts },
        }
    }
}

/// The view of an optional event.
pub open spec fn opt_event(h: Option<Hist>) -> Option<Event> {
    match h {
        Some(h) => Some(h@),
        None => None,
    }
}

/// The `categ/name` part of an atom whose splitting dash is at byte `d`.
pub open spec fn ebuild_of(a: Seq<char>, d: int) -> Seq<char> {
    decode_utf8(encode_utf8(a).take(d))
}

/// A merge event read from the words `w`: the atom `w[ai]`, cut at its splitting dash, then in
/// the key the count `w[ci]` and the position `w[pi]` without its first character; the version
/// ends where the atom does.
pub open spec fn merge_event(
    stop: bool,
    ts: i64,
    w: Seq<Seq<char>>,
    pi: int,
    ci: int,
    ai: int,
    f: FilterPkg,
) -> Option<Event> {
    if w.len() <= ai {
        None
    } else {
        match atom_dash_from(encode_utf8(w[ai]), 0) {
            Some(d) => if f.accepts(ebuild_of(w[ai], d)) {
                let key = w[ai] + w[ci] + w[pi].drop_first();
                let pos1 = (d + 1) as nat;
                let pos2 = encode_utf8(w[ai]).len();
                if stop {
                    Some(Event::MergeStop { ts, key, pos1, pos2 })
                } else {
                    Some(Event::MergeStart { ts, key, pos1, pos2 })
                }
            } else {
                None
            },
            None => None,
        }
    }
}

/// A kept merge event has a position word whose first character is a single byte.
pub open spec fn merge_ok(w: Seq<Seq<char>>, pi: int, ai: int, f: FilterPkg) -> bool {
    if w.len() > ai {
        match atom_dash_from(encode_utf8(w[ai]), 0) {
            Some(d) => f.accepts(ebuild_of(w[ai], d)) ==> is_char_boundary(encode_utf8(w[pi]), 1),
            None => true,
        }
    } else {
        true
    }
}

/// A character boundary after the first byte means a first character of one byte.
proof fn lemma_skip_first_byte(s: Seq<char>)
    requires
        is_char_boundary(encode_utf8(s), 1),
    ensures
        s.len() > 0,
        encode_utf8(s).skip(1) == encode_utf8(s.drop_first()),
{
    let b = encode_utf8(s);
    if s.len() == 0 {
        assert(b.len() == 0);
    } else {
        encode_utf8_first_scalar(s);
        let l = encode_scalar(s[0] as u32).len();
        assert(b == encode_scalar(s[0] as u32) + encode_utf8(s.drop_first()));
        if l != 1 {
            assert(l > 1 || l == 0);
            assert(!is_char_boundary(b, 1));
        }
        assert(b.skip(1) =~= encode_utf8(s.drop_first()));
    }
}

/// `p` without its first character, when that character is a single byte.
fn drop_first_byte(p: &str) -> (r: Option<&str>)
    ensures
        r is None <==> !is_char_boundary(p.spec_bytes(), 1),
        r matches Some(t) ==> t@ == p@.drop_first(),
{
    let pb = p.as_bytes();
    proof {
        is_char_boundary_start_end_of_seq(pb@);
    }
    if pb.len() < 1 {
        return None;
    }
    proof {
        if pb.len() > 1 {
            is_char_boundary_iff_not_is_continuation_byte(pb@, 1);
        }
    }
    if pb.len() > 1 && 128u8 <= pb[1] && pb[1] < 192u8 {
        return None;
    }
    let tail = str_slice(p, 1, pb.len());
    proof {
        lemma_skip_first_byte(p@);
        assert(pb@.subrange(1, pb@.len() as int) =~= pb@.skip(1));
    }
    Some(tail)
}

/// The merge event for an atom split into `e` and `v` at its dash, followed in the key by
/// `more`.
fn merge_hist(stop: bool, ts: i64, atom: &str, e: &str, v: &str, more: Ghost<Seq<char>>, key: String) -> (h: Hist)
    requires
        atom_dash_from(atom.spec_bytes(), 0) matches Some(d) && e.spec_bytes() == atom.spec_bytes().take(d)
            && v.spec_bytes() == atom.spec_bytes().skip(d + 1),
        key@ == atom@ + more@,
    ensures
        h@ == (if stop {
            Event::MergeStop {
                ts,
                key: key@,
                pos1: (atom_dash_from(atom.spec_bytes(), 0)->0 + 1) as nat,
                pos2: atom.spec_bytes().len(),
            }
        } else {
            Event::MergeStart {
                ts,
                key: key@,
                pos1: (atom_dash_from(atom.spec_bytes(), 0)->0 + 1) as nat,
                pos2: atom.spec_bytes().len(),
            }
        }),
        h.wf(),
{
    let ghost d = atom_dash_from(atom.spec_bytes(), 0)->0;
    let ghost ab = atom.spec_bytes();
    proof {
        lemma_atom_dash_from(ab, 0);
    }
    let n = atom.as_bytes().len();
    assert(e.spec_bytes().len() == d && v.spec_bytes().len() == n - d - 1);
    let pos1 = e.as_bytes().len() + 1;
    let pos2 = pos1 + v.as_bytes().len();
    proof {
        lemma_encode_concat(atom@, more@);
        lemma_concat_boundary(atom@, more@);
        assert(encode_utf8(key@)[d] == ab[d]);
        assert(encode_utf8(key@)[d + 1] == ab[d + 1]);
    }
    if stop {
        Hist::MergeStop { ts, key, pos1, pos2 }
    } else {
        Hist::MergeStart { ts, key, pos1, pos2 }
    }
}

/// The dash `atom_dash_from` finds splits.
proof fn lemma_atom_dash_from(b: Seq<u8>, i: int)
    requires
        atom_dash_from(b, i) is Some,
    ensures
        atom_dash(b, atom_dash_from(b, i)->0),
        i <= atom_dash_from(b, i)->0,
    decreases b.len() - i,
{
    if 0 <= i < b.len() && !atom_dash(b, i) {
        lemma_atom_dash_from(b, i + 1);
    }
}

/// Reads a merge from its words; `None` where a kept merge has a position word that does not
/// start with a single-byte character.
fn merge_words(
    stop: bool,
    ts: i64,
    w: &Vec<String>,
    pi: usize,
    ci: usize,
    ai: usize,
    filter: &FilterPkg,
) -> (r: Option<Option<Hist>>)
    requires
        pi < ai,
        ci < ai,
    ensures
        r is None <==> !merge_ok(views(w@), pi as int, ai as int, *filter),
        r matches Some(h) ==> opt_event(h) == merge_event(
            stop,
            ts,
            views(w@),
            pi as int,
            ci as int,
            ai as int,
            *filter,
        ),
        r matches Some(Some(h)) ==> h.wf(),
{
    let ghost ws = views(w@);
    if w.len() <= ai {
        return Some(None);
    }
    let atom = w[ai].as_str();
    assert(atom@ == ws[ai as int]);
    let (e, v) = match split_atom(atom) {
        Some(x) => x,
        None => return Some(None),
    };
    let ghost d = atom_dash_from(atom.spec_bytes(), 0)->0;
    assert(e@ == ebuild_of(ws[ai as int], d));
    if !filter.pass(e) {
        return Some(None);
    }
    let p = w[pi].as_str();
    assert(p@ == ws[pi as int]);
    let tail = match drop_first_byte(p) {
        Some(t) => t,
        None => return None,
    };
    let mut key = to_string(atom);
    push_str(&mut key, w[ci].as_str());
    push_str(&mut key, tail);
    let ghost more = ws[ci as int] + ws[pi as int].drop_first();
    assert(key@ =~= atom@ + more);
    let h = merge_hist(stop, ts, atom, e, v, Ghost(more), key);
    Some(Some(h))
}

/// The merge start a line holds: a `>>> emer` line whose words 2, 4 and 5 are the position,
/// the count and the atom.
pub open spec fn start_spec(enabled: bool, ts: i64, line: Seq<char>, f: FilterPkg) -> Option<Event> {
    if enabled && starts_with(encode_utf8(line), ascii(">>> emer"@)) {
        merge_event(false, ts, words(line, true), 2, 4, 5, f)
    } else {
        None
    }
}

/// A merge start that is kept has a position whose first character is a single byte.
pub open spec fn start_ok(enabled: bool, line: Seq<char>, f: FilterPkg) -> bool {
    enabled && starts_with(encode_utf8(line), ascii(">>> emer"@)) ==> merge_ok(
        words(line, true),
        2,
        5,
        f,
    )
}

/// The merge stop a line holds: a `::: comp` line whose words 3, 5 and 6 are the position,
/// the count and the atom.
pub open spec fn stop_spec(enabled: bool, ts: i64, line: Seq<char>, f: FilterPkg) -> Option<Event> {
    if enabled && starts_with(encode_utf8(line), ascii("::: comp"@)) {
        merge_event(true, ts, words(line, true), 3, 5, 6, f)
    } else {
        None
    }
}

/// A merge stop that is kept has a position whose first character is a single byte.
pub open spec fn stop_ok(enabled: bool, line: Seq<char>, f: FilterPkg) -> bool {
    enabled && starts_with(encode_utf8(line), ascii("::: comp"@)) ==> merge_ok(
        words(line, true),
        3,
        6,
        f,
    )
}

fn start_checked(enabled: bool, ts: i64, line: &str, filter: &FilterPkg) -> (r: Option<Option<Hist>>)
    ensures
        r is None <==> !start_ok(enabled, line@, *filter),
        r matches Some(h) ==> opt_event(h) == start_spec(enabled, ts, line@, *filter),
        r matches Some(Some(h)) ==> h.wf(),
{
    proof {
        reveal_strlit(">>> emer");
    }
    if !enabled || !bytes_starts_with(line.as_bytes(), tag(">>> emer")) {
        return Some(None);
    }
    let w = split_words(line, true);
    merge_words(false, ts, &w, 2, 4, 5, filter)
}

fn stop_checked(enabled: bool, ts: i64, line: &str, filter: &FilterPkg) -> (r: Option<Option<Hist>>)
    ensures
        r is None <==> !stop_ok(enabled, line@, *filter),
        r matches Some(h) ==> opt_event(h) == stop_spec(enabled, ts, line@, *filter),
        r matches Some(Some(h)) ==> h.wf(),
{
    proof {
        reveal_strlit("::: comp");
    }
    if !enabled || !bytes_starts_with(line.as_bytes(), tag("::: comp")) {
        return Some(None);
    }
    let w = split_words(line, true);
    merge_words(true, ts, &w, 3, 5, 6, filter)
}

/// Reads a merge start (`>>> emerge (1 of 2) categ/name-version to /`).
pub fn parse_start(enabled: bool, ts: i64, line: &str, filter: &FilterPkg) -> (r: Option<Hist>)
    requires
        start_ok(enabled, line@, *filter),
    ensures
        opt_event(r) == start_spec(enabled, ts, line@, *filter),
        r matches Some(h) ==> h.wf(),
{
    match start_checked(enabled, ts, line, filter) {
        Some(r) => r,
        None => None,
    }
}

/// Reads a merge stop (`::: completed emerge (1 of 2) categ/name-version to /`).
pub fn parse_stop(enabled: bool, ts: i64, line: &str, filter: &FilterPkg) -> (r: Option<Hist>)
    requires
        stop_ok(enabled, line@, *filter),
    ensures
        opt_event(r) == stop_spec(enabled, ts, line@, *filter),
        r matches Some(h) ==> h.wf(),
{
    match stop_checked(enabled, ts, line, filter) {
        Some(r) => r,
        None => None,
    }
}

/// An unmerge event for the atom bytes `a`: the key is the atom, the version follows its
/// splitting dash.
pub open spec fn unmerge_event(stop: bool, ts: i64, a: Seq<u8>, f: FilterPkg) -> Option<Event> {
    match atom_dash_from(a, 0) {
        Some(d) => if f.accepts(decode_utf8(a.take(d))) {
            if stop {
                Some(Event::UnmergeStop { ts, key: decode_utf8(a), pos: (d + 1) as nat })
            } else {
                Some(Event::UnmergeStart { ts, key: decode_utf8(a), pos: (d + 1) as nat })
            }
        } else {
            None
        },
        None => None,
    }
}

/// Reads an unmerge of `atom`.
fn unmerge_atom(stop: bool, ts: i64, atom: &str, filter: &FilterPkg) -> (r: Option<Hist>)
    ensures
        opt_event(r) == unmerge_event(stop, ts, atom.spec_bytes(), *filter),
        r matches Some(h) ==> h.wf(),
{
    let (e, _) = match split_atom(atom) {
        Some(x) => x,
        None => return None,
    };
    let ghost ab = atom.spec_bytes();
    let ghost d = atom_dash_from(ab, 0)->0;
    proof {
        lemma_atom_dash_from(ab, 0);
        is_char_boundary_start_end_of_seq(ab);
    }
    assert(e@ == decode_utf8(ab.take(d)));
    if !filter.pass(e) {
        return None;
    }
    let n = atom.as_bytes().len();
    let key = to_string(atom);
    let pos = e.as_bytes().len() + 1;
    assert(encode_utf8(key@) == ab);
    if stop {
        Some(Hist::UnmergeStop { ts, key, pos })
    } else {
        Some(Hist::UnmergeStart { ts, key, pos })
    }
}

/// The unmerge start a line holds: a `=== Unmerging...` line whose word 2, without its first
/// and last bytes, is the atom.
pub open spec fn unmergestart_spec(enabled: bool, ts: i64, line: Seq<char>, f: FilterPkg) -> Option<
    Event,
> {
    if enabled && starts_with(encode_utf8(line), ascii("=== Unmerging..."@)) && words(line, true).len()
        > 2 {
        let b = encode_utf8(words(line, true)[2]);
        unmerge_event(false, ts, b.subrange(1, b.len() - 1), f)
    } else {
        None
    }
}

/// The atom word of an unmerge start has at least two bytes, and character boundaries after
/// the first and before the last.
pub open spec fn unmergestart_ok(enabled: bool, line: Seq<char>) -> bool {
    enabled && starts_with(encode_utf8(line), ascii("=== Unmerging..."@)) && words(line, true).len()
        > 2 ==> ({
        let b = encode_utf8(words(line, true)[2]);
        b.len() >= 2 && is_char_boundary(b, 1) && is_char_boundary(b, b.len() - 1)
    })
}

fn unmergestart_checked(enabled: bool, ts: i64, line: &str, filter: &FilterPkg) -> (r: Option<
    Option<Hist>,
>)
    ensures
        r is None <==> !unmergestart_ok(enabled, line@),
        r matches Some(h) ==> opt_event(h) == unmergestart_spec(enabled, ts, line@, *filter),
        r matches Some(Some(h)) ==> h.wf(),
{
    proof {
        reveal_strlit("=== Unmerging...");
    }
    if !enabled || !bytes_starts_with(line.as_bytes(), tag("=== Unmerging...")) {
        return Some(None);
    }
    let w = split_words(line, true);
    if w.len() <= 2 {
        return Some(None);
    }
    let t3 = w[2].as_str();
    assert(t3@ == views(w@)[2]);
    let tb = t3.as_bytes();
    let n = tb.len();
    if n < 2 {
        return None;
    }
    proof {
        is_char_boundary_iff_not_is_continuation_byte(tb@, 1);
        is_char_boundary_iff_not_is_continuation_byte(tb@, n - 1);
    }
    if 128u8 <= tb[1] && tb[1] < 192u8 {
        return None;
    }
    if 128u8 <= tb[n - 1] && tb[n - 1] < 192u8 {
        return None;
    }
    let atom = str_slice(t3, 1, n - 1);
    Some(unmerge_atom(false, ts, atom, filter))
}

/// Reads an unmerge start (`=== Unmerging... (categ/name-version)`).
pub fn parse_unmergestart(enabled: bool, ts: i64, line: &str, filter: &FilterPkg) -> (r: Option<Hist>)
    requires
        unmergestart_ok(enabled, line@),
    ensures
        opt_event(r) == unmergestart_spec(enabled, ts, line@, *filter),
        r matches Some(h) ==> h.wf(),
{
    match unmergestart_checked(enabled, ts, line, filter) {
        Some(r) => r,
        None => None,
    }
}

/// The unmerge stop a line holds: a `>>> unmerge success` line whose word 3 is the atom.
pub open spec fn unmergestop_spec(enabled: bool, ts: i64, line: Seq<char>, f: FilterPkg) -> Option<
    Event,
> {
    if enabled && starts_with(encode_utf8(line), ascii(">>> unmerge success"@)) && words(
        line,
        true,
    ).len() > 3 {
        unmerge_event(true, ts, encode_utf8(words(line, true)[3]), f)
    } else {
        None
    }
}

/// Reads an unmerge stop (`>>> unmerge success: categ/name-version`).
pub fn parse_unmergestop(enabled: bool, ts: i64, line: &str, filter: &FilterPkg) -> (r: Option<Hist>)
    ensures
        opt_event(r) == unmergestop_spec(enabled, ts, line@, *filter),
        r matches Some(h) ==> h.wf(),
{
    proof {
        reveal_strlit(">>> unmerge success");
    }
    if !enabled || !bytes_starts_with(line.as_bytes(), tag(">>> unmerge success")) {
        return None;
    }
    let w = split_words(line, true);
    if w.len() <= 3 {
        return None;
    }
    assert(w[3]@ == views(w@)[3]);
    unmerge_atom(true, ts, w[3].as_str(), filter)
}

/// The sync start a line holds: exactly `=== sync`.
pub open spec fn syncstart_spec(enabled: bool, ts: i64, line: Seq<char>) -> Option<Event> {
    if enabled && line == "=== sync"@ {
        Some(Event::SyncStart { ts })
    } else {
        None
    }
}

/// Reads a sync start.
pub fn parse_syncstart(enabled: bool, ts: i64, line: &str) -> (r: Option<Hist>)
    ensures
        opt_event(r) == syncstart_spec(enabled, ts, line@),
{
    if !enabled || !crate::text::str_eq(line, "=== sync") {
        return None;
    }
    Some(Hist::SyncStart { ts })
}

/// The sync stop a line holds: one that starts with `=== Sync completed` (older portage writes
/// `completed with <source>`, newer `completed for <destination>`).
pub open spec fn syncstop_spec(enabled: bool, ts: i64, line: Seq<char>) -> Option<Event> {
    if enabled && starts_with(encode_utf8(line), ascii("=== Sync completed"@)) {
        Some(Event::SyncStop { ts })
    } else {
        None
    }
}

/// Reads a sync stop.
pub fn parse_syncstop(enabled: bool, ts: i64, line: &str) -> (r: Option<Hist>)
    ensures
        opt_event(r) == syncstop_spec(enabled, ts, line@),
{
    proof {
        reveal_strlit("=== Sync completed");
    }
    if !enabled || !bytes_starts_with(line.as_bytes(), tag("=== Sync completed")) {
        return None;
    }
    Some(Hist::SyncStop { ts })
}

/// The event a line's text holds: the first of merge start, merge stop, unmerge start, unmerge
/// stop, sync start and sync stop that reads it.
pub open spec fn event_spec(
    merge: bool,
    unmerge: bool,
    sync: bool,
    ts: i64,
    s: Seq<char>,
    f: FilterPkg,
) -> Option<Event> {
    if start_spec(merge, ts, s, f) is Some {
        start_spec(merge, ts, s, f)
    } else if stop_spec(merge, ts, s, f) is Some {
        stop_spec(merge, ts, s, f)
    } else if unmergestart_spec(unmerge, ts, s, f) is Some {
        unmergestart_spec(unmerge, ts, s, f)
    } else if unmergestop_spec(unmerge, ts, s, f) is Some {
        unmergestop_spec(unmerge, ts, s, f)
    } else if syncstart_spec(sync, ts, s) is Some {
        syncstart_spec(sync, ts, s)
    } else {
        syncstop_spec(sync, ts, s)
    }
}

/// Every reader that is tried on the text can read it.
pub open spec fn event_ok(merge: bool, unmerge: bool, s: Seq<char>, f: FilterPkg) -> bool {
    &&& start_ok(merge, s, f)
    &&& start_spec(merge, 0, s, f) is None ==> stop_ok(merge, s, f)
    &&& start_spec(merge, 0, s, f) is None && stop_spec(merge, 0, s, f) is None ==> unmergestart_ok(
        unmerge,
        s,
    )
}

/// Whether a reader reports an event does not depend on the timestamp.
proof fn lemma_found_any_ts(merge: bool, ts: i64, s: Seq<char>, f: FilterPkg)
    ensures
        start_spec(merge, ts, s, f) is Some <==> start_spec(merge, 0, s, f) is Some,
        stop_spec(merge, ts, s, f) is Some <==> stop_spec(merge, 0, s, f) is Some,
{
}

/// Whether `parse_event` can read the text `s`.
pub fn event_fits(merge: bool, unmerge: bool, s: &str, filter: &FilterPkg) -> (r: bool)
    ensures
        r == event_ok(merge, unmerge, s@, *filter),
{
    let a = match start_checked(merge, 0, s, filter) {
        Some(a) => a,
        None => return false,
    };
    if a.is_some() {
        return true;
    }
    let b = match stop_checked(merge, 0, s, filter) {
        Some(b) => b,
        None => return false,
    };
    if b.is_some() {
        return true;
    }
    unmergestart_checked(unmerge, 0, s, filter).is_some()
}

/// Reads the event in the text of a line, trying each kind of event in turn.
pub fn parse_event(
    merge: bool,
    unmerge: bool,
    sync: bool,
    ts: i64,
    s: &str,
    filter: &FilterPkg,
) -> (r: Option<Hist>)
    requires
        event_ok(merge, unmerge, s@, *filter),
    ensures
        opt_event(r) == event_spec(merge, unmerge, sync, ts, s@, *filter),
        r matches Some(h) ==> h.wf(),
{
    proof {
        lemma_found_any_ts(merge, ts, s@, *filter);
    }
    if let Some(h) = parse_start(merge, ts, s, filter) {
        return Some(h);
    }
    if let Some(h) = parse_stop(merge, ts, s, filter) {
        return Some(h);
    }
    if let Some(h) = parse_unmergestart(unmerge, ts, s, filter) {
        return Some(h);
    }
    if let Some(h) = parse_unmergestop(unmerge, ts, s, filter) {
        return Some(h);
    }
    if let Some(h) = parse_syncstart(sync, ts, s) {
        return Some(h);
    }
    parse_syncstop(sync, ts, s)
}

/// The event a log line holds, after its timestamp passes the filter.
pub open spec fn line_spec(
    line: Seq<u8>,
    tsf: TsFilter,
    merge: bool,
    unmerge: bool,
    sync: bool,
    f: FilterPkg,
) -> Option<Event> {
    match ts_split(line, tsf) {
        Some((t, s)) => event_spec(merge, unmerge, sync, t, s, f),
        None => None,
    }
}

/// The line can be read: its timestamp and then its text.
pub open spec fn line_ok(line: Seq<u8>, tsf: TsFilter, merge: bool, unmerge: bool, f: FilterPkg) -> bool {
    &&& ts_split_ok(line, tsf)
    &&& ts_split(line, tsf) matches Some((t, s)) ==> event_ok(merge, unmerge, s, f)
}

/// Reads one log line: `None` for a line that cannot be read (see `line_ok`), else the event it
/// holds, if any.
pub fn hist_line(
    line: &str,
    tsf: &TsFilter,
    merge: bool,
    unmerge: bool,
    sync: bool,
    filter: &FilterPkg,
) -> (r: Option<Option<Hist>>)
    ensures
        r is None <==> !line_ok(line.spec_bytes(), *tsf, merge, unmerge, *filter),
        r matches Some(h) ==> opt_event(h) == line_spec(
            line.spec_bytes(),
            *tsf,
            merge,
            unmerge,
            sync,
            *filter,
        ),
        r matches Some(Some(h)) ==> h.wf(),
{
    if !ts_line_ok(line, tsf) {
        return None;
    }
    let (t, s) = match parse_ts(line, tsf) {
        Some(x) => x,
        None => return Some(None),
    };
    if !event_fits(merge, unmerge, s, filter) {
        return None;
    }
    Some(parse_event(merge, unmerge, sync, t, s, filter))
}

/// A package that `emerge --pretend` output lists.
#[derive(Debug)]
pub struct Pretend {
    pub ebuild: String,
    pub version: String,
}

/// The length of the run at `i` of characters that may follow the first digit of a version:
/// ASCII digits, lowercase letters, `.`, `_` and `-`.
pub open spec fn version_run(s: Seq<char>, i: int) -> nat
    decreases s.len() - i,
{
    if 0 <= i < s.len() && (('0' <= s[i] <= '9') || ('a' <= s[i] <= 'z') || s[i] == '.' || s[i]
        == '_' || s[i] == '-') {
        1 + version_run(s, i + 1)
    } else {
        0
    }
}

/// The first `i` at or after `i` where `s[i]` is a `-` followed by an ASCII digit, such that
/// `s[from..i]` holds no newline; `i > from` throughout.
pub open spec fn lazy_dash(s: Seq<char>, from: int, i: int) -> Option<int>
    decreases s.len() - i,
{
    if i <= from || i >= s.len() {
        None
    } else if s[i - 1] == '\n' {
        None
    } else if s[i] == '-' && i + 1 < s.len() && '0' <= s[i + 1] <= '9' {
        Some(i)
    } else {
        lazy_dash(s, from, i + 1)
    }
}

/// What `^\[ebuild[^]]+\] (.+?)-([0-9][0-9a-z._-]*)` captures in a line: after `[ebuild`, at
/// least one character and the first `]`, then a space, the shortest run of characters other
/// than a newline that a dash and a digit follow (the package), and the version that starts at
/// that digit.
pub open spec fn old_pretend_match(line: Seq<char>) -> Option<(Seq<char>, Seq<char>)> {
    if line.len() > 7 && line.take(7) == "[ebuild"@ && line[7] != ']' {
        match char_pos_from(line, ']', 7) {
            Some(c) => if c + 1 < line.len() && line[c + 1] == ' ' {
                match lazy_dash(line, c + 2, c + 3) {
                    Some(d) => Some(
                        (
                            line.subrange(c + 2, d),
                            line.subrange(d + 1, d + 2 + version_run(line, d + 2)),
                        ),
                    ),
                    None => None,
                }
            } else {
                None
            },
            None => None,
        }
    } else {
        None
    }
}

/// The pattern that finds packages in `emerge --pretend` output, for the first reader.
pub open spec fn old_pretend_pattern() -> Seq<char> {
    "^\\[ebuild[^]]+\\] (.+?)-([0-9][0-9a-z._-]*)"@
}

/// The regex that finds packages in `emerge --pretend` output, for the first reader.
pub struct PretendRe {
    re: PlainRegex,
}

impl PretendRe {
    /// The pattern this regex was built from.
    pub closed spec fn pattern(&self) -> Seq<char> {
        self.re.pattern()
    }

    /// The regex, compiled once for a whole output; `None` if the pattern does not compile.
    pub fn new() -> (r: Option<Self>)
        ensures
            r is Some <==> regex_compiles(old_pretend_pattern()),
            r matches Some(x) ==> x.pattern() == old_pretend_pattern(),
    {
        match regex_new("^\\[ebuild[^]]+\\] (.+?)-([0-9][0-9a-z._-]*)") {
            Ok(re) => Some(PretendRe { re }),
            Err(_) => None,
        }
    }
}

/// `Regex::captures` with the pretend-output pattern: the package and the version, when the line
/// matches.
#[verifier::external_body]
fn old_pretend_captures(re: &PretendRe, line: &str) -> (r: Option<(String, String)>)
    requires
        re.pattern() == old_pretend_pattern(),
    ensures
        match r {
            Some((e, v)) => old_pretend_match(line@) == Some((e@, v@)),
            None => old_pretend_match(line@) is None,
        },
{
    let c = re.re.re.captures(line)?;
    Some((c[1].to_string(), c[2].to_string()))
}

/// Reads one line of `emerge --pretend` output.
pub fn parse_pretend(line: &str, re: &PretendRe) -> (r: Option<Pretend>)
    requires
        re.pattern() == old_pretend_pattern(),
    ensures
        match r {
            Some(p) => old_pretend_match(line@) == Some((p.ebuild@, p.version@)),
            None => old_pretend_match(line@) is None,
        },
{
    let (ebuild, version) = old_pretend_captures(re, line)?;
    Some(Pretend { ebuild, version })
}

impl Event {
    /// The timestamp of the event.
    pub open spec fn ts(self) -> i64 {
        match self {
            Event::MergeStart { ts, .. } | Event::MergeStop { ts, .. } | Event::UnmergeStart {
                ts,
                ..
            } | Event::UnmergeStop { ts, .. } | Event::SyncStart { ts } | Event::SyncStop { ts } => ts,
        }
    }

    /// Whether reading this kind of event was asked for.
    pub open spec fn enabled(self, merge: bool, unmerge: bool, sync: bool) -> bool {
        match self {
            Event::MergeStart { .. } | Event::MergeStop { .. } => merge,
            Event::UnmergeStart { .. } | Event::UnmergeStop { .. } => unmerge,
            Event::SyncStart { .. } | Event::SyncStop { .. } => sync,
        }
    }

    /// The `categ/name` a merge or unmerge names: its key up to the dash before the version.
    pub open spec fn ebuild(self) -> Option<Seq<char>> {
        match self {
            Event::MergeStart { key, pos1, .. } | Event::MergeStop { key, pos1, .. } => Some(
                decode_utf8(encode_utf8(key).take(pos1 - 1)),
            ),
            Event::UnmergeStart { key, pos, .. } | Event::UnmergeStop { key, pos, .. } => Some(
                decode_utf8(encode_utf8(key).take(pos - 1)),
            ),
            _ => None,
        }
    }
}

/// The package part of a merge key is the package part of its atom.
proof fn lemma_merge_ebuild(a: Seq<char>, more: Seq<char>, d: int)
    requires
        0 <= d < encode_utf8(a).len(),
    ensures
        decode_utf8(encode_utf8(a + more).take(d)) == ebuild_of(a, d),
{
    lemma_encode_concat(a, more);
    assert(encode_utf8(a + more).take(d) =~= encode_utf8(a).take(d));
}

/// What a merge reader reports respects the filter.
proof fn lemma_merge_selects(
    stop: bool,
    ts: i64,
    w: Seq<Seq<char>>,
    pi: int,
    ci: int,
    ai: int,
    f: FilterPkg,
)
    requires
        0 <= pi < ai,
        0 <= ci < ai,
        merge_event(stop, ts, w, pi, ci, ai, f) is Some,
    ensures
        ({
            let e = merge_event(stop, ts, w, pi, ci, ai, f)->0;
            &&& e.ts() == ts
            &&& (e is MergeStart || e is MergeStop)
            &&& f.accepts(e.ebuild()->0)
        }),
{
    let d = atom_dash_from(encode_utf8(w[ai]), 0)->0;
    lemma_atom_dash_from(encode_utf8(w[ai]), 0);
    lemma_merge_ebuild(w[ai], w[ci] + w[pi].drop_first(), d);
    assert(w[ai] + w[ci] + w[pi].drop_first() =~= w[ai] + (w[ci] + w[pi].drop_first()));
}

/// What an unmerge reader reports respects the filter.
proof fn lemma_unmerge_selects(stop: bool, ts: i64, a: Seq<u8>, f: FilterPkg)
    requires
        valid_utf8(a),
        unmerge_event(stop, ts, a, f) is Some,
    ensures
        ({
            let e = unmerge_event(stop, ts, a, f)->0;
            &&& e.ts() == ts
            &&& (e is UnmergeStart || e is UnmergeStop)
            &&& f.accepts(e.ebuild()->0)
        }),
{
    lemma_atom_dash_from(a, 0);
    decode_utf8_encode_utf8(a);
}

/// Every event that the first log reader finds in a line has a timestamp that the timestamp
/// filter keeps, is of a kind that was asked for, and, for a merge or an unmerge, names a package
/// that the package filter keeps.
pub proof fn lemma_old_line_selects(
    line: Seq<u8>,
    tsf: TsFilter,
    merge: bool,
    unmerge: bool,
    sync: bool,
    f: FilterPkg,
)
    requires
        line_ok(line, tsf, merge, unmerge, f),
        line_spec(line, tsf, merge, unmerge, sync, f) is Some,
    ensures
        ({
            let e = line_spec(line, tsf, merge, unmerge, sync, f)->0;
            &&& tsf.accepts(e.ts())
            &&& e.enabled(merge, unmerge, sync)
            &&& (e.ebuild() matches Some(p) ==> f.accepts(p))
        }),
{
    let (t, s) = ts_split(line, tsf)->0;
    let w = words(s, true);
    lemma_found_any_ts(merge, t, s, f);
    if start_spec(merge, t, s, f) is Some {
        lemma_merge_selects(false, t, w, 2, 4, 5, f);
    } else if stop_spec(merge, t, s, f) is Some {
        lemma_merge_selects(true, t, w, 3, 5, 6, f);
    } else if unmergestart_spec(unmerge, t, s, f) is Some {
        let b = encode_utf8(w[2]);
        assert(unmergestart_ok(unmerge, s));
        lemma_encode_valid_sub(w[2]);
        lemma_unmerge_selects(false, t, b.subrange(1, b.len() - 1), f);
    } else if unmergestop_spec(unmerge, t, s, f) is Some {
        lemma_unmerge_selects(true, t, encode_utf8(w[3]), f);
    }
}

/// Cutting the first and last bytes off a word whose encoding has character boundaries there
/// leaves valid UTF-8.
proof fn lemma_encode_valid_sub(c: Seq<char>)
    requires
        encode_utf8(c).len() >= 2,
        is_char_boundary(encode_utf8(c), 1),
        is_char_boundary(encode_utf8(c), encode_utf8(c).len() - 1),
    ensures
        valid_utf8(encode_utf8(c).subrange(1, encode_utf8(c).len() - 1)),
{
    let b = encode_utf8(c);
    let n = b.len() as int;
    valid_utf8_split(b, n - 1);
    let u = b.subrange(0, n - 1);
    is_char_boundary_start_end_of_seq(u);
    if n - 1 > 1 {
        is_char_boundary_iff_not_is_continuation_byte(b, 1);
        is_char_boundary_iff_not_is_continuation_byte(u, 1);
    }
    valid_utf8_split(u, 1);
    assert(u.subrange(1, n - 1) =~= b.subrange(1, n - 1));
}

} // verus!
