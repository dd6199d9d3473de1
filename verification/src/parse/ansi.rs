//! Ansi escape handling: stripping styles from build logs, measuring visible text.
use crate::config::types::{err_new, ArgError, ArgErrorView};
use crate::text::{
    char_is_whitespace, chars_vec, first_pos, is_unicode_ws, leak_string, push_char, push_str,
    split_once_char, split_words, str_eq, trim, trim_bounds, views, words,
};
use vstd::string::StringSliceAdditionalSpecFns;
use vstd::utf8::encode_utf8;
use vstd::prelude::*;

verus! {

/// Simple Ansi escape parser, sufficient to strip text styling.
///
/// More exotic escapes (that shouldn't comme up in build.log) will cause the rest of the string to
/// be interpreted as a sequence, and stripped.
#[derive(Clone, Copy, Debug, PartialEq, Eq, Structural)]
pub enum Ansi {
    /// Normal text
    Txt,
    /// Entered escape sequence
    Esc,
    /// Control Sequence Introducer, includes text styling and cursor control
    EscCSI,
    /// Unimplemented escape type, this variant is a dead-end
    EscUnsupported,
    /// Finished the escape sequence, but not Txt yet
    EscEnd,
}

/// The state after reading `c` in state `s`.
pub open spec fn step_spec(s: Ansi, c: char) -> Ansi {
    match s {
        Ansi::Txt | Ansi::EscEnd => {
            if c == '\x1B' {
                Ansi::Esc
            } else if ' ' > c {
                Ansi::EscEnd
            } else {
                Ansi::Txt
            }
        },
        Ansi::Esc => {
            if c == '[' {
                Ansi::EscCSI
            } else if c == '7' || c == '8' || c == '\n' || c == '\x0C' || c == '\r' {
                Ansi::EscEnd
            } else {
                Ansi::EscUnsupported
            }
        },
        Ansi::EscCSI => {
            if '@' <= c <= '~' {
                Ansi::EscEnd
            } else {
                Ansi::EscCSI
            }
        },
        Ansi::EscUnsupported => Ansi::EscUnsupported,
    }
}

/// The number of characters of `s` read in the `Txt` state, starting in state `st`.
pub open spec fn visible_from(st: Ansi, s: Seq<char>) -> nat
    decreases s.len(),
{
    if s.len() == 0 {
        0
    } else {
        let n = step_spec(st, s[0]);
        (if n == Ansi::Txt { 1nat } else { 0nat }) + visible_from(n, s.drop_first())
    }
}

/// The bytes of `s` read one by one as characters.
pub open spec fn latin1(s: Seq<u8>) -> Seq<char> {
    s.map_values(|b: u8| b as char)
}

impl Ansi {
    fn step(&mut self, c: char)
        ensures
            *final(self) == step_spec(*old(self), c),
    {
        *self = match *self {
            Ansi::Txt | Ansi::EscEnd => {
                if c == '\x1B' {
                    Ansi::Esc
                } else if ' ' > c {
                    Ansi::EscEnd
                } else {
                    Ansi::Txt
                }
            },
            Ansi::Esc => {
                if c == '[' {
                    Ansi::EscCSI
                } else if c == '7' || c == '8' || c == '\n' || c == '\x0C' || c == '\r' {
                    Ansi::EscEnd
                } else {
                    Ansi::EscUnsupported
                }
            },
            Ansi::EscCSI => {
                if '@' <= c && c <= '~' {
                    Ansi::EscEnd
                } else {
                    Ansi::EscCSI
                }
            },
            Ansi::EscUnsupported => Ansi::EscUnsupported,
        };
    }

    /// Visible length of `s`: the number of bytes outside escape sequences.
    pub fn len(s: &[u8]) -> (r: usize)
        ensures
            r == visible_from(Ansi::Txt, latin1(s@)),
    {
        let ghost cs = latin1(s@);
        let mut len: usize = 0;
        let mut state = Ansi::Txt;
        let mut i: usize = 0;
        assert(cs.skip(0) =~= cs);
        while i < s.len()
            invariant
                i <= s@.len(),
                cs == latin1(s@),
                cs.len() == s@.len(),
                len <= i,
                visible_from(Ansi::Txt, cs) == len + visible_from(state, cs.skip(i as int)),
            decreases s@.len() - i,
        {
            assert(cs.skip(i as int).drop_first() =~= cs.skip(i + 1));
            assert(cs.skip(i as int)[0] == s@[i as int] as char);
            state.step(s[i] as char);
            if state == Ansi::Txt {
                len += 1;
            }
            i += 1;
        }
        assert(cs.skip(i as int).len() == 0);
        len
    }
}


/// What `strip` builds from the characters `cs`, in state `st`, having kept `out` so far.
pub open spec fn strip_from(cs: Seq<char>, st: Ansi, out: Seq<char>, max: usize) -> Seq<char>
    decreases cs.len(),
{
    if cs.len() == 0 {
        out
    } else {
        let n = step_spec(st, cs[0]);
        if n == Ansi::Txt {
            let out2 = if out.len() > 0 || !is_unicode_ws(cs[0]) { out.push(cs[0]) } else { out };
            if encode_utf8(out2).len() as usize >= max {
                out2 + "..."@
            } else {
                strip_from(cs.drop_first(), n, out2, max)
            }
        } else {
            strip_from(cs.drop_first(), n, out, max)
        }
    }
}

impl Ansi {
    /// The visible text of `s`, trimmed, without escapes nor leading whitespace, cut with `...`
    /// once it reaches `max` bytes.
    pub fn strip(s: &str, max: usize) -> (r: String)
        ensures
            r@ == strip_from(trim(s@), Ansi::Txt, Seq::empty(), max),
    {
        let v = chars_vec(s);
        let (lo, hi) = trim_bounds(&v);
        let ghost cs = trim(s@);
        let mut out = String::new();
        let mut state = Ansi::Txt;
        let mut i = lo;
        assert(cs.skip(0) =~= cs);
        while i < hi
            invariant
                lo <= i <= hi <= v@.len(),
                cs == v@.subrange(lo as int, hi as int),
                cs == trim(s@),
                strip_from(cs, Ansi::Txt, Seq::empty(), max) == strip_from(
                    cs.skip(i - lo),
                    state,
                    out@,
                    max,
                ),
            decreases hi - i,
        {
            let c = v[i];
            let ghost rest = cs.skip(i - lo);
            let ghost st0 = state;
            let ghost out0 = out@;
            assert(rest.drop_first() =~= cs.skip(i + 1 - lo));
            assert(rest.len() > 0);
            assert(rest[0] == c);
            state.step(c);
            if state == Ansi::Txt {
                if !out.as_str().is_empty() || !char_is_whitespace(c) {
                    push_char(&mut out, c);
                }
                assert(out@ == (if out0.len() > 0 || !is_unicode_ws(c) { out0.push(c) } else { out0 }));
                if out.as_str().len() >= max {
                    push_str(&mut out, "...");
                    assert(strip_from(rest, st0, out0, max) == out@);
                    return out;
                }
            }
            assert(strip_from(rest, st0, out0, max) == strip_from(
                cs.skip(i + 1 - lo),
                state,
                out@,
                max,
            ));
            i += 1;
        }
        assert(cs.skip(i - lo).len() == 0);
        out
    }
}

/// A `&str` containing non-displayable ansi control chars, with its visible length.
pub struct AnsiStr {
    pub val: &'static str,
    /// Visible len excluding control chars
    pub len: usize,
}

impl AnsiStr {
    /// Wraps `val`, measuring its visible length.
    pub fn from(val: &'static str) -> (r: Self)
        ensures
            r.val == val,
            r.len == visible_from(Ansi::Txt, latin1(val.spec_bytes())),
    {
        Self { val, len: Ansi::len(val.as_bytes()) }
    }
}


/// Struct to hold themable colors
///
/// They are parsed at runtime, but leaked to simplify lifetimes for downstream.
pub struct Theme {
    pub merge: &'static str,
    pub binmerge: &'static str,
    pub unmerge: &'static str,
    pub sync: &'static str,
    pub duration: &'static str,
    pub count: &'static str,
    pub qmark: &'static str,
    pub skip: &'static str,
}

/// The colors of a theme, as character sequences.
#[verifier::ext_equal]
pub struct ThemeView {
    pub merge: Seq<char>,
    pub binmerge: Seq<char>,
    pub unmerge: Seq<char>,
    pub sync: Seq<char>,
    pub duration: Seq<char>,
    pub count: Seq<char>,
    pub qmark: Seq<char>,
    pub skip: Seq<char>,
}

impl View for Theme {
    type V = ThemeView;

    open spec fn view(&self) -> ThemeView {
        ThemeView {
            merge: self.merge@,
            binmerge: self.binmerge@,
            unmerge: self.unmerge@,
            sync: self.sync@,
            duration: self.duration@,
            count: self.count@,
            qmark: self.qmark@,
            skip: self.skip@,
        }
    }
}

/// The default colors.
pub open spec fn default_theme() -> ThemeView {
    ThemeView {
        merge: "\x1B[1;32m"@,
        binmerge: "\x1B[0;32m"@,
        unmerge: "\x1B[1;31m"@,
        sync: "\x1B[1;36m"@,
        duration: "\x1B[1;35m"@,
        count: "\x1B[0;33m"@,
        qmark: "\x1B[0m"@,
        skip: "\x1B[3;37m"@,
    }
}

/// Characters allowed in an SGR parameter list.
pub open spec fn is_sgr_char(c: char) -> bool {
    ('0' <= c <= '9') || c == ';'
}

/// The theme with the color of `key` replaced, if `key` names one.
pub open spec fn set_color(t: ThemeView, key: Seq<char>, val: Seq<char>) -> Option<ThemeView> {
    if key == "merge"@ {
        Some(ThemeView { merge: val, ..t })
    } else if key == "binmerge"@ {
        Some(ThemeView { binmerge: val, ..t })
    } else if key == "unmerge"@ {
        Some(ThemeView { unmerge: val, ..t })
    } else if key == "sync"@ {
        Some(ThemeView { sync: val, ..t })
    } else if key == "duration"@ {
        Some(ThemeView { duration: val, ..t })
    } else if key == "count"@ {
        Some(ThemeView { count: val, ..t })
    } else if key == "qmark"@ {
        Some(ThemeView { qmark: val, ..t })
    } else if key == "skip"@ {
        Some(ThemeView { skip: val, ..t })
    } else {
        None
    }
}

/// Applies the `<key>:<SGR>` items `kvs` in order, stopping at the first bad one.
pub open spec fn apply_colors(t: ThemeView, kvs: Seq<Seq<char>>, src: Seq<char>) -> Result<
    ThemeView,
    ArgErrorView,
>
    decreases kvs.len(),
{
    if kvs.len() == 0 {
        Ok(t)
    } else {
        let kv = kvs[0];
        if !kv.contains(':') {
            Err(ArgErrorView { msg: "Expected <key>:<SGR>"@, ..err_new(kv, src) })
        } else {
            let k = kv.take(first_pos(kv, ':'));
            let v = kv.skip(first_pos(kv, ':') + 1);
            if exists|i: int| 0 <= i < v.len() && !is_sgr_char(#[trigger] v[i]) {
                Err(ArgErrorView { msg: "Unexpected chars in Ansi SGR sequence"@, ..err_new(kv, src) })
            } else {
                match set_color(t, k, "\x1B["@ + v + "m"@) {
                    Some(t2) => apply_colors(t2, kvs.drop_first(), src),
                    None => Err(
                        ArgErrorView {
                            msg: "Unexpected key"@,
                            possible: "merge binmerge unmerge sync duration count qmark skip"@,
                            ..err_new(kv, src)
                        },
                    ),
                }
            }
        }
    }
}

/// The keys that name a color of the theme.
pub open spec fn color_key(k: Seq<char>) -> bool {
    k == "merge"@ || k == "binmerge"@ || k == "unmerge"@ || k == "sync"@ || k == "duration"@
        || k == "count"@ || k == "qmark"@ || k == "skip"@
}

/// An item that a theme refuses: it has no `:`, or after its first `:` comes a character
/// other than a digit or `;`, or before it stands no color's key.
pub open spec fn bad_color_item(kv: Seq<char>) -> bool {
    !kv.contains(':') || (exists|i: int|
        0 <= i < kv.skip(first_pos(kv, ':') + 1).len() && !is_sgr_char(
            #[trigger] kv.skip(first_pos(kv, ':') + 1)[i],
        )) || !color_key(kv.take(first_pos(kv, ':')))
}

/// A list of color items, such as the words that `Theme::update` reads, fails exactly when one
/// of its items is bad.
pub proof fn lemma_colors_fail(t: ThemeView, kvs: Seq<Seq<char>>, src: Seq<char>)
    ensures
        apply_colors(t, kvs, src) is Err <==> exists|i: int|
            0 <= i < kvs.len() && bad_color_item(#[trigger] kvs[i]),
    decreases kvs.len(),
{
    if kvs.len() > 0 {
        let kv = kvs[0];
        if bad_color_item(kv) {
        } else {
            let k = kv.take(first_pos(kv, ':'));
            let v = kv.skip(first_pos(kv, ':') + 1);
            let t2 = set_color(t, k, "\x1B["@ + v + "m"@).unwrap();
            lemma_colors_fail(t2, kvs.drop_first(), src);
            if exists|i: int| 0 <= i < kvs.len() && bad_color_item(#[trigger] kvs[i]) {
                let i = choose|i: int| 0 <= i < kvs.len() && bad_color_item(#[trigger] kvs[i]);
                assert(i > 0);
                assert(kvs.drop_first()[i - 1] == kvs[i]);
            }
            if exists|i: int|
                0 <= i < kvs.drop_first().len() && bad_color_item(#[trigger] kvs.drop_first()[i]) {
                let i = choose|i: int|
                    0 <= i < kvs.drop_first().len() && bad_color_item(
                        #[trigger] kvs.drop_first()[i],
                    );
                assert(kvs[i + 1] == kvs.drop_first()[i]);
            }
        }
    }
}

fn all_sgr(v: &str) -> (r: bool)
    ensures
        r == forall|i: int| 0 <= i < v@.len() ==> is_sgr_char(#[trigger] v@[i]),
{
    let vc = chars_vec(v);
    let mut j: usize = 0;
    while j < vc.len()
        invariant
            j <= vc@.len(),
            vc@ == v@,
            forall|m: int| 0 <= m < j ==> is_sgr_char(#[trigger] vc@[m]),
        decreases vc@.len() - j,
    {
        let ch = vc[j];
        if !(('0' <= ch && ch <= '9') || ch == ';') {
            assert(!is_sgr_char(v@[j as int]));
            return false;
        }
        j += 1;
    }
    true
}

impl Theme {
    pub fn new() -> (r: Self)
        ensures
            r@ == default_theme(),
    {
        Self {
            merge: "\x1B[1;32m",
            binmerge: "\x1B[0;32m",
            unmerge: "\x1B[1;31m",
            sync: "\x1B[1;36m",
            duration: "\x1B[1;35m",
            count: "\x1B[0;33m",
            qmark: "\x1B[0m",
            skip: "\x1B[3;37m",
        }
    }

    /// Parse "(<field>:<SGR> )+" string to update Self's fields
    ///
    /// <Field> must match a known set, and <SGR> is just checked for valid chars
    pub fn update(self, kvs: Option<&String>, src: &'static str) -> (r: Result<Self, ArgError>)
        ensures
            match kvs {
                None => r matches Ok(t) && t@ == self@,
                Some(s) => match apply_colors(self@, words(s@, false), src@) {
                    Ok(tv) => r matches Ok(t) && t@ == tv,
                    Err(ev) => r matches Err(e) && e@ == ev,
                },
            },
    {
        let mut t = self;
        match kvs {
            None => Ok(t),
            Some(text) => {
                let items = split_words(text.as_str(), false);
                let ghost all = views(items@);
                let mut i: usize = 0;
                assert(all.skip(0) =~= all);
                while i < items.len()
                    invariant
                        i <= items@.len(),
                        all == views(items@),
                        all.len() == items@.len(),
                        kvs == Some(text),
                        all == words(text@, false),
                        apply_colors(self@, all, src@) == apply_colors(t@, all.skip(i as int), src@),
                    decreases items@.len() - i,
                {
                    let ghost rest = all.skip(i as int);
                    assert(rest.drop_first() =~= all.skip(i + 1));
                    let kv = items[i].as_str();
                    assert(rest[0] == kv@);
                    let (k, v) = match split_once_char(kv, ':') {
                        Some(p) => p,
                        None => {
                            return Err(ArgError::new(kv, src).msg("Expected <key>:<SGR>"));
                        },
                    };
                    if !all_sgr(v.as_str()) {
                        return Err(
                            ArgError::new(kv, src).msg("Unexpected chars in Ansi SGR sequence"),
                        );
                    }
                    let mut val = String::new();
                    push_str(&mut val, "\x1B[");
                    push_str(&mut val, v.as_str());
                    push_str(&mut val, "m");
                    let ghost t0 = t@;
                    let ks = k.as_str();
                    if str_eq(ks, "merge") {
                        t.merge = leak_string(val);
                    } else if str_eq(ks, "binmerge") {
                        t.binmerge = leak_string(val);
                    } else if str_eq(ks, "unmerge") {
                        t.unmerge = leak_string(val);
                    } else if str_eq(ks, "sync") {
                        t.sync = leak_string(val);
                    } else if str_eq(ks, "duration") {
                        t.duration = leak_string(val);
                    } else if str_eq(ks, "count") {
                        t.count = leak_string(val);
                    } else if str_eq(ks, "qmark") {
                        t.qmark = leak_string(val);
                    } else if str_eq(ks, "skip") {
                        t.skip = leak_string(val);
                    } else {
                        let p = "merge binmerge unmerge sync duration count qmark skip";
                        return Err(ArgError::new(kv, src).msg("Unexpected key").pos(p));
                    }
                    assert(set_color(t0, k@, "\x1B["@ + v@ + "m"@) == Some(t@));
                    i += 1;
                }
                assert(all.skip(i as int).len() == 0);
                Ok(t)
            },
        }
    }
}

} // verus!
