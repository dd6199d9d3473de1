//! How a process is shown in the process tree: pid, then its command line without the paths of
//! the program and its script, cut from the left to fit a width.
use crate::emerge::Proc;
use crate::text::{chars_vec, dec_int, dec_nat, push_char, push_i64, push_str, push_u64, trim, trim_bounds};
use vstd::prelude::*;
use vstd::string::*;
use vstd::utf8::encode_utf8;

verus! {

/// A character of a plain file path.
pub open spec fn path_char(c: char) -> bool {
    ('A' <= c <= 'Z') || ('a' <= c <= 'z') || ('0' <= c <= '9') || c == '.' || c == '-' || c == '/'
}

/// The index of the last `c` in `s`.
pub open spec fn last_of(s: Seq<char>, c: char) -> Option<int>
    decreases s.len(),
{
    if s.len() == 0 {
        None
    } else if s.last() == c {
        Some(s.len() - 1)
    } else {
        last_of(s.drop_last(), c)
    }
}

/// The index of the first `c` in `s`.
pub open spec fn first_of(s: Seq<char>, c: char) -> Option<int>
    decreases s.len(),
{
    if s.len() == 0 {
        None
    } else if s[0] == c {
        Some(0)
    } else {
        match first_of(s.drop_first(), c) {
            Some(i) => Some(i + 1),
            None => None,
        }
    }
}

/// Where the file name starts in something that looks like a path (only letters, digits, `.`,
/// `-` and `/`): after its last `/`.
pub open spec fn approx_filename(s: Seq<char>) -> Option<int> {
    if forall|i: int| 0 <= i < s.len() ==> path_char(#[trigger] s[i]) {
        last_of(s, '/')
    } else {
        None
    }
}

/// Where the shown command starts: after the path of the program (its first argument) and of
/// its script (its second argument), when they look like paths.
pub open spec fn cmd_start(c: Seq<char>) -> int {
    match first_of(c, '\0') {
        None => 0,
        Some(z1) => {
            let a = match approx_filename(c.take(z1)) {
                Some(f1) => f1 + 1,
                None => 0,
            };
            let rest = c.skip(z1 + 1);
            match first_of(rest, '\0') {
                Some(z2) => match approx_filename(rest.take(z2)) {
                    Some(f2) => z1 + f2 + 2,
                    None => a,
                },
                None => a,
            }
        },
    }
}

/// A control character (Unicode `Cc`), as `char::is_control` defines it.
pub open spec fn is_ctrl(c: char) -> bool {
    c <= '\x1f' || ('\x7f' <= c <= '\u{9f}')
}

/// The shown command: control characters (argument separators among them) become spaces, and
/// surrounding whitespace goes.
pub open spec fn shown_cmd(cmdline: Seq<char>) -> Seq<char> {
    trim(
        cmdline.skip(cmd_start(cmdline)).map_values(
            |c: char|
                if is_ctrl(c) {
                    ' '
                } else {
                    c
                },
        ),
    )
}

/// The longest end of `s` whose encoding takes at most `k` bytes.
pub open spec fn suffix_fit(s: Seq<char>, k: int) -> Seq<char>
    decreases s.len(),
{
    if s.len() == 0 {
        Seq::empty()
    } else {
        let l = encode_utf8(seq![s.last()]).len() as int;
        if l <= k {
            suffix_fit(s.drop_last(), k - l).push(s.last())
        } else {
            Seq::empty()
        }
    }
}

/// The width of the pid column: the digits of the pid (at least 1) and two spaces per level.
pub open spec fn pid_width(pid: i32, indent: usize) -> int {
    dec_nat((if pid < 1 {
        1
    } else {
        pid
    }) as nat).len() + 2 * indent
}

/// `n` spaces.
pub open spec fn blanks(n: int) -> Seq<char> {
    Seq::new(if n > 0 {
        n as nat
    } else {
        0
    }, |i: int| ' ')
}

/// A process as shown, and its width on screen: the pid right-aligned in its column (between
/// the `cnt` and `clr` colors), a space, then the command, or its end after `...` when it does
/// not fit in `width`.
pub open spec fn proc_text(p: Proc, indent: usize, width: usize, cnt: Seq<char>, clr: Seq<char>) -> (
    Seq<char>,
    int,
) {
    let pidlen = pid_width(p.pid, indent);
    let head = cnt + blanks(pidlen - dec_int(p.pid as int).len()) + dec_int(p.pid as int) + clr
        + " "@;
    let cmd = shown_cmd(p.cmdline@);
    let len = encode_utf8(cmd).len() as int;
    let cap = if width > pidlen + 1 {
        width - (pidlen + 1)
    } else {
        0
    };
    if cap >= len {
        (head + cmd, pidlen + 1 + len)
    } else if cap > 3 {
        (head + "..."@ + suffix_fit(cmd, cap - 3), pidlen + 1 + cap)
    } else {
        (head + "..."@, pidlen + 4)
    }
}

/// `10^k`.
pub open spec fn ten_pow(k: nat) -> nat
    decreases k,
{
    if k == 0 {
        1
    } else {
        10 * ten_pow((k - 1) as nat)
    }
}

/// A number below `10^k` has at most `k` digits.
proof fn lemma_dec_len(n: nat, k: nat)
    requires
        k >= 1,
        n < ten_pow(k),
    ensures
        dec_nat(n).len() <= k,
    decreases k,
{
    if n >= 10 && k > 1 {
        let pk = ten_pow((k - 1) as nat);
        assert(n / 10 < pk) by (nonlinear_arith)
            requires
                n < 10 * pk,
        ;
        lemma_dec_len(n / 10, (k - 1) as nat);
    } else if n >= 10 {
        assert(ten_pow(1) == 10) by {
            reveal_with_fuel(ten_pow, 2);
        }
    }
}

/// A process, its depth in the tree, and the width it may take.
pub struct FmtProc<'a>(pub &'a Proc, pub usize, pub usize);

/// The index of the first `c` in `v[from..]`, relative to `from`.
fn find_char(v: &Vec<char>, from: usize, c: char) -> (r: Option<usize>)
    requires
        from <= v@.len(),
    ensures
        match r {
            Some(i) => first_of(v@.skip(from as int), c) == Some(i as int) && from + i < v@.len(),
            None => first_of(v@.skip(from as int), c) is None,
        },
{
    let mut i = from;
    while i < v.len()
        invariant
            from <= i <= v@.len(),
            first_of(v@.skip(from as int), c) == match first_of(v@.skip(i as int), c) {
                Some(j) => Some(j + (i - from)),
                None => None,
            },
        decreases v@.len() - i,
    {
        assert(v@.skip(i as int).drop_first() =~= v@.skip(i + 1));
        if v[i] == c {
            return Some(i - from);
        }
        i += 1;
    }
    assert(v@.skip(i as int).len() == 0);
    None
}

/// Where the file name starts in `v[lo..hi]`, relative to `lo`.
fn approx_filename_in(v: &Vec<char>, lo: usize, hi: usize) -> (r: Option<usize>)
    requires
        lo <= hi <= v@.len(),
    ensures
        match r {
            Some(i) => approx_filename(v@.subrange(lo as int, hi as int)) == Some(i as int) && i < hi
                - lo,
            None => approx_filename(v@.subrange(lo as int, hi as int)) is None,
        },
{
    let ghost s = v@.subrange(lo as int, hi as int);
    let mut i = lo;
    while i < hi
        invariant
            lo <= i <= hi <= v@.len(),
            s == v@.subrange(lo as int, hi as int),
            forall|j: int| 0 <= j < i - lo ==> path_char(#[trigger] s[j]),
        decreases hi - i,
    {
        let c = v[i];
        if !(('A' <= c && c <= 'Z') || ('a' <= c && c <= 'z') || ('0' <= c && c <= '9') || c == '.'
            || c == '-' || c == '/') {
            assert(!path_char(s[i - lo]));
            return None;
        }
        i += 1;
    }
    assert(forall|j: int| 0 <= j < s.len() ==> path_char(#[trigger] s[j]));
    assert(s.take(hi - lo) =~= s);
    let mut k = hi;
    while k > lo
        invariant
            lo <= k <= hi <= v@.len(),
            s == v@.subrange(lo as int, hi as int),
            approx_filename(s) == last_of(s, '/'),
            last_of(s, '/') == last_of(s.take(k - lo), '/'),
        decreases k,
    {
        let ghost t = s.take(k - lo);
        assert(t.drop_last() =~= s.take(k - lo - 1));
        assert(t.last() == v@[k - 1]);
        if v[k - 1] == '/' {
            return Some(k - 1 - lo);
        }
        k -= 1;
    }
    assert(s.take(0) =~= Seq::<char>::empty());
    assert(s.take(hi - lo) =~= s);
    None
}

impl<'a> FmtProc<'a> {
    /// The process as shown (see [`proc_text`]), and its width on screen.
    pub fn text(&self, cnt: &str, clr: &str) -> (r: (String, usize))
        requires
            self.1 <= 1000,
            self.2 <= 100_000,
        ensures
            (r.0@, r.1 as int) == proc_text(*self.0, self.1, self.2, cnt@, clr@),
    {
        let p = self.0;
        let indent = self.1;
        let width = self.2;
        let c = chars_vec(p.cmdline.as_str());
        let n = c.len();
        // Where the command starts
        let mut start: usize = 0;
        let z1 = find_char(&c, 0, '\0');
        assert(c@.skip(0) =~= c@);
        if let Some(z1) = z1 {
            assert(z1 < n);
            assert(c@.subrange(0, z1 as int) =~= c@.take(z1 as int));
            if let Some(f1) = approx_filename_in(&c, 0, z1) {
                start = f1 + 1;
            }
            let z2 = find_char(&c, z1 + 1, '\0');
            if let Some(z2) = z2 {
                assert(z1 + 1 + z2 < n);
                assert(c@.subrange(z1 + 1, z1 + 1 + z2) =~= c@.skip(z1 + 1).take(z2 as int));
                if let Some(f2) = approx_filename_in(&c, z1 + 1, z1 + 1 + z2) {
                    start = z1 + f2 + 2;
                }
            }
        }
        assert(start as int == cmd_start(p.cmdline@));
        // The command, without control characters nor surrounding whitespace
        let ghost raw = c@.skip(start as int).map_values(
            |ch: char|
                if is_ctrl(ch) {
                    ' '
                } else {
                    ch
                },
        );
        let mut m: Vec<char> = Vec::new();
        let mut i = start;
        while i < c.len()
            invariant
                start <= i <= c@.len(),
                start as int == cmd_start(p.cmdline@),
                c@ == p.cmdline@,
                raw == c@.skip(start as int).map_values(
                    |ch: char|
                        if is_ctrl(ch) {
                            ' '
                        } else {
                            ch
                        },
                ),
                m@ == raw.take(i - start),
            decreases c@.len() - i,
        {
            let ch = c[i];
            let ctrl = ch <= '\x1f' || ('\x7f' <= ch && ch <= '\u{9f}');
            m.push(if ctrl {
                ' '
            } else {
                ch
            });
            assert(m@ =~= raw.take(i + 1 - start));
            i += 1;
        }
        assert(raw.take(c@.len() - start) =~= raw);
        let (lo, hi) = trim_bounds(&m);
        let mut cmd = String::new();
        let mut j = lo;
        while j < hi
            invariant
                lo <= j <= hi <= m@.len(),
                cmd@ == m@.subrange(lo as int, j as int),
            decreases hi - j,
        {
            push_char(&mut cmd, m[j]);
            assert(cmd@ =~= m@.subrange(lo as int, j + 1));
            j += 1;
        }
        assert(cmd@ == shown_cmd(p.cmdline@));
        // The pid column
        let q: i32 = if p.pid < 1 {
            1
        } else {
            p.pid
        };
        let mut ds = String::new();
        push_u64(&mut ds, q as u64);
        assert(ds@ =~= dec_nat(q as nat));
        proof {
            assert(ten_pow(10) == 10000000000) by {
                reveal_with_fuel(ten_pow, 11);
            }
            lemma_dec_len(q as nat, 10);
        }
        let mut pids = String::new();
        push_i64(&mut pids, p.pid as i64);
        assert(pids@ =~= dec_int(p.pid as int));
        let pidlen = ds.as_str().unicode_len() + 2 * indent;
        let mut out = String::new();
        push_str(&mut out, cnt);
        let pl = pids.as_str().unicode_len();
        let mut b: usize = 0;
        while pl + b < pidlen
            invariant
                out@ == cnt@ + blanks(b as int),
                pl + b <= pidlen || b == 0,
            decreases pidlen - pl - b,
        {
            push_char(&mut out, ' ');
            assert(blanks(b + 1) =~= blanks(b as int).push(' '));
            b += 1;
        }
        assert(blanks(b as int) =~= blanks(pidlen - pl));
        push_str(&mut out, pids.as_str());
        push_str(&mut out, clr);
        push_str(&mut out, " ");
        proof {
            reveal_strlit(" ");
            reveal_strlit("...");
        }
        let len = cmd.as_str().as_bytes().len();
        let cap = if width > pidlen + 1 {
            width - (pidlen + 1)
        } else {
            0
        };
        if cap >= len {
            push_str(&mut out, cmd.as_str());
            (out, pidlen + 1 + len)
        } else if cap > 3 {
            push_str(&mut out, "...");
            let tail = suffix_fit_of(&chars_vec(cmd.as_str()), cap - 3);
            push_str(&mut out, tail.as_str());
            (out, pidlen + 1 + cap)
        } else {
            push_str(&mut out, "...");
            (out, pidlen + 4)
        }
    }
}

/// The longest end of `v` whose encoding takes at most `k` bytes.
fn suffix_fit_of(v: &Vec<char>, k: usize) -> (r: String)
    ensures
        r@ == suffix_fit(v@, k as int),
{
    // Find where the fitting end starts, scanning from the end.
    let mut j = v.len();
    let mut left = k;
    let mut done = false;
    assert(v@.take(v@.len() as int) =~= v@);
    assert(v@.skip(v@.len() as int) =~= Seq::<char>::empty());
    assert(suffix_fit(v@, k as int) + Seq::<char>::empty() =~= suffix_fit(v@, k as int));
    while j > 0 && !done
        invariant
            j <= v@.len(),
            left <= k,
            suffix_fit(v@, k as int) == suffix_fit(v@.take(j as int), left as int) + v@.skip(
                j as int,
            ),
            done ==> suffix_fit(v@.take(j as int), left as int) == Seq::<char>::empty(),
        decreases j, (if done { 0int } else { 1int }),
    {
        let mut one = String::new();
        push_char(&mut one, v[j - 1]);
        let l = one.as_str().as_bytes().len();
        let ghost t = v@.take(j as int);
        assert(t.drop_last() =~= v@.take(j - 1));
        assert(t.last() == v@[j - 1]);
        assert(one@ == seq![v@[j - 1]]);
        if l > left {
            assert(suffix_fit(t, left as int) =~= Seq::<char>::empty());
            done = true;
        } else {
            assert(v@.skip(j - 1) =~= seq![v@[j - 1]] + v@.skip(j as int));
            left = left - l;
            j -= 1;
            assert(suffix_fit(t, (left + l) as int) =~= suffix_fit(v@.take(j as int), left as int).push(
                v@[j as int],
            ));
        }
    }
    proof {
        if j == 0 {
            assert(v@.take(0) =~= Seq::<char>::empty());
        }
        assert(suffix_fit(v@, k as int) =~= v@.skip(j as int));
    }
    let mut r = String::new();
    let mut i = j;
    while i < v.len()
        invariant
            j <= i <= v@.len(),
            r@ == v@.subrange(j as int, i as int),
        decreases v@.len() - i,
    {
        push_char(&mut r, v[i]);
        assert(r@ =~= v@.subrange(j as int, i + 1));
        i += 1;
    }
    assert(v@.subrange(j as int, v@.len() as int) =~= v@.skip(j as int));
    r
}

} // verus!
