//! Package moves: portage renames packages, and old names in the log follow the new ones.
use crate::keymap::KeyMap;
use crate::parse::current::Mtimedb;
use crate::parse::history::last_index;
use crate::text::{chars_vec, first_pos, push_char, split_once_char, str_eq, views};
use std::cmp::Ordering;
use vstd::prelude::*;

verus! {

broadcast use vstd::seq_lib::group_to_multiset_ensures;

/// The moves read so far, from old name to new name.
pub struct PkgMoves {
    moves: KeyMap<String>,
}

/// The move that a line of an update file gives: `move <from> <to>`.
pub open spec fn move_of(line: Seq<char>) -> Option<(Seq<char>, Seq<char>)> {
    if line.len() >= 5 && line.take(5) == "move "@ {
        let rest = line.skip(5);
        if rest.contains(' ') {
            Some((rest.take(first_pos(rest, ' ')), rest.skip(first_pos(rest, ' ') + 1)))
        } else {
            None
        }
    } else {
        None
    }
}

/// Adds one move, reading the files newest first: a move to a name that moved again points to
/// that name's new name (unless that loops back to the moved name); otherwise a name that
/// already moved keeps its newer move.
pub open spec fn add_move(m: Map<Seq<char>, Seq<char>>, from: Seq<char>, to: Seq<char>) -> Map<
    Seq<char>,
    Seq<char>,
> {
    if m.dom().contains(to) {
        if from != m[to] {
            m.insert(from, m[to])
        } else {
            m
        }
    } else if m.dom().contains(from) {
        m
    } else {
        m.insert(from, to)
    }
}

/// The new names of the keys of a map of strings.
pub open spec fn text_map(m: Map<Seq<char>, String>) -> Map<Seq<char>, Seq<char>> {
    Map::new(|k: Seq<char>| m.dom().contains(k), |k: Seq<char>| m[k]@)
}

impl PkgMoves {
    /// The moves, from old name to new name.
    pub closed spec fn view(&self) -> Map<Seq<char>, Seq<char>> {
        text_map(self.moves.view())
    }

    /// No move known.
    pub fn empty() -> (r: Self)
        ensures
            r.view() == Map::<Seq<char>, Seq<char>>::empty(),
    {
        let r = PkgMoves { moves: KeyMap::new() };
        assert(r.view() =~= Map::<Seq<char>, Seq<char>>::empty());
        r
    }

    /// The current name of `key`: its new name when it moved, else itself.
    pub fn get(&self, key: String) -> (r: String)
        ensures
            r@ == (if self.view().dom().contains(key@) {
                self.view()[key@]
            } else {
                key@
            }),
    {
        match self.moves.get(key.as_str()) {
            Some(v) => v.clone(),
            None => key,
        }
    }

    /// The current name of `key`, borrowed.
    pub fn get_ref<'a>(&'a self, key: &'a String) -> (r: &'a String)
        ensures
            r@ == (if self.view().dom().contains(key@) {
                self.view()[key@]
            } else {
                key@
            }),
    {
        match self.moves.get(key.as_str()) {
            Some(v) => v,
            None => key,
        }
    }

    /// Takes one line of an update file; lines other than `move` lines are ignored.
    pub fn add_line(&mut self, line: &str)
        ensures
            final(self).view() == match move_of(line@) {
                Some((from, to)) => add_move(old(self).view(), from, to),
                None => old(self).view(),
            },
    {
        let v = chars_vec(line);
        proof {
            reveal_strlit("move ");
        }
        if !(v.len() >= 5 && v[0] == 'm' && v[1] == 'o' && v[2] == 'v' && v[3] == 'e' && v[4]
            == ' ') {
            assert(move_of(line@) is None) by {
                if line@.len() >= 5 {
                    if line@.take(5) == "move "@ {
                        assert(line@[0] == line@.take(5)[0]);
                        assert(line@[1] == line@.take(5)[1]);
                        assert(line@[2] == line@.take(5)[2]);
                        assert(line@[3] == line@.take(5)[3]);
                        assert(line@[4] == line@.take(5)[4]);
                    }
                }
            }
            return;
        }
        assert(line@.take(5) =~= "move "@);
        let mut rest = String::new();
        let mut i: usize = 5;
        while i < v.len()
            invariant
                5 <= i <= v@.len(),
                v@ == line@,
                rest@ == line@.subrange(5, i as int),
            decreases v@.len() - i,
        {
            push_char(&mut rest, v[i]);
            assert(rest@ =~= line@.subrange(5, i + 1));
            i += 1;
        }
        assert(rest@ =~= line@.skip(5));
        let (from, to) = match split_once_char(rest.as_str(), ' ') {
            Some(x) => x,
            None => return,
        };
        let ghost old_view = self.view();
        let found = match self.moves.get(to.as_str()) {
            Some(f) => Some(f.clone()),
            None => None,
        };
        match found {
            Some(to_final) => {
                if !str_eq(from.as_str(), to_final.as_str()) {
                    self.moves.insert(from, to_final);
                    assert(self.view() =~= add_move(old_view, rest@.take(first_pos(rest@, ' ')), rest@.skip(first_pos(rest@, ' ') + 1)));
                }
            },
            None => {
                if !self.moves.contains(from.as_str()) {
                    self.moves.insert(from, to);
                    assert(self.view() =~= add_move(old_view, rest@.take(first_pos(rest@, ' ')), rest@.skip(first_pos(rest@, ' ') + 1)));
                }
            },
        }
    }
}

/// Byte-wise lexicographic order.
pub open spec fn lex_le(a: Seq<u8>, b: Seq<u8>) -> bool
    decreases a.len(),
{
    if a.len() == 0 {
        true
    } else if b.len() == 0 {
        false
    } else if a[0] != b[0] {
        a[0] < b[0]
    } else {
        lex_le(a.drop_first(), b.drop_first())
    }
}

/// Of two byte strings, one is ordered before the other.
pub proof fn lemma_lex_total(a: Seq<u8>, b: Seq<u8>)
    ensures
        lex_le(a, b) || lex_le(b, a),
        lex_le(a, b) && lex_le(b, a) ==> a == b,
    decreases a.len(),
{
    if a.len() > 0 && b.len() > 0 && a[0] == b[0] {
        lemma_lex_total(a.drop_first(), b.drop_first());
        if lex_le(a, b) && lex_le(b, a) {
            assert(a =~= seq![a[0]] + a.drop_first());
            assert(b =~= seq![b[0]] + b.drop_first());
        }
    }
}

/// The part of an update file path that orders it: the name after the last `/`, with a
/// `QQ-YYYY` name read as `YYYYQ`.
pub open spec fn update_key(path: Seq<u8>) -> Seq<u8> {
    let name = match last_index(path, 47) {
        Some(i) => path.skip(i + 1),
        None => path,
    };
    if name.len() == 7 && name[1] == 81 && name[2] == 45 {
        seq![name[3], name[4], name[5], name[6], name[0]]
    } else {
        name
    }
}

/// The sign of the lexicographic comparison of two byte strings.
pub open spec fn lex_sign(a: Seq<u8>, b: Seq<u8>) -> i8 {
    if a == b {
        0i8
    } else if lex_le(a, b) {
        -1i8
    } else {
        1i8
    }
}

/// The order of two update files: newest first.
pub open spec fn update_order(a: Seq<u8>, b: Seq<u8>) -> Ordering {
    let c = lex_sign(update_key(b), update_key(a));
    if c == 0 {
        Ordering::Equal
    } else if c < 0 {
        Ordering::Less
    } else {
        Ordering::Greater
    }
}

/// Compares two byte strings lexicographically: `-1`, `0` or `1`.
fn lex_compare(a: &[u8], b: &[u8]) -> (r: i8)
    ensures
        r == lex_sign(a@, b@),
{
    let mut i: usize = 0;
    assert(a@.skip(0) =~= a@);
    assert(b@.skip(0) =~= b@);
    while i < a.len() && i < b.len() && a[i] == b[i]
        invariant
            i <= a@.len(),
            i <= b@.len(),
            a@.take(i as int) == b@.take(i as int),
            lex_le(a@, b@) == lex_le(a@.skip(i as int), b@.skip(i as int)),
        decreases a@.len() - i,
    {
        assert(a@.skip(i as int).drop_first() =~= a@.skip(i + 1));
        assert(b@.skip(i as int).drop_first() =~= b@.skip(i + 1));
        assert(a@.take(i + 1) =~= a@.take(i as int).push(a@[i as int]));
        assert(b@.take(i + 1) =~= b@.take(i as int).push(b@[i as int]));
        i += 1;
    }
    if i == a.len() && i == b.len() {
        assert(a@ =~= a@.take(i as int));
        assert(b@ =~= b@.take(i as int));
        0
    } else if i == a.len() {
        assert(a@ != b@);
        -1
    } else if i == b.len() {
        assert(a@ != b@) by {
            assert(a@.len() != b@.len());
        }
        1
    } else {
        assert(a@ != b@) by {
            assert(a@[i as int] != b@[i as int]);
        }
        if a[i] < b[i] {
            -1
        } else {
            1
        }
    }
}

/// The ordering key of an update file path.
fn update_key_of(path: &[u8]) -> (r: Vec<u8>)
    ensures
        r@ == update_key(path@),
{
    let n = path.len();
    let mut i: usize = n;
    while i > 0 && path[i - 1] != 47u8
        invariant
            i <= n == path@.len(),
            forall|j: int| i <= j < n ==> path@[j] != 47,
        decreases i,
    {
        i -= 1;
    }
    proof {
        crate::parse::history::lemma_last_index(path@, 47, i - 1);
    }
    let mut name: Vec<u8> = Vec::new();
    let mut j: usize = i;
    while j < n
        invariant
            i <= j <= n == path@.len(),
            name@ == path@.subrange(i as int, j as int),
        decreases n - j,
    {
        name.push(path[j]);
        assert(name@ =~= path@.subrange(i as int, j + 1));
        j += 1;
    }
    assert(name@ =~= path@.skip(i as int));
    assert(i == 0 ==> path@.skip(0) =~= path@);
    if name.len() == 7 && name[1] == 81u8 && name[2] == 45u8 {
        let mut k: Vec<u8> = Vec::new();
        k.push(name[3]);
        k.push(name[4]);
        k.push(name[5]);
        k.push(name[6]);
        k.push(name[0]);
        assert(k@ =~= seq![name@[3], name@[4], name@[5], name@[6], name@[0]]);
        k
    } else {
        name
    }
}

/// Compares update file names so that the newest comes first.
pub fn cmp_update_files(a: &String, b: &String) -> (r: Ordering)
    ensures
        r == update_order(vstd::utf8::encode_utf8(a@), vstd::utf8::encode_utf8(b@)),
{
    let ka = update_key_of(a.as_str().as_bytes());
    let kb = update_key_of(b.as_str().as_bytes());
    let c = lex_compare(kb.as_slice(), ka.as_slice());
    if c == 0 {
        Ordering::Equal
    } else if c < 0 {
        Ordering::Less
    } else {
        Ordering::Greater
    }
}

/// Update file `a` is read before update file `b`: its key is not older.
pub open spec fn before(a: Seq<u8>, b: Seq<u8>) -> bool {
    lex_le(update_key(b), update_key(a))
}

/// `cmp_update_files` puts `a` first or ties exactly when `a` is read before `b`.
pub proof fn lemma_order_before(a: Seq<u8>, b: Seq<u8>)
    ensures
        (update_order(a, b) != Ordering::Greater) == before(a, b),
{
    lemma_lex_total(update_key(a), update_key(b));
}

/// Whether update file `a` is read before update file `b`.
fn files_before(a: &String, b: &String) -> (r: bool)
    ensures
        r == before(vstd::utf8::encode_utf8(a@), vstd::utf8::encode_utf8(b@)),
{
    let ka = update_key_of(a.as_str().as_bytes());
    let kb = update_key_of(b.as_str().as_bytes());
    let c = lex_compare(kb.as_slice(), ka.as_slice());
    proof {
        lemma_lex_total(kb@, ka@);
    }
    c <= 0
}

/// The update files in the order they are read: newest first.
pub fn sort_update_files(files: Vec<String>) -> (r: Vec<String>)
    ensures
        views(r@).to_multiset() == views(files@).to_multiset(),
        forall|i: int|
            0 <= i < r@.len() - 1 ==> before(
                vstd::utf8::encode_utf8(#[trigger] r@[i]@),
                vstd::utf8::encode_utf8(r@[i + 1]@),
            ),
{
    let mut out: Vec<String> = Vec::new();
    let mut k: usize = 0;
    assert(views(out@) =~= views(files@.take(0)));
    while k < files.len()
        invariant
            k <= files@.len(),
            views(out@).to_multiset() == views(files@.take(k as int)).to_multiset(),
            forall|i: int|
                0 <= i < out@.len() - 1 ==> before(
                    vstd::utf8::encode_utf8(#[trigger] out@[i]@),
                    vstd::utf8::encode_utf8(out@[i + 1]@),
                ),
        decreases files@.len() - k,
    {
        let x = files[k].clone();
        let mut p: usize = 0;
        while p < out.len() && files_before(&out[p], &x)
            invariant
                p <= out@.len(),
                p > 0 ==> before(
                    vstd::utf8::encode_utf8(out@[p - 1]@),
                    vstd::utf8::encode_utf8(x@),
                ),
            decreases out@.len() - p,
        {
            p += 1;
        }
        let ghost old_out = out@;
        proof {
            if p < old_out.len() {
                lemma_lex_total(
                    update_key(vstd::utf8::encode_utf8(x@)),
                    update_key(vstd::utf8::encode_utf8(old_out[p as int]@)),
                );
            }
        }
        out.insert(p, x);
        assert(views(out@) =~= views(old_out).insert(p as int, files@[k as int]@));
        assert(views(files@.take(k + 1)) =~= views(files@.take(k as int)).push(files@[k as int]@));
        assert forall|i: int| 0 <= i < out@.len() - 1 implies before(
            vstd::utf8::encode_utf8(#[trigger] out@[i]@),
            vstd::utf8::encode_utf8(out@[i + 1]@),
        ) by {
            if i + 1 < p {
                assert(out@[i] == old_out[i] && out@[i + 1] == old_out[i + 1]);
            } else if i + 1 == p {
                assert(out@[i] == old_out[i]);
            } else if i == p {
                assert(out@[i + 1] == old_out[i]);
            } else {
                assert(out@[i] == old_out[i - 1] && out@[i + 1] == old_out[i]);
            }
        }
        k += 1;
    }
    assert(files@.take(files@.len() as int) =~= files@);
    out
}


/// Reading update files newest first, the newest move of a name wins over an older one, unless
/// the older move leads to a name that moved again.
pub proof fn lemma_newest_move_wins(
    m: Map<Seq<char>, Seq<char>>,
    from: Seq<char>,
    newer: Seq<char>,
    older: Seq<char>,
)
    requires
        add_move(m, from, newer).dom().contains(from),
        !add_move(m, from, newer).dom().contains(older),
    ensures
        add_move(add_move(m, from, newer), from, older) == add_move(m, from, newer),
{
}

/// The update files that the database lists, in the order they are read: newest first. None
/// when the database lists none.
pub fn update_files(db: &Mtimedb) -> (r: Vec<String>)
    ensures
        db.updates is None ==> r@.len() == 0,
        db.updates matches Some(u) ==> views(r@).to_multiset() == views(u@).to_multiset(),
        forall|i: int|
            0 <= i < r@.len() - 1 ==> before(
                vstd::utf8::encode_utf8(#[trigger] r@[i]@),
                vstd::utf8::encode_utf8(r@[i + 1]@),
            ),
{
    match &db.updates {
        Some(u) => sort_update_files(u.clone()),
        None => Vec::new(),
    }
}

/// A move table that has read no move, such as the one built when the database lists no update
/// file, renames nothing: `get` gives every name back as it is.
pub proof fn lemma_no_moves(m: PkgMoves, k: Seq<char>)
    requires
        m.view() == Map::<Seq<char>, Seq<char>>::empty(),
    ensures
        !m.view().dom().contains(k),
{
}

} // verus!
