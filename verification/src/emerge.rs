//! The running emerge processes: which emerge commands are roots of a build tree, and which
//! packages their sandboxes are building.
use crate::parse::current::{pkg_of, pkg_views, Pkg, PkgView};
use crate::parse::history::{ascii, field, first_index, last_index, lemma_first_index, lemma_last_index, nth_field, tag};
use crate::text::{bytes_eq, bytes_starts_with, chars_vec, i64_of, parse_i64, push_char, starts_with};
use vstd::prelude::*;
use vstd::string::*;
use vstd::utf8::*;

verus! {

broadcast use vstd::utf8::group_utf8_lib;

/// Portage process kind.
#[derive(Clone, Copy, Debug, PartialEq, Eq, Structural)]
pub enum ProcKind {
    /// Main portage `emerge` process.
    Emerge,
    /// Helper portage `sandbox` process, which names the package being built.
    Sandbox,
    /// Other process, possibly not related to portage.
    Other,
}

/// System process info.
pub struct Proc {
    pub kind: ProcKind,
    pub cmdline: String,
    pub start: i64,
    pub pid: i32,
    pub ppid: i32,
}

/// The characters `] sandbox\\0`.
pub open spec fn sandbox_tag() -> Seq<char> {
    seq![']', ' ', 's', 'a', 'n', 'd', 'b', 'o', 'x', '\0']
}

/// `pat` occurs in `b` at `i`.
pub open spec fn occurs_at(b: Seq<char>, pat: Seq<char>, i: int) -> bool {
    0 <= i && i + pat.len() <= b.len() && b.subrange(i, i + pat.len()) == pat
}

/// The first occurrence of `pat` in `b` at or after `i`.
pub open spec fn find_from(b: Seq<char>, pat: Seq<char>, i: int) -> Option<int>
    decreases b.len() - i,
{
    if i < 0 || i >= b.len() || i + pat.len() > b.len() {
        None
    } else if occurs_at(b, pat, i) {
        Some(i)
    } else {
        find_from(b, pat, i + 1)
    }
}

/// The last index of `c` in `b`.
pub open spec fn last_char(b: Seq<char>, c: char) -> Option<int>
    decreases b.len(),
{
    if b.len() == 0 {
        None
    } else if b.last() == c {
        Some(b.len() - 1)
    } else {
        last_char(b.drop_last(), c)
    }
}

/// The package a sandbox command line names: between the last `[` before the first
/// `] sandbox\\0`, and that.
pub open spec fn sandbox_pkg(cmd: Seq<char>) -> Option<PkgView> {
    match find_from(cmd, sandbox_tag(), 0) {
        Some(a) => match last_char(cmd.take(a), '[') {
            Some(l) => pkg_of(cmd.subrange(l + 1, a), false),
            None => None,
        },
        None => None,
    }
}

/// `last_char` is the last position holding `c`.
proof fn lemma_last_char(b: Seq<char>, c: char, i: int)
    requires
        -1 <= i < b.len(),
        forall|j: int| i < j < b.len() ==> b[j] != c,
        i == -1 || b[i] == c,
    ensures
        last_char(b, c) == (if i == -1 { None } else { Some(i) }),
    decreases b.len(),
{
    if b.len() > 0 && i < b.len() - 1 {
        lemma_last_char(b.drop_last(), c, i);
    }
}

/// The first index of the sandbox tag in `b`.
fn find_tag(b: &Vec<char>) -> (r: Option<usize>)
    ensures
        match r {
            Some(i) => find_from(b@, sandbox_tag(), 0) == Some(i as int) && occurs_at(
                b@,
                sandbox_tag(),
                i as int,
            ),
            None => find_from(b@, sandbox_tag(), 0) is None,
        },
{
    let t: [char; 10] = [']', ' ', 's', 'a', 'n', 'd', 'b', 'o', 'x', '\0'];
    assert(t@ == sandbox_tag());
    let n = b.len();
    let mut i: usize = 0;
    if n < 10 {
        return None;
    }
    while i <= n - 10
        invariant
            n >= 10,
            i <= n == b@.len(),
            t@ == sandbox_tag(),
            find_from(b@, sandbox_tag(), 0) == find_from(b@, sandbox_tag(), i as int),
        decreases n - i,
    {
        let mut j: usize = 0;
        while j < 10 && b[i + j] == t[j]
            invariant
                j <= 10,
                i + 10 <= n,
                n == b@.len(),
                t@ == sandbox_tag(),
                forall|q: int| 0 <= q < j ==> b@[i + q] == t@[q],
            decreases 10 - j,
        {
            j += 1;
        }
        if j == 10 {
            assert(b@.subrange(i as int, i + 10) =~= sandbox_tag());
            return Some(i);
        }
        assert(!occurs_at(b@, sandbox_tag(), i as int)) by {
            if b@.subrange(i as int, i + 10) == sandbox_tag() {
                assert(b@[i + j] == b@.subrange(i as int, i + 10)[j as int]);
            }
        }
        i += 1;
    }
    None
}

/// Reads the package that a sandbox process is building.
pub fn sandbox_of(cmdline: &str) -> (r: Option<Pkg>)
    ensures
        match r {
            Some(p) => sandbox_pkg(cmdline@) == Some(p@),
            None => sandbox_pkg(cmdline@) is None,
        },
{
    let b = chars_vec(cmdline);
    let a = match find_tag(&b) {
        Some(a) => a,
        None => return None,
    };
    let mut l: usize = a;
    while l > 0 && b[l - 1] != '['
        invariant
            l <= a,
            a + 10 <= b@.len(),
            forall|q: int| l <= q < a ==> b@[q] != '[',
        decreases l,
    {
        l -= 1;
    }
    proof {
        lemma_last_char(b@.take(a as int), '[', l - 1);
    }
    if l == 0 {
        return None;
    }
    let mut name = String::new();
    let mut q: usize = l;
    while q < a
        invariant
            l <= q <= a,
            a + 10 <= b@.len(),
            name@ == b@.subrange(l as int, q as int),
        decreases a - q,
    {
        push_char(&mut name, b[q]);
        assert(name@ =~= b@.subrange(l as int, q + 1));
        q += 1;
    }
    Pkg::try_new(name.as_str(), false)
}

/// What the process tree logic reads of a process.
pub struct ProcView {
    pub kind: ProcKind,
    pub ppid: i32,
    pub start: i64,
}

/// Whether an emerge process is among the ancestors of `pid`, following parents for at most
/// `fuel` steps (`None` when that is not enough).
pub open spec fn emerge_ancestor(m: Map<i32, ProcView>, pid: i32, fuel: nat) -> Option<bool>
    decreases fuel,
{
    if fuel == 0 {
        None
    } else if m.dom().contains(m[pid].ppid) {
        if m[m[pid].ppid].kind == ProcKind::Emerge {
            Some(true)
        } else {
            emerge_ancestor(m, m[pid].ppid, (fuel - 1) as nat)
        }
    } else {
        Some(false)
    }
}

/// The roots that have no emerge ancestor.
pub open spec fn reduced(m: Map<i32, ProcView>, roots: Seq<i32>, fuel: nat) -> Seq<i32>
    decreases roots.len(),
{
    if roots.len() == 0 {
        Seq::empty()
    } else if emerge_ancestor(m, roots.last(), fuel) == Some(false) {
        reduced(m, roots.drop_last(), fuel).push(roots.last())
    } else {
        reduced(m, roots.drop_last(), fuel)
    }
}

/// Info about current emerge processes.
pub struct EmergeInfo {
    /// Every system process, by increasing pid.
    procs: Vec<Proc>,
    /// Pid of the initial emerge command(s), the roots of the build tree(s).
    pub roots: Vec<i32>,
    /// Startup timestamp of the oldest root, `i64::MAX` if no root is found.
    pub start: i64,
    /// Packages currently being built by a process.
    pub pkgs: Vec<Pkg>,
}

/// The process at index `i` has pid `pid`.
pub open spec fn pid_at(procs: Seq<Proc>, pid: i32, i: int) -> bool {
    0 <= i < procs.len() && procs[i].pid == pid
}

impl EmergeInfo {
    /// Pids increase along the list.
    #[verifier::type_invariant]
    spec fn inv(self) -> bool {
        forall|i: int, j: int|
            0 <= i < j < self.procs@.len() ==> self.procs@[i].pid < self.procs@[j].pid
    }

    /// The processes by pid.
    pub closed spec fn proc_map(&self) -> Map<i32, ProcView> {
        Map::new(
            |pid: i32| exists|i: int| pid_at(self.procs@, pid, i),
            |pid: i32|
                {
                    let p = self.procs@[choose|i: int| pid_at(self.procs@, pid, i)];
                    ProcView { kind: p.kind, ppid: p.ppid, start: p.start }
                },
        )
    }

    /// The roots.
    pub closed spec fn root_pids(&self) -> Seq<i32> {
        self.roots@
    }

    /// The start of the oldest root.
    pub closed spec fn start_ts(&self) -> i64 {
        self.start
    }

    /// The packages being built.
    pub closed spec fn pkg_list(&self) -> Seq<PkgView> {
        pkg_views(self.pkgs@)
    }

    /// No process.
    pub fn empty() -> (r: Self)
        ensures
            r.proc_map() == Map::<i32, ProcView>::empty(),
            r.root_pids() == Seq::<i32>::empty(),
            r.start_ts() == i64::MAX,
            r.pkg_list() == Seq::<PkgView>::empty(),
    {
        let r = EmergeInfo { procs: Vec::new(), roots: Vec::new(), start: i64::MAX, pkgs: Vec::new() };
        assert(r.proc_map() =~= Map::<i32, ProcView>::empty());
        assert(r.pkg_list() =~= Seq::<PkgView>::empty());
        r
    }

    /// Where the process `pid` is kept.
    fn find(&self, pid: i32) -> (r: Option<usize>)
        ensures
            match r {
                Some(i) => pid_at(self.procs@, pid, i as int) && self.proc_map().dom().contains(pid)
                    && self.proc_map()[pid] == (ProcView {
                    kind: self.procs@[i as int].kind,
                    ppid: self.procs@[i as int].ppid,
                    start: self.procs@[i as int].start,
                }),
                None => !self.proc_map().dom().contains(pid),
            },
    {
        proof {
            use_type_invariant(self);
        }
        let mut i: usize = 0;
        while i < self.procs.len()
            invariant
                i <= self.procs@.len(),
                forall|j: int| 0 <= j < i ==> self.procs@[j].pid != pid,
                forall|a: int, b: int| 0 <= a < b < self.procs@.len() ==> self.procs@[a].pid < self.procs@[b].pid,
            decreases self.procs@.len() - i,
        {
            if self.procs[i].pid == pid {
                proof {
                    assert(pid_at(self.procs@, pid, i as int));
                    let c = choose|c: int| pid_at(self.procs@, pid, c);
                    assert(c == i);
                }
                return Some(i);
            }
            i += 1;
        }
        None
    }

    /// The pids of the direct children of `pid`, by increasing pid.
    pub fn children_of(&self, pid: i32) -> (r: Vec<i32>)
        ensures
            forall|i: int| 0 <= i < r@.len() ==> self.proc_map().dom().contains(#[trigger] r@[i])
                && self.proc_map()[r@[i]].ppid == pid,
            forall|c: i32| #[trigger] self.proc_map().dom().contains(c) && self.proc_map()[c].ppid == pid ==> r@.contains(c),
            forall|i: int, j: int| 0 <= i < j < r@.len() ==> r@[i] < r@[j],
    {
        proof {
            use_type_invariant(self);
        }
        let mut r: Vec<i32> = Vec::new();
        let mut i: usize = 0;
        while i < self.procs.len()
            invariant
                i <= self.procs@.len(),
                forall|a: int, b: int| 0 <= a < b < self.procs@.len() ==> self.procs@[a].pid < self.procs@[b].pid,
                forall|k: int| 0 <= k < r@.len() ==> exists|j: int| 0 <= j < i && self.procs@[j].pid == #[trigger] r@[k] && self.procs@[j].ppid == pid,
                forall|j: int| 0 <= j < i && self.procs@[j].ppid == pid ==> r@.contains(#[trigger] self.procs@[j].pid),
                forall|a: int, b: int| 0 <= a < b < r@.len() ==> r@[a] < r@[b],
                r@.len() > 0 ==> exists|j: int| 0 <= j < i && self.procs@[j].pid == r@.last(),
            decreases self.procs@.len() - i,
        {
            if self.procs[i].ppid == pid {
                let ghost r0 = r@;
                r.push(self.procs[i].pid);
                assert forall|k: int| 0 <= k < r@.len() implies exists|j: int| 0 <= j < i + 1 && self.procs@[j].pid == #[trigger] r@[k] && self.procs@[j].ppid == pid by {
                    if k < r0.len() {
                        assert(r@[k] == r0[k]);
                    } else {
                        assert(self.procs@[i as int].pid == r@[k]);
                    }
                }
                assert forall|j: int| 0 <= j < i + 1 && self.procs@[j].ppid == pid implies r@.contains(#[trigger] self.procs@[j].pid) by {
                    if j < i {
                        assert(r0.contains(self.procs@[j].pid));
                        let w = choose|w: int| 0 <= w < r0.len() && r0[w] == self.procs@[j].pid;
                        assert(r@[w] == r0[w]);
                    } else {
                        assert(r@[r0.len() as int] == self.procs@[j].pid);
                    }
                }
                assert forall|a: int, b: int| 0 <= a < b < r@.len() implies r@[a] < r@[b] by {
                    if b == r0.len() {
                        if a < r0.len() - 1 {
                            assert(r0[a] < r0[r0.len() - 1]);
                        }
                    }
                }
            }
            i += 1;
        }
        proof {
            assert forall|k: int| 0 <= k < r@.len() implies self.proc_map().dom().contains(#[trigger] r@[k])
                && self.proc_map()[r@[k]].ppid == pid by {
                let j = choose|j: int| 0 <= j < self.procs@.len() && self.procs@[j].pid == r@[k] && self.procs@[j].ppid == pid;
                assert(pid_at(self.procs@, r@[k], j));
                let c = choose|c: int| pid_at(self.procs@, r@[k], c);
                assert(c == j);
            }
            assert forall|c: i32| #[trigger] self.proc_map().dom().contains(c) && self.proc_map()[c].ppid == pid implies r@.contains(c) by {
                let j = choose|j: int| pid_at(self.procs@, c, j);
                assert(self.procs@[j].pid == c);
            }
        }
        r
    }
}

/// The view of a process.
pub open spec fn proc_view(p: Proc) -> ProcView {
    ProcView { kind: p.kind, ppid: p.ppid, start: p.start }
}

impl EmergeInfo {
    /// Whether an emerge process is among the ancestors of `pid`, within `fuel` steps.
    fn ancestor_check(&self, pid: i32, fuel: usize) -> (r: Option<bool>)
        requires
            self.proc_map().dom().contains(pid),
        ensures
            r == emerge_ancestor(self.proc_map(), pid, fuel as nat),
    {
        let ghost m = self.proc_map();
        let mut cur = pid;
        let mut f = fuel;
        loop
            invariant
                m == self.proc_map(),
                m.dom().contains(cur),
                emerge_ancestor(m, pid, fuel as nat) == emerge_ancestor(m, cur, f as nat),
            decreases f,
        {
            if f == 0 {
                return None;
            }
            let i = match self.find(cur) {
                Some(i) => i,
                None => {
                    assert(false);
                    return None;
                },
            };
            let pp = self.procs[i].ppid;
            match self.find(pp) {
                None => return Some(false),
                Some(j) => {
                    if self.procs[j].kind == ProcKind::Emerge {
                        return Some(true);
                    }
                    cur = pp;
                    f = f - 1;
                },
            }
        }
    }

    /// Drops the roots that have an emerge ancestor (parents are followed at most once per
    /// process).
    pub fn reduce_roots(&mut self)
        requires
            forall|i: int|
                0 <= i < old(self).root_pids().len() ==> old(self).proc_map().dom().contains(
                    #[trigger] old(self).root_pids()[i],
                ) && emerge_ancestor(
                    old(self).proc_map(),
                    old(self).root_pids()[i],
                    old(self).proc_map().dom().len(),
                ) is Some,
        ensures
            final(self).proc_map() == old(self).proc_map(),
            final(self).start_ts() == old(self).start_ts(),
            final(self).pkg_list() == old(self).pkg_list(),
            final(self).root_pids() == reduced(
                old(self).proc_map(),
                old(self).root_pids(),
                old(self).proc_map().dom().len(),
            ),
    {
        let ghost m = self.proc_map();
        let n = self.procs.len();
        proof {
            use_type_invariant(&*self);
            self.lemma_map_len();
        }
        let fuel = n;
        assert(fuel == m.dom().len());
        let mut kept: Vec<i32> = Vec::new();
        let mut k: usize = 0;
        let ghost rs = self.roots@;
        assert(rs.take(0) =~= Seq::<i32>::empty());
        assert forall|i: int| 0 <= i < rs.len() implies m.dom().contains(#[trigger] rs[i])
            && emerge_ancestor(m, rs[i], fuel as nat) is Some by {
            assert(old(self).root_pids()[i] == rs[i]);
        }
        while k < self.roots.len()
            invariant
                k <= self.roots@.len(),
                rs == self.roots@,
                m == self.proc_map(),
                fuel == m.dom().len(),
                forall|i: int|
                    0 <= i < rs.len() ==> m.dom().contains(#[trigger] rs[i]) && emerge_ancestor(
                        m,
                        rs[i],
                        fuel as nat,
                    ) is Some,
                kept@ == reduced(m, rs.take(k as int), fuel as nat),
            decreases self.roots@.len() - k,
        {
            let r = self.roots[k];
            assert(rs.take(k + 1).drop_last() =~= rs.take(k as int));
            assert(rs.take(k + 1).last() == r);
            let a = self.ancestor_check(r, fuel);
            if a == Some(false) {
                kept.push(r);
            }
            k += 1;
        }
        assert(rs.take(rs.len() as int) =~= rs);
        let mut tmp = EmergeInfo::empty();
        std::mem::swap(&mut tmp, self);
        proof {
            use_type_invariant(&tmp);
        }
        let EmergeInfo { procs, roots, start, pkgs } = tmp;
        *self = EmergeInfo { procs, roots: kept, start, pkgs };
        assert(self.proc_map() =~= m);
    }

    /// As many pids as processes.
    proof fn lemma_map_len(&self)
        requires
            self.inv(),
        ensures
            self.proc_map().dom().len() == self.procs@.len(),
            self.proc_map().dom().finite(),
    {
        let pids = self.procs@.map_values(|p: Proc| p.pid);
        assert(pids.no_duplicates()) by {
            assert forall|i: int, j: int| 0 <= i < pids.len() && 0 <= j < pids.len() && i != j implies pids[i] != pids[j] by {
                if i < j {
                    assert(self.procs@[i].pid < self.procs@[j].pid);
                } else {
                    assert(self.procs@[j].pid < self.procs@[i].pid);
                }
            }
        }
        pids.unique_seq_to_set();
        assert forall|q: i32| self.proc_map().dom().contains(q) <==> pids.to_set().contains(q) by {
            if self.proc_map().dom().contains(q) {
                let j = choose|j: int| pid_at(self.procs@, q, j);
                assert(pids[j] == q);
            }
            if pids.to_set().contains(q) {
                let j = choose|j: int| 0 <= j < pids.len() && pids[j] == q;
                assert(pid_at(self.procs@, q, j));
            }
        }
        assert(self.proc_map().dom() =~= pids.to_set());
    }
}

impl EmergeInfo {
    /// Adds a process: an emerge process is a root (and may start earlier), a sandbox names the
    /// package it builds; a process with the same pid is replaced.
    pub fn add_proc(&mut self, proc: Proc)
        ensures
            final(self).proc_map() == old(self).proc_map().insert(proc.pid, proc_view(proc)),
            final(self).root_pids() == (if proc.kind == ProcKind::Emerge {
                old(self).root_pids().push(proc.pid)
            } else {
                old(self).root_pids()
            }),
            final(self).start_ts() == (if proc.kind == ProcKind::Emerge && proc.start < old(
                self,
            ).start_ts() {
                proc.start
            } else {
                old(self).start_ts()
            }),
            final(self).pkg_list() == (if proc.kind == ProcKind::Sandbox && sandbox_pkg(
                proc.cmdline@,
            ) is Some {
                old(self).pkg_list().push(sandbox_pkg(proc.cmdline@)->0)
            } else {
                old(self).pkg_list()
            }),
    {
        let ghost m0 = self.proc_map();
        let ghost p0 = self.pkg_list();
        let mut tmp = EmergeInfo::empty();
        std::mem::swap(&mut tmp, self);
        proof {
            use_type_invariant(&tmp);
        }
        let EmergeInfo { mut procs, mut roots, mut start, mut pkgs } = tmp;
        match proc.kind {
            ProcKind::Emerge => {
                if proc.start < start {
                    start = proc.start;
                }
                roots.push(proc.pid);
            },
            ProcKind::Sandbox => {
                if let Some(p) = sandbox_of(proc.cmdline.as_str()) {
                    pkgs.push(p);
                    assert(pkg_views(pkgs@) =~= p0.push(sandbox_pkg(proc.cmdline@)->0));
                }
            },
            ProcKind::Other => {},
        }
        let ghost pv = proc_view(proc);
        let pid = proc.pid;
        let ghost old_procs = procs@;
        let mut i: usize = 0;
        while i < procs.len() && procs[i].pid < pid
            invariant
                i <= procs@.len(),
                procs@ == old_procs,
                forall|a: int, b: int| 0 <= a < b < procs@.len() ==> procs@[a].pid < procs@[b].pid,
                forall|j: int| 0 <= j < i ==> procs@[j].pid < pid,
            decreases procs@.len() - i,
        {
            i += 1;
        }
        if i < procs.len() && procs[i].pid == pid {
            procs.set(i, proc);
        } else {
            procs.insert(i, proc);
        }
        assert forall|a: int, b: int| 0 <= a < b < procs@.len() implies procs@[a].pid < procs@[b].pid by {
            if procs@.len() == old_procs.len() {
            } else {
                if b < i {
                } else if a > i {
                    assert(procs@[a] == old_procs[a - 1] && procs@[b] == old_procs[b - 1]);
                } else if a == i {
                    assert(procs@[b] == old_procs[b - 1]);
                    assert(i < old_procs.len() ==> old_procs[i as int].pid > pid);
                    if b - 1 > i {
                        assert(old_procs[i as int].pid < old_procs[b - 1].pid);
                    }
                } else {
                    assert(procs@[a] == old_procs[a]);
                }
            }
        }
        *self = EmergeInfo { procs, roots, start, pkgs };
        proof {
            assert forall|q: i32| #![auto] self.proc_map().dom().contains(q) == m0.insert(pid, pv).dom().contains(q) by {
                if q == pid {
                    assert(pid_at(self.procs@, q, i as int));
                } else {
                    if m0.dom().contains(q) {
                        let j = choose|j: int| pid_at(old_procs, q, j);
                        let nj = if j < i { j } else if self.procs@.len() == old_procs.len() { j } else { j + 1 };
                        assert(pid_at(self.procs@, q, nj));
                    }
                    if self.proc_map().dom().contains(q) {
                        let j = choose|j: int| pid_at(self.procs@, q, j);
                        let oj = if j < i { j } else if self.procs@.len() == old_procs.len() { j } else { j - 1 };
                        assert(pid_at(old_procs, q, oj));
                    }
                }
            }
            assert forall|q: i32| #![auto] self.proc_map().dom().contains(q) implies self.proc_map()[q] == m0.insert(pid, pv)[q] by {
                let j = choose|j: int| pid_at(self.procs@, q, j);
                assert(pid_at(self.procs@, q, j));
                if q == pid {
                    assert(j == i) by {
                        if j < i {
                            assert(self.procs@[j].pid < self.procs@[i as int].pid);
                        } else if j > i {
                            assert(self.procs@[i as int].pid < self.procs@[j].pid);
                        }
                    }
                } else {
                    let oj = if j < i { j } else if self.procs@.len() == old_procs.len() { j } else { j - 1 };
                    assert(pid_at(old_procs, q, oj));
                    let c = choose|c: int| pid_at(old_procs, q, c);
                    assert(pid_at(old_procs, q, c));
                    assert(c == oj) by {
                        if c < oj {
                            assert(old_procs[c].pid < old_procs[oj].pid);
                        } else if c > oj {
                            assert(old_procs[oj].pid < old_procs[c].pid);
                        }
                    }
                }
            }
            assert(self.proc_map() =~= m0.insert(pid, pv));
        }
    }
}


impl EmergeInfo {
    /// Whether every root is a known process whose parents can be followed to the top, so that
    /// `reduce_roots` may run.
    pub fn roots_settle(&self) -> (r: bool)
        ensures
            r == forall|i: int|
                0 <= i < self.root_pids().len() ==> self.proc_map().dom().contains(
                    #[trigger] self.root_pids()[i],
                ) && emerge_ancestor(
                    self.proc_map(),
                    self.root_pids()[i],
                    self.proc_map().dom().len(),
                ) is Some,
    {
        proof {
            use_type_invariant(self);
            self.lemma_map_len();
        }
        let n = self.procs.len();
        let mut k: usize = 0;
        while k < self.roots.len()
            invariant
                k <= self.roots@.len(),
                n == self.proc_map().dom().len(),
                forall|i: int|
                    0 <= i < k ==> self.proc_map().dom().contains(#[trigger] self.roots@[i])
                        && emerge_ancestor(self.proc_map(), self.roots@[i], n as nat) is Some,
            decreases self.roots@.len() - k,
        {
            let r = self.roots[k];
            if self.find(r).is_none() {
                return false;
            }
            if self.ancestor_check(r, n).is_none() {
                return false;
            }
            k += 1;
        }
        true
    }
}


impl EmergeInfo {
    /// The process `pid`, when it is known.
    pub fn get(&self, pid: i32) -> (r: Option<&Proc>)
        ensures
            match r {
                Some(p) => self.proc_map().dom().contains(pid) && p.pid == pid && self.proc_map()[pid]
                    == proc_view(*p),
                None => !self.proc_map().dom().contains(pid),
            },
    {
        match self.find(pid) {
            Some(i) => Some(&self.procs[i]),
            None => None,
        }
    }
}

/// The pids of the processes of `ps` whose parent is `pid`, in list order.
pub open spec fn kid_pids(ps: Seq<Proc>, pid: i32) -> Seq<i32>
    decreases ps.len(),
{
    if ps.len() == 0 {
        Seq::empty()
    } else if ps.last().ppid == pid {
        kid_pids(ps.drop_last(), pid).push(ps.last().pid)
    } else {
        kid_pids(ps.drop_last(), pid)
    }
}

/// The number of processes in the tree under `pid`, itself included, following children for at
/// most `fuel` levels; `None` when that is not enough.
pub open spec fn size_in(ps: Seq<Proc>, pid: i32, fuel: nat) -> Option<nat>
    decreases fuel, 0nat,
{
    if fuel == 0 {
        None
    } else {
        match sizes_in(ps, kid_pids(ps, pid), (fuel - 1) as nat) {
            Some(s) => Some(s + 1),
            None => None,
        }
    }
}

/// The sum of the sizes of the trees under each of `kids`.
pub open spec fn sizes_in(ps: Seq<Proc>, kids: Seq<i32>, fuel: nat) -> Option<nat>
    decreases fuel, kids.len() + 1,
{
    if kids.len() == 0 {
        Some(0)
    } else {
        match (sizes_in(ps, kids.drop_last(), fuel), size_in(ps, kids.last(), fuel)) {
            (Some(a), Some(b)) => Some(a + b),
            _ => None,
        }
    }
}

/// A sum over a prefix of the kids is no larger than the sum over all of them.
proof fn lemma_sizes_prefix(ps: Seq<Proc>, kids: Seq<i32>, fuel: nat, j: int)
    requires
        0 <= j <= kids.len(),
        sizes_in(ps, kids, fuel) is Some,
    ensures
        sizes_in(ps, kids.take(j), fuel) matches Some(a) && a <= sizes_in(ps, kids, fuel)->0,
    decreases kids.len(),
{
    if j == kids.len() {
        assert(kids.take(j) =~= kids);
    } else {
        lemma_sizes_prefix(ps, kids.drop_last(), fuel, j);
        assert(kids.drop_last().take(j) =~= kids.take(j));
    }
}

/// A count that fits in a `u32`.
pub open spec fn fit_u32(c: Option<nat>) -> Option<u32> {
    match c {
        Some(n) => if n <= u32::MAX {
            Some(n as u32)
        } else {
            None
        },
        None => None,
    }
}

impl EmergeInfo {
    /// The number of processes in the tree under `pid`, itself included: one, plus the trees under
    /// its children; `None` when following children does not end (parents that loop).
    pub closed spec fn tree_size(&self, pid: i32) -> Option<nat> {
        match sizes_in(self.procs@, kid_pids(self.procs@, pid), self.procs@.len()) {
            Some(s) => Some(s + 1),
            None => None,
        }
    }

    /// The children of `pid`, in list order.
    fn kids(&self, pid: i32) -> (r: Vec<i32>)
        ensures
            r@ == kid_pids(self.procs@, pid),
    {
        let mut r: Vec<i32> = Vec::new();
        let mut i: usize = 0;
        assert(self.procs@.take(0) =~= Seq::<Proc>::empty());
        while i < self.procs.len()
            invariant
                i <= self.procs@.len(),
                r@ == kid_pids(self.procs@.take(i as int), pid),
            decreases self.procs@.len() - i,
        {
            assert(self.procs@.take(i + 1).drop_last() =~= self.procs@.take(i as int));
            if self.procs[i].ppid == pid {
                r.push(self.procs[i].pid);
            }
            i += 1;
        }
        assert(self.procs@.take(i as int) =~= self.procs@);
        r
    }

    /// The sum of the tree sizes under `ks`, within `fuel` levels, when it fits in a `u32` less
    /// `base`, plus `base`.
    fn sizes_fuel(&self, ks: &Vec<i32>, fuel: usize, base: u32) -> (r: Option<u32>)
        ensures
            r == fit_u32(
                match sizes_in(self.procs@, ks@, fuel as nat) {
                    Some(s) => Some(s + base as nat),
                    None => None,
                },
            ),
        decreases fuel, 1nat,
    {
        let ghost ps = self.procs@;
        let mut total: u32 = base;
        let mut i: usize = 0;
        assert(ks@.take(0) =~= Seq::<i32>::empty());
        while i < ks.len()
            invariant
                i <= ks@.len(),
                ps == self.procs@,
                sizes_in(ps, ks@.take(i as int), fuel as nat) matches Some(a) && total == a + base,
            decreases ks@.len() - i,
        {
            assert(ks@.take(i + 1).drop_last() =~= ks@.take(i as int));
            let c = match self.size_fuel(ks[i], fuel) {
                Some(c) => c,
                None => {
                    proof {
                        if sizes_in(ps, ks@, fuel as nat) is Some {
                            lemma_sizes_prefix(ps, ks@, fuel as nat, i + 1);
                        }
                    }
                    return None;
                },
            };
            if c > u32::MAX - total {
                proof {
                    if sizes_in(ps, ks@, fuel as nat) is Some {
                        lemma_sizes_prefix(ps, ks@, fuel as nat, i + 1);
                    }
                }
                return None;
            }
            total = total + c;
            i += 1;
        }
        assert(ks@.take(i as int) =~= ks@);
        Some(total)
    }

    /// The size of the tree under `pid` within `fuel` levels, when it fits in a `u32`.
    fn size_fuel(&self, pid: i32, fuel: usize) -> (r: Option<u32>)
        ensures
            r == fit_u32(size_in(self.procs@, pid, fuel as nat)),
        decreases fuel, 0nat,
    {
        if fuel == 0 {
            return None;
        }
        let ks = self.kids(pid);
        self.sizes_fuel(&ks, fuel - 1, 1)
    }

    /// The number of processes in the tree under `pid`, itself included, when following children
    /// ends and the number fits in a `u32`.
    pub fn count_checked(&self, pid: i32) -> (r: Option<u32>)
        ensures
            r == fit_u32(self.tree_size(pid)),
    {
        let ks = self.kids(pid);
        self.sizes_fuel(&ks, self.procs.len(), 1)
    }

    /// The number of processes in the tree under `pid`, itself included.
    pub fn count(&self, pid: i32) -> (r: u32)
        requires
            fit_u32(self.tree_size(pid)) is Some,
        ensures
            self.tree_size(pid) == Some(r as nat),
    {
        match self.count_checked(pid) {
            Some(c) => c,
            None => 0,
        }
    }
}

/// A line of the process tree: a process at its depth, or how many processes under the one at
/// `depth` are not shown.
#[derive(Clone, Copy, Debug, PartialEq, Eq, Structural)]
pub enum TreeRow {
    Proc { pid: i32, depth: usize },
    Skip { depth: usize, count: u32 },
}

/// How far a walk at `depth` is from the depth limit `pdepth`.
pub open spec fn depth_left(depth: int, pdepth: int) -> int {
    if depth < pdepth {
        pdepth - depth
    } else {
        0
    }
}

/// The lines of the process tree under `pid`, at `depth`, with the processes at depth below
/// `pdepth`: the process itself, then the trees under its children (by increasing pid) while
/// they stay within the limit, or else, with `showskip`, how many processes under it are left
/// out. An unknown process gives no line. `Err(pid)` when the tree under a process whose
/// descendants are counted does not end (or does not fit in a `u32`).
pub open spec fn tree_walk(ps: Seq<Proc>, pid: i32, depth: int, pdepth: int, showskip: bool) -> Result<
    Seq<TreeRow>,
    i32,
>
    decreases depth_left(depth, pdepth), 0nat,
{
    if !(exists|i: int| pid_at(ps, pid, i)) {
        Ok(Seq::empty())
    } else {
        let me = if depth < pdepth {
            seq![TreeRow::Proc { pid, depth: depth as usize }]
        } else {
            Seq::empty()
        };
        if depth + 1 < pdepth {
            match tree_walk_kids(ps, kid_pids(ps, pid), depth + 1, pdepth, showskip) {
                Ok(rows) => Ok(me + rows),
                Err(e) => Err(e),
            }
        } else if showskip {
            let size = match sizes_in(ps, kid_pids(ps, pid), ps.len()) {
                Some(s) => Some(s + 1),
                None => None,
            };
            match fit_u32(size) {
                Some(n) => if n > 1 {
                    Ok(me.push(TreeRow::Skip { depth: depth as usize, count: (n - 1) as u32 }))
                } else {
                    Ok(me)
                },
                None => Err(pid),
            }
        } else {
            Ok(me)
        }
    }
}

/// The lines of the trees under each of `kids` in turn, at `depth`.
pub open spec fn tree_walk_kids(
    ps: Seq<Proc>,
    kids: Seq<i32>,
    depth: int,
    pdepth: int,
    showskip: bool,
) -> Result<Seq<TreeRow>, i32>
    decreases depth_left(depth, pdepth), kids.len() + 1,
{
    if kids.len() == 0 {
        Ok(Seq::empty())
    } else {
        match tree_walk_kids(ps, kids.drop_last(), depth, pdepth, showskip) {
            Ok(a) => match tree_walk(ps, kids.last(), depth, pdepth, showskip) {
                Ok(b) => Ok(a + b),
                Err(e) => Err(e),
            },
            Err(e) => Err(e),
        }
    }
}

impl EmergeInfo {
    /// The processes, by increasing pid.
    pub closed spec fn proc_seq(&self) -> Seq<Proc> {
        self.procs@
    }

    /// The lines of the process tree under `pid`, from `depth` on, as [`tree_walk`] gives them.
    pub fn tree_rows(&self, pid: i32, depth: usize, pdepth: usize, showskip: bool) -> (r: Result<
        Vec<TreeRow>,
        i32,
    >)
        ensures
            match r {
                Ok(v) => tree_walk(self.proc_seq(), pid, depth as int, pdepth as int, showskip)
                    == Ok::<Seq<TreeRow>, i32>(v@),
                Err(e) => tree_walk(self.proc_seq(), pid, depth as int, pdepth as int, showskip)
                    == Err::<Seq<TreeRow>, i32>(e),
            },
        decreases depth_left(depth as int, pdepth as int), 0nat,
    {
        let ghost ps = self.procs@;
        match self.get(pid) {
            None => {
                return Ok(Vec::new());
            },
            Some(_) => {},
        }
        assert(exists|i: int| pid_at(ps, pid, i));
        let mut out: Vec<TreeRow> = Vec::new();
        if depth < pdepth {
            out.push(TreeRow::Proc { pid, depth });
        }
        let ghost me = out@;
        if depth < pdepth && depth + 1 < pdepth {
            let ks = self.kids(pid);
            let mut i: usize = 0;
            assert(ks@.take(0) =~= Seq::<i32>::empty());
            assert(me + Seq::<TreeRow>::empty() =~= me);
            while i < ks.len()
                invariant
                    i <= ks@.len(),
                    ps == self.procs@,
                    ks@ == kid_pids(ps, pid),
                    depth + 1 < pdepth,
                    exists|j: int| pid_at(ps, pid, j),
                    me == seq![TreeRow::Proc { pid, depth }],
                    tree_walk_kids(ps, ks@.take(i as int), depth + 1, pdepth as int, showskip) matches Ok(
                        a,
                    ) && out@ == me + a,
                decreases ks@.len() - i,
            {
                assert(ks@.take(i + 1).drop_last() =~= ks@.take(i as int));
                assert(ks@.take(i + 1).last() == ks@[i as int]);
                match self.tree_rows(ks[i], depth + 1, pdepth, showskip) {
                    Ok(v) => {
                        let ghost before = out@;
                        let mut v = v;
                        out.append(&mut v);
                        let ghost a = tree_walk_kids(ps, ks@.take(i as int), depth + 1, pdepth as int, showskip)->Ok_0;
                        assert(out@ =~= me + (a + tree_walk(ps, ks@[i as int], depth + 1, pdepth as int, showskip)->Ok_0));
                    },
                    Err(e) => {
                        proof {
                            lemma_walk_kids_err(ps, ks@, i as int, depth + 1, pdepth as int, showskip);
                            assert(tree_walk_kids(ps, kid_pids(ps, pid), depth + 1, pdepth as int, showskip)
                                == Err::<Seq<TreeRow>, i32>(e));
                            assert(tree_walk(ps, pid, depth as int, pdepth as int, showskip)
                                == Err::<Seq<TreeRow>, i32>(e));
                        }
                        return Err(e);
                    },
                }
                i += 1;
            }
            assert(ks@.take(i as int) =~= ks@);
            Ok(out)
        } else if showskip {
            match self.count_checked(pid) {
                Some(n) => {
                    if n > 1 {
                        out.push(TreeRow::Skip { depth, count: n - 1 });
                    }
                    Ok(out)
                },
                None => Err(pid),
            }
        } else {
            Ok(out)
        }
    }
}

/// When the walk under one of the kids fails, so does the walk under all of them, with the same
/// pid, provided the walk under the kids before it succeeded.
proof fn lemma_walk_kids_err(
    ps: Seq<Proc>,
    kids: Seq<i32>,
    i: int,
    depth: int,
    pdepth: int,
    showskip: bool,
)
    requires
        0 <= i < kids.len(),
        tree_walk_kids(ps, kids.take(i), depth, pdepth, showskip) is Ok,
        tree_walk(ps, kids[i], depth, pdepth, showskip) is Err,
    ensures
        tree_walk_kids(ps, kids, depth, pdepth, showskip) == Err::<Seq<TreeRow>, i32>(
            tree_walk(ps, kids[i], depth, pdepth, showskip)->Err_0,
        ),
    decreases kids.len(),
{
    if i == kids.len() - 1 {
        assert(kids.take(i) =~= kids.drop_last());
    } else {
        assert(kids.drop_last().take(i) =~= kids.take(i));
        lemma_walk_kids_err(ps, kids.drop_last(), i, depth, pdepth, showskip);
    }
}

/// The kind of a process from its command name: `emerge`, a python interpreter or `sandbox`
/// (which run the builds), or any other.
pub open spec fn kind_of(name: Seq<u8>) -> ProcKind {
    if name == ascii("emerge"@) {
        ProcKind::Emerge
    } else if starts_with(name, ascii("python"@)) || name == ascii("sandbox"@) {
        ProcKind::Sandbox
    } else {
        ProcKind::Other
    }
}

/// What a `/proc/<pid>/stat` line tells of a process: the kind of its command (between the first
/// `(` and the last `)`), then, counting space-separated fields after that `)`, its parent pid
/// (field 2) and its start time in clock ticks since boot (field 20).
pub open spec fn stat_spec(b: Seq<u8>) -> Option<(ProcKind, i32, i64)> {
    match (first_index(b, 40), last_index(b, 41)) {
        (Some(p), Some(q)) => {
            let rest = b.skip(q + 1);
            match (field(rest, 2), field(rest, 20)) {
                (Some(f2), Some(f20)) => match (i64_of(f2), i64_of(f20)) {
                    (Some(pp), Some(st)) => if i32::MIN <= pp <= i32::MAX {
                        Some((kind_of(b.subrange(p + 1, q)), pp as i32, st))
                    } else {
                        None
                    },
                    _ => None,
                },
                _ => None,
            }
        },
        _ => None,
    }
}

/// The command name of a stat line is where the first `(` comes before the last `)`.
pub open spec fn stat_ok(b: Seq<u8>) -> bool {
    match (first_index(b, 40), last_index(b, 41)) {
        (Some(p), Some(q)) => p < q,
        _ => true,
    }
}

/// The first `(` and the last `)` of a stat line.
fn stat_parens(b: &[u8]) -> (r: (Option<usize>, Option<usize>))
    ensures
        r.0 matches Some(p) ==> first_index(b@, 40) == Some(p as int) && p < b@.len(),
        r.0 is None ==> first_index(b@, 40) is None,
        r.1 matches Some(q) ==> last_index(b@, 41) == Some(q as int) && q < b@.len(),
        r.1 is None ==> last_index(b@, 41) is None,
{
    let n = b.len();
    let mut p: usize = 0;
    while p < n && b[p] != 40u8
        invariant
            p <= n == b@.len(),
            forall|j: int| 0 <= j < p ==> b@[j] != 40,
        decreases n - p,
    {
        p += 1;
    }
    proof {
        lemma_first_index(b@, 40, p as int);
    }
    let mut q: usize = n;
    while q > 0 && b[q - 1] != 41u8
        invariant
            q <= n == b@.len(),
            forall|j: int| q <= j < n ==> b@[j] != 41,
        decreases q,
    {
        q -= 1;
    }
    proof {
        lemma_last_index(b@, 41, q - 1);
    }
    (if p < n { Some(p) } else { None }, if q > 0 { Some(q - 1) } else { None })
}

/// Whether `parse_stat` can read a stat line.
pub fn stat_fits(stat: &str) -> (r: bool)
    ensures
        r == stat_ok(stat.spec_bytes()),
{
    match stat_parens(stat.as_bytes()) {
        (Some(p), Some(q)) => p < q,
        _ => true,
    }
}

/// An `i32` as `i32::from_str` reads it.
fn parse_i32(b: &[u8]) -> (r: Option<i32>)
    ensures
        r == (match i64_of(b@) {
            Some(v) => if i32::MIN <= v <= i32::MAX {
                Some(v as i32)
            } else {
                None
            },
            None => None,
        }),
{
    match parse_i64(b) {
        Some(v) => if i32::MIN as i64 <= v && v <= i32::MAX as i64 {
            Some(v as i32)
        } else {
            None
        },
        None => None,
    }
}

/// Reads the kind, the parent pid and the start time (in clock ticks since boot) of a process
/// from its `/proc/<pid>/stat` line.
pub fn parse_stat(stat: &str) -> (r: Option<(ProcKind, i32, i64)>)
    requires
        stat_ok(stat.spec_bytes()),
    ensures
        r == stat_spec(stat.spec_bytes()),
{
    let b = stat.as_bytes();
    let parens = stat_parens(b);
    let (p, q) = match parens {
        (Some(p), Some(q)) => (p, q),
        _ => return None,
    };
    let n = b.len();
    assert(q < n);
    let after = q + 1;
    let name = &b[p + 1..q];
    proof {
        reveal_strlit("emerge");
        reveal_strlit("python");
        reveal_strlit("sandbox");
    }
    let kind = if bytes_eq(name, tag("emerge")) {
        ProcKind::Emerge
    } else if bytes_starts_with(name, tag("python")) || bytes_eq(name, tag("sandbox")) {
        ProcKind::Sandbox
    } else {
        ProcKind::Other
    };
    assert(name@ =~= b@.subrange(p + 1, q as int));
    let rest = &b[after..n];
    assert(rest@ =~= b@.skip(q + 1));
    let f2 = match nth_field(rest, 2) {
        Some(f) => f,
        None => return None,
    };
    let ppid = match parse_i32(f2) {
        Some(v) => v,
        None => return None,
    };
    let f20 = match nth_field(rest, 20) {
        Some(f) => f,
        None => return None,
    };
    let start = match parse_i64(f20) {
        Some(v) => v,
        None => return None,
    };
    Some((kind, ppid, start))
}

/// `a / b` rounded toward zero, as Rust divides integers.
pub open spec fn trunc_div(a: int, b: int) -> int {
    if a >= 0 {
        a / b
    } else {
        -((-a) / b)
    }
}

/// The start of a process as a timestamp: the boot time plus its start in clock ticks, in whole
/// seconds; `None` when that does not fit in an `i64`.
pub fn start_of(time_ref: i64, ticks: i64, clocktick: i64) -> (r: Option<i64>)
    requires
        clocktick > 0,
    ensures
        r == (if i64::MIN <= time_ref + trunc_div(ticks as int, clocktick as int) <= i64::MAX {
            Some((time_ref + trunc_div(ticks as int, clocktick as int)) as i64)
        } else {
            None
        }),
{
    let secs = ticks / clocktick;
    assert(secs == trunc_div(ticks as int, clocktick as int));
    time_ref.checked_add(secs)
}

} // verus!
