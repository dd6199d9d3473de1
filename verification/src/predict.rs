//! The decisions of the `predict` command: past merge times per package, the pending merges,
//! and the estimate of each.
use crate::commands::{ebuild_of, moved, pred_spec, times_room, tv_insert, tv_new, tv_room, Times, TimesView};
use crate::config::types::{Average, DurationStyle};
use crate::datetime::{fmt_dur_text, FmtDur};
use crate::keymap::{sorted_text, KeyMap};
use crate::parse::current::{pkg_of, pkg_views, Pkg, PkgView};
use crate::parse::history::{Hist, HistView};
use crate::parse::moves::PkgMoves;
use crate::text::{dec_nat, push_u64, str_eq, to_string, views};
use vstd::prelude::*;
use vstd::utf8::{decode_utf8, encode_utf8};

verus! {

/// The state of the history scan of `predict`.
#[verifier::ext_equal]
pub struct PredictView {
    /// Merges started and not yet completed, by moved key: start time and whether binary.
    pub started: Map<Seq<char>, (i64, bool)>,
    /// Durations of completed builds, by moved package name.
    pub builds: Map<Seq<char>, TimesView>,
    /// Durations of completed binary merges, by moved package name.
    pub bins: Map<Seq<char>, TimesView>,
}

/// Only merge events are read for predictions.
pub open spec fn merge_event(h: HistView) -> bool {
    h is MergeStart || h is MergeBin || h is MergeStop
}

/// The durations of a package in a map, or none yet.
pub open spec fn times_or_new(m: Map<Seq<char>, TimesView>, k: Seq<char>) -> TimesView {
    if m.dom().contains(k) {
        m[k]
    } else {
        tv_new()
    }
}

/// What one merge event does to the scan: starts are keyed by their moved key (binary merges
/// too), and a completed merge adds its duration to its moved package name.
pub open spec fn predict_next(st: PredictView, h: HistView, m: Map<Seq<char>, Seq<char>>) -> PredictView {
    match h {
        HistView::MergeStart { ts, key, .. } => PredictView {
            started: st.started.insert(moved(m, key), (ts, false)),
            ..st
        },
        HistView::MergeBin { key, .. } => {
            let k = moved(m, key);
            if st.started.dom().contains(k) {
                PredictView { started: st.started.insert(k, (st.started[k].0, true)), ..st }
            } else {
                st
            }
        },
        HistView::MergeStop { ts, key, .. } => {
            let k = moved(m, key);
            if st.started.dom().contains(k) {
                let (start, bin) = st.started[k];
                let p = moved(m, ebuild_of(h));
                let d = (ts - start) as i64;
                if bin {
                    PredictView {
                        started: st.started.remove(k),
                        bins: st.bins.insert(p, tv_insert(times_or_new(st.bins, p), d)),
                        ..st
                    }
                } else {
                    PredictView {
                        started: st.started.remove(k),
                        builds: st.builds.insert(p, tv_insert(times_or_new(st.builds, p), d)),
                        ..st
                    }
                }
            } else {
                st
            }
        },
        _ => st,
    }
}

/// The duration a completed merge adds fits.
pub open spec fn predict_room(st: PredictView, h: HistView, m: Map<Seq<char>, Seq<char>>) -> bool {
    match h {
        HistView::MergeStop { ts, key, .. } => {
            let k = moved(m, key);
            st.started.dom().contains(k) ==> {
                let (start, bin) = st.started[k];
                let p = moved(m, ebuild_of(h));
                tv_room(
                    times_or_new(
                        if bin {
                            st.bins
                        } else {
                            st.builds
                        },
                        p,
                    ),
                    (ts - start) as i64,
                )
            }
        },
        _ => true,
    }
}

/// Start times are log timestamps (not negative).
pub open spec fn predict_starts_ok(st: PredictView) -> bool {
    forall|k: Seq<char>| #[trigger] st.started.dom().contains(k) ==> st.started[k].0 >= 0
}

/// The `predict` command: what the log says of past merges.
pub struct PredictState {
    started: KeyMap<(i64, bool)>,
    builds: KeyMap<Times>,
    bins: KeyMap<Times>,
}

/// The values of a map of durations.
pub open spec fn times_view(m: Map<Seq<char>, Times>) -> Map<Seq<char>, TimesView> {
    Map::new(|k: Seq<char>| m.dom().contains(k), |k: Seq<char>| m[k].tv())
}

impl PredictState {
    /// The state as plain values.
    pub closed spec fn view(&self) -> PredictView {
        PredictView {
            started: self.started.view(),
            builds: times_view(self.builds.view()),
            bins: times_view(self.bins.view()),
        }
    }

    /// Nothing seen yet.
    pub fn new() -> (r: Self)
        ensures
            r.view() == (PredictView { started: Map::empty(), builds: Map::empty(), bins: Map::empty() }),
    {
        let r = PredictState { started: KeyMap::new(), builds: KeyMap::new(), bins: KeyMap::new() };
        assert(r.view() =~= (PredictView { started: Map::empty(), builds: Map::empty(), bins: Map::empty() }));
        r
    }

    /// Takes one merge event of the log.
    pub fn step(&mut self, h: &Hist, moves: &PkgMoves)
        requires
            merge_event(h@),
            predict_starts_ok(old(self).view()),
            0 <= h@.ts(),
            h@.wf(),
            predict_room(old(self).view(), h@, moves.view()),
        ensures
            predict_starts_ok(final(self).view()),
            final(self).view() == predict_next(old(self).view(), h@, moves.view()),
    {
        let ghost v0 = self.view();
        match h {
            Hist::MergeStart { ts, key, .. } => {
                let k = moves.get(key.clone());
                self.started.insert(k, (*ts, false));
            },
            Hist::MergeBin { key, .. } => {
                let k = moves.get_ref(key);
                let t = match self.started.get(k.as_str()) {
                    Some(x) => Some(x.0),
                    None => None,
                };
                if let Some(t) = t {
                    self.started.insert(k.clone(), (t, true));
                }
            },
            Hist::MergeStop { ts, key, .. } => {
                let k = moves.get_ref(key);
                match self.started.remove(k.as_str()) {
                    Some((start, bin)) => {
                        proof {
                            crate::parse::history::lemma_wf_cuts(h@);
                        }
                        let e = h.ebuild();
                        let p = moves.get(to_string(e));
                        proof {
                            vstd::utf8::encode_utf8_decode_utf8(e@);
                        }
                        assert(e@ == ebuild_of(h@));
                        if bin {
                            let mut t = match self.bins.remove(p.as_str()) {
                                Some(t) => t,
                                None => Times::new(),
                            };
                            t.insert(*ts - start);
                            self.bins.insert(p, t);
                        } else {
                            let mut t = match self.builds.remove(p.as_str()) {
                                Some(t) => t,
                                None => Times::new(),
                            };
                            t.insert(*ts - start);
                            self.builds.insert(p, t);
                        }
                    },
                    None => {},
                }
            },
            _ => {},
        }
        assert(self.view() =~= predict_next(v0, h@, moves.view()));
        assert forall|k: Seq<char>| #[trigger]
            self.view().started.dom().contains(k) implies self.view().started[k].0 >= 0 by {
            if v0.started.dom().contains(k) {
            }
        }
    }
}

/// The `categ/name` part of a package.
pub open spec fn pkg_ebuild(p: PkgView) -> Seq<char> {
    decode_utf8(encode_utf8(p.key).take(p.pos - 1))
}

/// How long a pending package has been merging: since its logged start, when it is one of the
/// running merges, or when none is known and it started after the emerge run; else zero.
pub open spec fn elapsed_spec(st: PredictView, p: PkgView, running: Seq<PkgView>, start: i64, now: i64) -> int {
    if st.started.dom().contains(p.key) {
        let s = st.started[p.key].0;
        if running.contains(p) {
            now - s
        } else if running.len() == 0 && s > start {
            now - s
        } else {
            0
        }
    } else {
        0
    }
}

/// A pending package's elapsed time: when the emerge processes are building it and its start
/// is logged, the time since that start; when the log has no start for it, zero; when processes
/// run but not for it, zero; when no building process is known, the time since its logged
/// start if that came after the emerge run began, else zero.
pub proof fn lemma_elapsed(st: PredictView, p: PkgView, running: Seq<PkgView>, start: i64, now: i64)
    ensures
        st.started.dom().contains(p.key) && running.contains(p) ==> elapsed_spec(st, p, running, start, now)
            == now - st.started[p.key].0,
        !st.started.dom().contains(p.key) ==> elapsed_spec(st, p, running, start, now) == 0,
        running.len() > 0 && !running.contains(p) ==> elapsed_spec(st, p, running, start, now) == 0,
        running.len() == 0 && st.started.dom().contains(p.key) ==> elapsed_spec(
            st,
            p,
            running,
            start,
            now,
        ) == if st.started[p.key].0 > start {
            now - st.started[p.key].0
        } else {
            0
        },
{
}

/// The estimate of one pending package.
#[derive(Clone, Copy, Debug, PartialEq, Eq, Structural)]
pub struct PredRow {
    /// How long it has been merging.
    pub elapsed: i64,
    /// The duration to show: the prediction, or the default marked as unsure.
    pub shown: i64,
    /// The duration counted in the total.
    pub pred: i64,
    /// Whether the log knows the package.
    pub known: bool,
}

impl PredictState {
    /// Estimates one pending package, and forgets its start.
    pub fn predict_pkg(
        &mut self,
        p: &Pkg,
        running: &Vec<Pkg>,
        start: i64,
        now: i64,
        lim: u16,
        avg: Average,
        unknownb: i64,
        unknownc: i64,
    ) -> (r: PredRow)
        requires
            predict_starts_ok(old(self).view()),
            lim > 0,
            now >= 0,
            unknownb >= 0,
            unknownc >= 0,
        ensures
            predict_starts_ok(final(self).view()),
            final(self).view() == (PredictView {
                started: old(self).view().started.remove(p@.key),
                ..old(self).view()
            }),
            r.elapsed == elapsed_spec(
                old(self).view(),
                p@,
                running@.map_values(|q: Pkg| q@),
                start,
                now,
            ),
            ({
                let m = if p@.bin {
                    old(self).view().bins
                } else {
                    old(self).view().builds
                };
                &&& r.known == m.dom().contains(pkg_ebuild(p@))
                &&& r.known ==> r.shown == r.pred && r.pred == pred_spec(m[pkg_ebuild(p@)].recent, lim, avg)
                &&& !r.known ==> r.pred == (if p@.bin { unknownb } else { unknownc }) && r.shown
                    == i64::MIN + r.pred
            }),
    {
        let ghost v0 = self.view();
        let mut in_running = false;
        let mut i: usize = 0;
        while i < running.len()
            invariant
                i <= running@.len(),
                in_running == (exists|j: int| 0 <= j < i && running@[j]@ == p@),
            decreases running@.len() - i,
        {
            if running[i].same(p) {
                in_running = true;
            }
            i += 1;
        }
        assert(in_running == running@.map_values(|q: Pkg| q@).contains(p@)) by {
            if in_running {
                let j = choose|j: int| 0 <= j < running@.len() && running@[j]@ == p@;
                assert(running@.map_values(|q: Pkg| q@)[j] == p@);
            }
        }
        let elapsed = match self.started.remove(p.ebuild_version()) {
            Some((s, _)) => {
                assert(v0.started.dom().contains(p@.key));
                if in_running {
                    now - s
                } else if running.len() == 0 && s > start {
                    now - s
                } else {
                    0
                }
            },
            None => 0,
        };
        assert forall|k: Seq<char>| #[trigger]
            self.view().started.dom().contains(k) implies self.view().started[k].0 >= 0 by {
            assert(v0.started.dom().contains(k));
        }
        assert(self.view() =~= (PredictView { started: v0.started.remove(p@.key), ..v0 }));
        let e = p.ebuild();
        proof {
            vstd::utf8::encode_utf8_decode_utf8(e@);
        }
        assert(e@ == pkg_ebuild(p@));
        let found = if p.is_bin() {
            self.bins.get(e)
        } else {
            self.builds.get(e)
        };
        match found {
            Some(t) => {
                let pred = t.pred(lim, avg);
                PredRow { elapsed, shown: pred, pred, known: true }
            },
            None => {
                let u = if p.is_bin() {
                    unknownb
                } else {
                    unknownc
                };
                PredRow { elapsed, shown: i64::MIN + u, pred: u, known: false }
            },
        }
    }
}

/// The `predict` scan after the events `hs`, from nothing seen, with the moves `m`.
pub open spec fn predict_fold(hs: Seq<HistView>, m: Map<Seq<char>, Seq<char>>) -> PredictView
    decreases hs.len(),
{
    if hs.len() == 0 {
        PredictView { started: Map::empty(), builds: Map::empty(), bins: Map::empty() }
    } else {
        predict_next(predict_fold(hs.drop_last(), m), hs.last(), m)
    }
}

/// The pending merge of the moved key `k` after the events `hs`: the time of its latest start,
/// and whether a binary merge of it was announced since; none once a stop of `k` came.
pub open spec fn pending_start(hs: Seq<HistView>, m: Map<Seq<char>, Seq<char>>, k: Seq<char>) -> Option<
    (i64, bool),
>
    decreases hs.len(),
{
    if hs.len() == 0 {
        None
    } else {
        let before = pending_start(hs.drop_last(), m, k);
        match hs.last() {
            HistView::MergeStart { ts, key, .. } => if moved(m, key) == k {
                Some((ts, false))
            } else {
                before
            },
            HistView::MergeBin { key, .. } => if moved(m, key) == k {
                match before {
                    Some((s, _)) => Some((s, true)),
                    None => None,
                }
            } else {
                before
            },
            HistView::MergeStop { key, .. } => if moved(m, key) == k {
                None
            } else {
                before
            },
            _ => before,
        }
    }
}

/// The positive durations of the completed merges of package `p` (by moved name) among the
/// events `hs`, most recent first: binary merges when `bin`, builds otherwise.
pub open spec fn past_durations(
    hs: Seq<HistView>,
    m: Map<Seq<char>, Seq<char>>,
    p: Seq<char>,
    bin: bool,
) -> Seq<i64>
    decreases hs.len(),
{
    if hs.len() == 0 {
        Seq::empty()
    } else {
        let rest = past_durations(hs.drop_last(), m, p, bin);
        let h = hs.last();
        match h {
            HistView::MergeStop { ts, key, .. } => match pending_start(hs.drop_last(), m, moved(m, key)) {
                Some((s, b)) => {
                    let d = (ts - s) as i64;
                    if b == bin && moved(m, ebuild_of(h)) == p && d > 0 {
                        seq![d] + rest
                    } else {
                        rest
                    }
                },
                None => rest,
            },
            _ => rest,
        }
    }
}

/// After the events `hs`, the `predict` scan holds exactly the pending merges and, for each
/// package, the durations of its completed builds and of its completed binary merges.
proof fn lemma_predict_fold(hs: Seq<HistView>, m: Map<Seq<char>, Seq<char>>)
    ensures
        ({
            let st = predict_fold(hs, m);
            &&& forall|k: Seq<char>|
                #[trigger] st.started.dom().contains(k) == (pending_start(hs, m, k) is Some)
            &&& forall|k: Seq<char>|
                st.started.dom().contains(k) ==> #[trigger] pending_start(hs, m, k) == Some(
                    st.started[k],
                )
            &&& forall|p: Seq<char>|
                #[trigger] times_or_new(st.builds, p).recent == past_durations(hs, m, p, false)
            &&& forall|p: Seq<char>|
                #[trigger] times_or_new(st.bins, p).recent == past_durations(hs, m, p, true)
        }),
    decreases hs.len(),
{
    if hs.len() > 0 {
        let q = hs.drop_last();
        let h = hs.last();
        lemma_predict_fold(q, m);
        let a = predict_fold(q, m);
        let st = predict_fold(hs, m);
        assert forall|k: Seq<char>| #[trigger]
            st.started.dom().contains(k) == (pending_start(hs, m, k) is Some) by {
            assert(a.started.dom().contains(k) == (pending_start(q, m, k) is Some));
            if a.started.dom().contains(k) {
                assert(pending_start(q, m, k) == Some(a.started[k]));
            }
        }
        assert forall|k: Seq<char>|
            st.started.dom().contains(k) implies #[trigger] pending_start(hs, m, k) == Some(
                st.started[k],
            ) by {
            assert(a.started.dom().contains(k) == (pending_start(q, m, k) is Some));
            if a.started.dom().contains(k) {
                assert(pending_start(q, m, k) == Some(a.started[k]));
            }
        }
        assert forall|p: Seq<char>|
            #[trigger] times_or_new(st.builds, p).recent == past_durations(hs, m, p, false) by {
            assert(times_or_new(a.builds, p).recent == past_durations(q, m, p, false));
            if let HistView::MergeStop { ts, key, .. } = h {
                let k = moved(m, key);
                assert(a.started.dom().contains(k) == (pending_start(q, m, k) is Some));
                if a.started.dom().contains(k) {
                    assert(pending_start(q, m, k) == Some(a.started[k]));
                }
            }
        }
        assert forall|p: Seq<char>|
            #[trigger] times_or_new(st.bins, p).recent == past_durations(hs, m, p, true) by {
            assert(times_or_new(a.bins, p).recent == past_durations(q, m, p, true));
            if let HistView::MergeStop { ts, key, .. } = h {
                let k = moved(m, key);
                assert(a.started.dom().contains(k) == (pending_start(q, m, k) is Some));
                if a.started.dom().contains(k) {
                    assert(pending_start(q, m, k) == Some(a.started[k]));
                }
            }
        }
    }
}

/// A pending package is predicted from the durations of the past completed merges of its
/// package name (through the moves) and of its kind (binary or built) only, most recent first.
pub proof fn lemma_predict_history(hs: Seq<HistView>, m: Map<Seq<char>, Seq<char>>, p: Seq<char>)
    ensures
        times_or_new(predict_fold(hs, m).builds, p).recent == past_durations(hs, m, p, false),
        times_or_new(predict_fold(hs, m).bins, p).recent == past_durations(hs, m, p, true),
{
    lemma_predict_fold(hs, m);
}

/// The estimate of one pending package from the scan `st` (see [`PredictState::predict_pkg`]):
/// the prediction from the past merges of its name and kind when there are some, else the
/// default for its kind, shown as unsure.
pub open spec fn predict_row(
    st: PredictView,
    p: PkgView,
    running: Seq<PkgView>,
    start: i64,
    now: i64,
    lim: u16,
    avg: Average,
    unknownb: i64,
    unknownc: i64,
) -> PredRow {
    let m = if p.bin {
        st.bins
    } else {
        st.builds
    };
    let known = m.dom().contains(pkg_ebuild(p));
    let pred: i64 = if known {
        pred_spec(m[pkg_ebuild(p)].recent, lim, avg) as i64
    } else if p.bin {
        unknownb
    } else {
        unknownc
    };
    PredRow {
        elapsed: elapsed_spec(st, p, running, start, now) as i64,
        shown: if known {
            pred
        } else {
            (i64::MIN + pred) as i64
        },
        pred,
        known,
    }
}

/// The scan after estimating the packages `ps` in turn: each one's start is forgotten.
pub open spec fn after_estimates(st: PredictView, ps: Seq<PkgView>) -> PredictView
    decreases ps.len(),
{
    if ps.len() == 0 {
        st
    } else {
        let a = after_estimates(st, ps.drop_last());
        PredictView { started: a.started.remove(ps.last().key), ..a }
    }
}

/// The estimates of the packages `ps` in turn, each with whether it is binary.
pub open spec fn estimates(
    st: PredictView,
    ps: Seq<PkgView>,
    running: Seq<PkgView>,
    start: i64,
    now: i64,
    lim: u16,
    avg: Average,
    unknownb: i64,
    unknownc: i64,
) -> Seq<(bool, PredRow)>
    decreases ps.len(),
{
    if ps.len() == 0 {
        Seq::empty()
    } else {
        estimates(st, ps.drop_last(), running, start, now, lim, avg, unknownb, unknownc).push(
            (
                ps.last().bin,
                predict_row(
                    after_estimates(st, ps.drop_last()),
                    ps.last(),
                    running,
                    start,
                    now,
                    lim,
                    avg,
                    unknownb,
                    unknownc,
                ),
            ),
        )
    }
}

/// The rows of some estimates.
pub open spec fn row_parts(e: Seq<(bool, PredRow)>) -> Seq<PredRow> {
    e.map_values(|x: (bool, PredRow)| x.1)
}

/// The estimates of the first packages are the first estimates.
proof fn lemma_estimates_prefix(
    st: PredictView,
    ps: Seq<PkgView>,
    j: int,
    running: Seq<PkgView>,
    start: i64,
    now: i64,
    lim: u16,
    avg: Average,
    unknownb: i64,
    unknownc: i64,
)
    requires
        0 <= j <= ps.len(),
    ensures
        estimates(st, ps.take(j), running, start, now, lim, avg, unknownb, unknownc) == estimates(
            st,
            ps,
            running,
            start,
            now,
            lim,
            avg,
            unknownb,
            unknownc,
        ).take(j),
        estimates(st, ps, running, start, now, lim, avg, unknownb, unknownc).len() == ps.len(),
    decreases ps.len(),
{
    let e = estimates(st, ps, running, start, now, lim, avg, unknownb, unknownc);
    if ps.len() > 0 {
        lemma_estimates_prefix(st, ps.drop_last(), 0, running, start, now, lim, avg, unknownb, unknownc);
    }
    if j == ps.len() {
        assert(ps.take(j) =~= ps);
        assert(e.take(j) =~= e);
    } else {
        lemma_estimates_prefix(st, ps.drop_last(), j, running, start, now, lim, avg, unknownb, unknownc);
        assert(ps.drop_last().take(j) =~= ps.take(j));
        let e2 = estimates(st, ps.drop_last(), running, start, now, lim, avg, unknownb, unknownc);
        assert(e2.take(j) =~= e.take(j));
    }
}

/// When a list of packages fits in the totals, so do its first packages.
proof fn lemma_fold_fits_prefix(t: PredTotals, rows: Seq<(bool, PredRow)>, j: int)
    requires
        0 <= j <= rows.len(),
        fold_fits(t, rows),
    ensures
        fold_fits(t, rows.take(j)),
    decreases rows.len(),
{
    if j == rows.len() {
        assert(rows.take(j) =~= rows);
    } else {
        lemma_fold_fits_prefix(t, rows.drop_last(), j);
        assert(rows.drop_last().take(j) =~= rows.take(j));
    }
}

/// Forgetting starts keeps the start times valid.
proof fn lemma_after_estimates(st: PredictView, ps: Seq<PkgView>)
    requires
        predict_starts_ok(st),
    ensures
        predict_starts_ok(after_estimates(st, ps)),
        after_estimates(st, ps).builds == st.builds,
        after_estimates(st, ps).bins == st.bins,
    decreases ps.len(),
{
    if ps.len() > 0 {
        lemma_after_estimates(st, ps.drop_last());
        let a = after_estimates(st, ps.drop_last());
        let b = after_estimates(st, ps);
        assert forall|k: Seq<char>| #[trigger] b.started.dom().contains(k) implies b.started[k].0 >= 0 by {
            assert(a.started.dom().contains(k));
        }
    }
}

/// The totals of an estimate.
#[derive(Clone, Copy, Debug, PartialEq, Eq, Structural)]
pub struct PredTotals {
    pub count: usize,
    pub build: usize,
    pub bin: usize,
    pub unknown: usize,
    pub predict: i64,
    pub elapsed: i64,
}

/// The time still to wait for a package: its prediction minus what already elapsed, not
/// below zero.
pub open spec fn remaining(r: PredRow) -> int {
    if r.pred - r.elapsed > 0 {
        r.pred - r.elapsed
    } else {
        0
    }
}

/// One more package fits in the totals.
pub open spec fn totals_room(t: PredTotals, r: PredRow) -> bool {
    &&& t.count < usize::MAX
    &&& t.build < usize::MAX
    &&& t.bin < usize::MAX
    &&& t.unknown < usize::MAX
    &&& i64::MIN <= r.pred - r.elapsed <= i64::MAX
    &&& t.predict + remaining(r) <= i64::MAX
    &&& i64::MIN <= t.elapsed + r.elapsed <= i64::MAX
}

/// The totals with one more package, binary or not, counted.
pub open spec fn totals_add(t: PredTotals, bin: bool, r: PredRow) -> PredTotals {
    PredTotals {
        count: (t.count + 1) as usize,
        build: if bin {
            t.build
        } else {
            (t.build + 1) as usize
        },
        bin: if bin {
            (t.bin + 1) as usize
        } else {
            t.bin
        },
        unknown: if r.known {
            t.unknown
        } else {
            (t.unknown + 1) as usize
        },
        predict: (t.predict + remaining(r)) as i64,
        elapsed: (t.elapsed + r.elapsed) as i64,
    }
}

/// The totals after counting each package of `rows` in order, from `t`.
pub open spec fn totals_fold(t: PredTotals, rows: Seq<(bool, PredRow)>) -> PredTotals
    decreases rows.len(),
{
    if rows.len() == 0 {
        t
    } else {
        totals_add(totals_fold(t, rows.drop_last()), rows.last().0, rows.last().1)
    }
}

/// Each package of `rows` fits in the totals when its turn comes.
pub open spec fn fold_fits(t: PredTotals, rows: Seq<(bool, PredRow)>) -> bool
    decreases rows.len(),
{
    rows.len() == 0 || (fold_fits(t, rows.drop_last()) && totals_room(
        totals_fold(t, rows.drop_last()),
        rows.last().1,
    ))
}

/// The time still to wait over all the packages of `rows`.
pub open spec fn remaining_sum(rows: Seq<(bool, PredRow)>) -> int
    decreases rows.len(),
{
    if rows.len() == 0 {
        0
    } else {
        remaining_sum(rows.drop_last()) + remaining(rows.last().1)
    }
}

/// How many packages of `rows` are binary (`b`) or built (`!b`).
pub open spec fn bin_count(rows: Seq<(bool, PredRow)>, b: bool) -> int
    decreases rows.len(),
{
    if rows.len() == 0 {
        0
    } else {
        bin_count(rows.drop_last(), b) + if rows.last().0 == b {
            1int
        } else {
            0int
        }
    }
}

/// How many packages of `rows` the log does not know.
pub open spec fn unknown_count(rows: Seq<(bool, PredRow)>) -> int
    decreases rows.len(),
{
    if rows.len() == 0 {
        0
    } else {
        unknown_count(rows.drop_last()) + if rows.last().1.known {
            0int
        } else {
            1int
        }
    }
}

/// The time already spent over all the packages of `rows`.
pub open spec fn elapsed_sum(rows: Seq<(bool, PredRow)>) -> int
    decreases rows.len(),
{
    if rows.len() == 0 {
        0
    } else {
        elapsed_sum(rows.drop_last()) + rows.last().1.elapsed
    }
}

/// Counting the pending packages one by one from empty totals gives, over the whole list, the
/// number of packages, of builds, of binaries and of unknown ones, the sum of the time still
/// to wait for each (its prediction minus what elapsed, not below zero), and the sum of the
/// elapsed times.
pub proof fn lemma_totals_sum(rows: Seq<(bool, PredRow)>)
    requires
        fold_fits(PredTotals { count: 0, build: 0, bin: 0, unknown: 0, predict: 0, elapsed: 0 }, rows),
    ensures
        ({
            let t = totals_fold(
                PredTotals { count: 0, build: 0, bin: 0, unknown: 0, predict: 0, elapsed: 0 },
                rows,
            );
            &&& t.count == rows.len()
            &&& t.build == bin_count(rows, false)
            &&& t.bin == bin_count(rows, true)
            &&& t.unknown == unknown_count(rows)
            &&& t.predict == remaining_sum(rows)
            &&& t.elapsed == elapsed_sum(rows)
        }),
    decreases rows.len(),
{
    if rows.len() > 0 {
        lemma_totals_sum(rows.drop_last());
        let z = PredTotals { count: 0, build: 0, bin: 0, unknown: 0, predict: 0, elapsed: 0 };
        lemma_remaining_nonneg(rows.drop_last());
        assert(totals_room(totals_fold(z, rows.drop_last()), rows.last().1));
    }
}

/// The time still to wait is never negative.
proof fn lemma_remaining_nonneg(rows: Seq<(bool, PredRow)>)
    ensures
        remaining_sum(rows) >= 0,
    decreases rows.len(),
{
    if rows.len() > 0 {
        lemma_remaining_nonneg(rows.drop_last());
    }
}

impl PredTotals {
    /// No package yet.
    pub fn new() -> (r: Self)
        ensures
            r == (PredTotals { count: 0, build: 0, bin: 0, unknown: 0, predict: 0, elapsed: 0 }),
    {
        PredTotals { count: 0, build: 0, bin: 0, unknown: 0, predict: 0, elapsed: 0 }
    }

    /// Counts one more package, binary or not, with its estimate.
    pub fn add(&mut self, bin: bool, r: &PredRow)
        requires
            old(self).predict >= 0,
            totals_room(*old(self), *r),
        ensures
            final(self).predict >= 0,
            *final(self) == totals_add(*old(self), bin, *r),
    {
        self.count = self.count + 1;
        if bin {
            self.bin = self.bin + 1;
        } else {
            self.build = self.build + 1;
        }
        if !r.known {
            self.unknown = self.unknown + 1;
        }
        let d = r.pred - r.elapsed;
        if d > 0 {
            self.predict = self.predict + d;
        }
        self.elapsed = self.elapsed + r.elapsed;
    }
}

/// The list with each extra package it lacks added at its end, in order.
pub open spec fn add_missing(base: Seq<PkgView>, extra: Seq<PkgView>) -> Seq<PkgView>
    decreases extra.len(),
{
    if extra.len() == 0 {
        base
    } else {
        let b = add_missing(base, extra.drop_last());
        if b.contains(extra.last()) {
            b
        } else {
            b.push(extra.last())
        }
    }
}

/// The names of some packages.
pub open spec fn keys_of(s: Seq<PkgView>) -> Seq<Seq<char>> {
    s.map_values(|p: PkgView| p.key)
}

/// A merge started after the emerge run, and that the list does not name.
pub open spec fn late_start(st: PredictView, start: i64, base: Seq<PkgView>, k: Seq<char>) -> bool {
    &&& st.started.dom().contains(k)
    &&& st.started[k].0 > start
    &&& !keys_of(base).contains(k)
}

/// The packages after the list are the late starts, each once, sorted by name.
pub open spec fn late_tail(st: PredictView, start: i64, base: Seq<PkgView>, tail: Seq<PkgView>) -> bool {
    &&& sorted_text(keys_of(tail))
    &&& forall|i: int|
        0 <= i < tail.len() ==> late_start(st, start, base, #[trigger] tail[i].key) && Some(tail[i])
            == pkg_of(tail[i].key, st.started[tail[i].key].1)
    &&& forall|k: Seq<char>| late_start(st, start, base, k) ==> #[trigger] keys_of(tail).contains(k)
}

/// The pending list: the resume list, the running merges it lacks, and when no running merge is
/// known, the late starts.
pub open spec fn pending_ok(
    st: PredictView,
    resume: Seq<PkgView>,
    running: Seq<PkgView>,
    start: i64,
    r: Seq<PkgView>,
) -> bool {
    let base = add_missing(resume, running);
    &&& base.len() <= r.len()
    &&& r.take(base.len() as int) == base
    &&& running.len() > 0 ==> r.len() == base.len()
    &&& running.len() == 0 ==> late_tail(st, start, base, r.skip(base.len() as int))
}

/// Byte-wise order is transitive.
pub proof fn lemma_lex_trans(a: Seq<u8>, b: Seq<u8>, c: Seq<u8>)
    requires
        crate::parse::moves::lex_le(a, b),
        crate::parse::moves::lex_le(b, c),
    ensures
        crate::parse::moves::lex_le(a, c),
    decreases a.len(),
{
    if a.len() > 0 && b.len() > 0 && c.len() > 0 && a[0] == b[0] && b[0] == c[0] {
        lemma_lex_trans(a.drop_first(), b.drop_first(), c.drop_first());
    }
}

/// In a sorted sequence, every earlier element sorts before every later one.
pub proof fn lemma_sorted_pairs(s: Seq<Seq<char>>, i: int, j: int)
    requires
        sorted_text(s),
        0 <= i <= j < s.len(),
    ensures
        crate::parse::moves::lex_le(encode_utf8(s[i]), encode_utf8(s[j])),
    decreases j - i,
{
    if i == j {
        crate::parse::moves::lemma_lex_total(encode_utf8(s[i]), encode_utf8(s[i]));
    } else {
        lemma_sorted_pairs(s, i + 1, j);
        assert(crate::parse::moves::lex_le(encode_utf8(s[i]), encode_utf8(s[i + 1])));
        lemma_lex_trans(encode_utf8(s[i]), encode_utf8(s[i + 1]), encode_utf8(s[j]));
    }
}

/// Whether the list holds the package.
fn holds(v: &Vec<Pkg>, p: &Pkg) -> (r: bool)
    ensures
        r == pkg_views(v@).contains(p@),
{
    let mut i: usize = 0;
    while i < v.len()
        invariant
            i <= v@.len(),
            forall|j: int| 0 <= j < i ==> v@[j]@ != p@,
        decreases v@.len() - i,
    {
        if v[i].same(p) {
            assert(pkg_views(v@)[i as int] == p@);
            return true;
        }
        i += 1;
    }
    false
}

/// Whether a package of the first `n` of the list has this name.
fn names_in(v: &Vec<Pkg>, n: usize, k: &str) -> (r: bool)
    requires
        n <= v@.len(),
    ensures
        r == keys_of(pkg_views(v@).take(n as int)).contains(k@),
{
    let ghost ks = keys_of(pkg_views(v@).take(n as int));
    let mut i: usize = 0;
    while i < n
        invariant
            i <= n <= v@.len(),
            ks == keys_of(pkg_views(v@).take(n as int)),
            forall|j: int| 0 <= j < i ==> v@[j]@.key != k@,
        decreases n - i,
    {
        if str_eq(v[i].ebuild_version(), k) {
            assert(ks[i as int] == k@);
            return true;
        }
        i += 1;
    }
    assert forall|j: int| 0 <= j < ks.len() implies ks[j] != k@ by {
        assert(ks[j] == v@[j]@.key);
    }
    false
}

impl PredictState {
    /// The pending packages: the resume list, the running merges it lacks, and when no running
    /// merge is known, the merges that started after the emerge run and that the list does not
    /// name, by name.
    pub fn pending(&self, resume: Vec<Pkg>, running: &Vec<Pkg>, start: i64) -> (r: Vec<Pkg>)
        requires
            running@.len() == 0 ==> forall|k: Seq<char>|
                late_start(self.view(), start, pkg_views(resume@), k) ==> #[trigger] pkg_of(
                    k,
                    self.view().started[k].1,
                ) is Some,
        ensures
            pending_ok(self.view(), pkg_views(resume@), pkg_views(running@), start, pkg_views(r@)),
    {
        let ghost rv = pkg_views(resume@);
        let ghost xv = pkg_views(running@);
        let mut r = resume;
        let mut i: usize = 0;
        assert(xv.take(0) =~= Seq::<PkgView>::empty());
        while i < running.len()
            invariant
                i <= running@.len(),
                xv == pkg_views(running@),
                pkg_views(r@) == add_missing(rv, xv.take(i as int)),
            decreases running@.len() - i,
        {
            assert(xv.take(i + 1).drop_last() =~= xv.take(i as int));
            assert(xv.take(i + 1).last() == running@[i as int]@);
            if !holds(&r, &running[i]) {
                r.push(running[i].clone());
                assert(pkg_views(r@) =~= add_missing(rv, xv.take(i + 1)));
            }
            i += 1;
        }
        assert(xv.take(running@.len() as int) =~= xv);
        let ghost base = pkg_views(r@);
        assert(pkg_views(r@).take(base.len() as int) =~= base);
        if running.len() > 0 {
            return r;
        }
        assert(xv =~= Seq::<PkgView>::empty());
        assert(base == rv);
        let n0 = r.len();
        let keys = self.started.sorted_keys();
        let ghost st = self.view();
        let mut j: usize = 0;
        let ghost mut idx: Seq<int> = Seq::empty();
        assert(pkg_views(r@).skip(n0 as int) =~= Seq::<PkgView>::empty());
        while j < keys.len()
            invariant
                j <= keys@.len(),
                st == self.view(),
                n0 == base.len(),
                base == add_missing(rv, xv),
                n0 <= r@.len(),
                pkg_views(r@).take(n0 as int) == base,
                forall|k: Seq<char>|
                    late_start(st, start, base, k) ==> #[trigger] pkg_of(k, st.started[k].1) is Some,
                sorted_text(views(keys@)),
                forall|q: int| 0 <= q < keys@.len() ==> st.started.dom().contains(#[trigger] keys@[q]@),
                forall|k: Seq<char>| #[trigger] st.started.dom().contains(k) ==> views(keys@).contains(k),
                sorted_text(keys_of(pkg_views(r@).skip(n0 as int))),
                forall|q: int|
                    0 <= q < pkg_views(r@).skip(n0 as int).len() ==> late_start(
                        st,
                        start,
                        base,
                        #[trigger] pkg_views(r@).skip(n0 as int)[q].key,
                    ) && Some(pkg_views(r@).skip(n0 as int)[q]) == pkg_of(
                        pkg_views(r@).skip(n0 as int)[q].key,
                        st.started[pkg_views(r@).skip(n0 as int)[q].key].1,
                    ),
                forall|q: int| 0 <= q < j && late_start(st, start, base, #[trigger] views(keys@)[q])
                    ==> keys_of(pkg_views(r@).skip(n0 as int)).contains(views(keys@)[q]),
                idx.len() == r@.len() - n0,
                forall|w: int|
                    0 <= w < idx.len() ==> 0 <= #[trigger] idx[w] < j && views(keys@)[idx[w]]
                        == keys_of(pkg_views(r@).skip(n0 as int))[w],
            decreases keys@.len() - j,
        {
            let k = &keys[j];
            assert(views(keys@)[j as int] == k@);
            let (t, b) = match self.started.get(k.as_str()) {
                Some(x) => *x,
                None => {
                    assert(false);
                    return r;
                },
            };
            if t > start && !names_in(&r, n0, k.as_str()) {
                assert(late_start(st, start, base, k@));
                let p = match Pkg::try_new(k.as_str(), b) {
                    Some(p) => p,
                    None => {
                        assert(false);
                        return r;
                    },
                };
                let ghost old_tail = pkg_views(r@).skip(n0 as int);
                let ghost old_r = pkg_views(r@);
                r.push(p);
                let ghost tail = pkg_views(r@).skip(n0 as int);
                assert(tail =~= old_tail.push(p@));
                assert(pkg_views(r@).take(n0 as int) =~= old_r.take(n0 as int));
                assert(keys_of(tail) =~= keys_of(old_tail).push(k@));
                proof {
                    let old_idx = idx;
                    if old_tail.len() > 0 {
                        let q = old_idx.last();
                        assert(views(keys@)[q] == keys_of(old_tail)[old_tail.len() - 1]);
                        lemma_sorted_pairs(views(keys@), q, j as int);
                    }
                    assert forall|w: int| 0 <= w < old_tail.len() implies keys_of(old_tail)[w] != k@ by {
                        assert(views(keys@)[old_idx[w]] == keys_of(old_tail)[w]);
                    }
                    idx = old_idx.push(j as int);
                    assert forall|w: int|
                        0 <= w < idx.len() implies 0 <= #[trigger] idx[w] < j + 1 && views(keys@)[idx[w]]
                            == keys_of(tail)[w] by {
                        if w < old_idx.len() {
                            assert(idx[w] == old_idx[w]);
                            assert(keys_of(tail)[w] == keys_of(old_tail)[w]);
                        }
                    }
                }
                assert forall|q: int| 0 <= q < j + 1 && late_start(st, start, base, #[trigger] views(keys@)[q])
                    implies keys_of(tail).contains(views(keys@)[q]) by {
                    if q < j {
                        let w = choose|w: int| 0 <= w < keys_of(old_tail).len() && keys_of(old_tail)[w] == views(keys@)[q];
                        assert(keys_of(tail)[w] == views(keys@)[q]);
                    } else {
                        assert(keys_of(tail)[old_tail.len() as int] == k@);
                    }
                }
            }
            j += 1;
        }
        proof {
            let tail = pkg_views(r@).skip(n0 as int);
            assert forall|k: Seq<char>| late_start(st, start, base, k) implies #[trigger] keys_of(tail).contains(k) by {
                assert(views(keys@).contains(k));
                let q = choose|q: int| 0 <= q < views(keys@).len() && views(keys@)[q] == k;
            }
        }
        r
    }
}


impl PredictState {
    /// Whether the duration that this event adds still fits in its counts and totals, so that
    /// `step` may take it.
    pub fn room(&self, h: &Hist, moves: &PkgMoves) -> (r: bool)
        requires
            predict_starts_ok(self.view()),
            0 <= h@.ts(),
            h@.wf(),
        ensures
            r == predict_room(self.view(), h@, moves.view()),
    {
        match h {
            Hist::MergeStop { ts, key, .. } => {
                let k = moves.get_ref(key);
                match self.started.get(k.as_str()) {
                    Some(x) => {
                        let (start, bin) = *x;
                        assert(self.view().started.dom().contains(k@));
                        proof {
                            crate::parse::history::lemma_wf_cuts(h@);
                        }
                        let e = h.ebuild();
                        let p = moves.get(to_string(e));
                        proof {
                            vstd::utf8::encode_utf8_decode_utf8(e@);
                        }
                        let d = *ts - start;
                        let m = if bin {
                            &self.bins
                        } else {
                            &self.builds
                        };
                        match m.get(p.as_str()) {
                            Some(t) => times_room(t, d),
                            None => true,
                        }
                    },
                    None => true,
                }
            },
            _ => true,
        }
    }
}


impl PredictState {
    /// Estimates the pending packages in turn and adds them up: the rows, and the totals over the
    /// whole list; `None` when the totals do not fit.
    pub fn estimate_pending(
        self,
        pkgs: &Vec<Pkg>,
        running: &Vec<Pkg>,
        start: i64,
        now: i64,
        lim: u16,
        avg: Average,
        unknownb: i64,
        unknownc: i64,
    ) -> (r: Option<(Vec<PredRow>, PredTotals)>)
        requires
            predict_starts_ok(self.view()),
            lim > 0,
            now >= 0,
            unknownb >= 0,
            unknownc >= 0,
        ensures
            ({
                let e = estimates(
                    self.view(),
                    pkg_views(pkgs@),
                    pkg_views(running@),
                    start,
                    now,
                    lim,
                    avg,
                    unknownb,
                    unknownc,
                );
                let z = PredTotals { count: 0, build: 0, bin: 0, unknown: 0, predict: 0, elapsed: 0 };
                match r {
                    Some((rows, tot)) => {
                        &&& fold_fits(z, e)
                        &&& rows@ == row_parts(e)
                        &&& tot == totals_fold(z, e)
                        &&& tot.count == pkgs@.len()
                        &&& tot.build == bin_count(e, false)
                        &&& tot.bin == bin_count(e, true)
                        &&& tot.unknown == unknown_count(e)
                        &&& tot.predict == remaining_sum(e)
                        &&& tot.elapsed == elapsed_sum(e)
                    },
                    None => !fold_fits(z, e),
                }
            }),
    {
        let ghost v0 = self.view();
        let ghost ps = pkg_views(pkgs@);
        let ghost rv = pkg_views(running@);
        let ghost z = PredTotals { count: 0, build: 0, bin: 0, unknown: 0, predict: 0, elapsed: 0 };
        let mut st = self;
        let mut rows: Vec<PredRow> = Vec::new();
        let mut tot = PredTotals::new();
        let mut i: usize = 0;
        proof {
            lemma_after_estimates(v0, ps.take(0));
        }
        assert(ps.take(0) =~= Seq::<PkgView>::empty());
        while i < pkgs.len()
            invariant
                i <= pkgs@.len(),
                ps == pkg_views(pkgs@),
                rv == pkg_views(running@),
                lim > 0,
                now >= 0,
                unknownb >= 0,
                unknownc >= 0,
                predict_starts_ok(v0),
                v0 == self.view(),
                z == (PredTotals { count: 0, build: 0, bin: 0, unknown: 0, predict: 0, elapsed: 0 }),
                st.view() == after_estimates(v0, ps.take(i as int)),
                predict_starts_ok(st.view()),
                fold_fits(z, estimates(v0, ps.take(i as int), rv, start, now, lim, avg, unknownb, unknownc)),
                rows@ == row_parts(estimates(v0, ps.take(i as int), rv, start, now, lim, avg, unknownb, unknownc)),
                tot == totals_fold(z, estimates(v0, ps.take(i as int), rv, start, now, lim, avg, unknownb, unknownc)),
                tot.predict >= 0,
            decreases pkgs@.len() - i,
        {
            let ghost before = ps.take(i as int);
            let ghost e0 = estimates(v0, before, rv, start, now, lim, avg, unknownb, unknownc);
            assert(ps.take(i + 1).drop_last() =~= before);
            assert(ps.take(i + 1).last() == pkgs@[i as int]@);
            let p = &pkgs[i];
            let ghost sv = st.view();
            let r = st.predict_pkg(p, running, start, now, lim, avg, unknownb, unknownc);
            proof {
                lemma_after_estimates(v0, before);
            }
            assert(running@.map_values(|q: Pkg| q@) =~= rv);
            assert(r == predict_row(sv, p@, rv, start, now, lim, avg, unknownb, unknownc));
            let ghost e1 = estimates(v0, ps.take(i + 1), rv, start, now, lim, avg, unknownb, unknownc);
            assert(e1 == e0.push((p@.bin, r)));
            assert(e1.drop_last() =~= e0);
            if !tot.room(&r) {
                assert(!fold_fits(z, e1));
                proof {
                    let e = estimates(v0, ps, rv, start, now, lim, avg, unknownb, unknownc);
                    lemma_estimates_prefix(v0, ps, i + 1, rv, start, now, lim, avg, unknownb, unknownc);
                    if fold_fits(z, e) {
                        lemma_fold_fits_prefix(z, e, i + 1);
                        assert(false);
                    }
                }
                return None;
            }
            tot.add(p.is_bin(), &r);
            rows.push(r);
            assert(rows@ =~= row_parts(e1));
            i += 1;
        }
        assert(ps.take(i as int) =~= ps);
        proof {
            lemma_estimates_prefix(v0, ps, 0, rv, start, now, lim, avg, unknownb, unknownc);
            lemma_totals_sum(estimates(v0, ps, rv, start, now, lim, avg, unknownb, unknownc));
        }
        Some((rows, tot))
    }
}

impl PredTotals {
    /// Whether one more package fits in the totals, so that `add` may count it.
    pub fn room(&self, r: &PredRow) -> (b: bool)
        ensures
            b == totals_room(*self, *r),
    {
        let d = r.pred as i128 - r.elapsed as i128;
        let rem: i128 = if d > 0 {
            d
        } else {
            0
        };
        let e = self.elapsed as i128 + r.elapsed as i128;
        self.count < usize::MAX && self.build < usize::MAX && self.bin < usize::MAX && self.unknown
            < usize::MAX && i64::MIN as i128 <= d && d <= i64::MAX as i128 && self.predict as i128
            + rem <= i64::MAX as i128 && i64::MIN as i128 <= e && e <= i64::MAX as i128
    }
}


impl PredictState {
    /// Whether every merge that started after the emerge run and that the resume list does not
    /// name reads as a package, so that `pending` may list it.
    pub fn late_starts_parse(&self, resume: &Vec<Pkg>, start: i64) -> (r: bool)
        ensures
            r == forall|k: Seq<char>|
                late_start(self.view(), start, pkg_views(resume@), k) ==> #[trigger] pkg_of(
                    k,
                    self.view().started[k].1,
                ) is Some,
    {
        let keys = self.started.sorted_keys();
        let ghost st = self.view();
        let ghost base = pkg_views(resume@);
        assert(pkg_views(resume@).take(resume@.len() as int) =~= base);
        let mut j: usize = 0;
        while j < keys.len()
            invariant
                j <= keys@.len(),
                st == self.view(),
                base == pkg_views(resume@),
                forall|q: int| 0 <= q < keys@.len() ==> st.started.dom().contains(#[trigger] keys@[q]@),
                forall|k: Seq<char>| #[trigger] st.started.dom().contains(k) ==> views(keys@).contains(k),
                forall|q: int| 0 <= q < j && late_start(st, start, base, #[trigger] views(keys@)[q])
                    ==> pkg_of(views(keys@)[q], st.started[views(keys@)[q]].1) is Some,
            decreases keys@.len() - j,
        {
            let k = &keys[j];
            assert(views(keys@)[j as int] == k@);
            let (t, b) = match self.started.get(k.as_str()) {
                Some(x) => *x,
                None => {
                    assert(false);
                    return false;
                },
            };
            if t > start && !names_in(resume, resume.len(), k.as_str()) {
                assert(pkg_views(resume@).take(resume@.len() as int) =~= base);
                if Pkg::try_new(k.as_str(), b).is_none() {
                    assert(late_start(st, start, base, k@));
                    return false;
                }
            } else {
                assert(pkg_views(resume@).take(resume@.len() as int) =~= base);
            }
            j += 1;
        }
        assert forall|k: Seq<char>| late_start(st, start, base, k) implies #[trigger] pkg_of(
            k,
            st.started[k].1,
        ) is Some by {
            assert(views(keys@).contains(k));
            let q = choose|q: int| 0 <= q < views(keys@).len() && views(keys@)[q] == k;
        }
        true
    }
}

/// The parts of the estimate line: for each kind of pending merge that there is, its count after
/// `cnt` and its name after `clr` (plural above one), then the elapsed time when there is one.
pub open spec fn estimate_parts(
    t: PredTotals,
    cnt: Seq<char>,
    clr: Seq<char>,
    style: DurationStyle,
    dur: Seq<char>,
    qmark: Seq<char>,
) -> Seq<Seq<char>> {
    seq!["Estimate for "@] + (if t.build > 0 {
        seq![cnt, dec_nat(t.build as nat), clr, if t.build > 1 { " builds"@ } else { " build"@ }]
    } else {
        Seq::empty()
    }) + (if t.bin > 0 {
        seq![
            if t.build > 0 { ", "@ } else { ""@ },
            cnt,
            dec_nat(t.bin as nat),
            clr,
            if t.bin > 1 { " binaries"@ } else { " binary"@ },
        ]
    } else {
        Seq::empty()
    }) + (if t.unknown > 0 {
        seq![", "@, cnt, dec_nat(t.unknown as nat), clr, " unknown"@]
    } else {
        Seq::empty()
    }) + (if t.elapsed > 0 {
        seq![", "@, fmt_dur_text(t.elapsed, style, dur, qmark), clr, " elapsed"@]
    } else {
        Seq::empty()
    })
}

/// A count as a string.
fn count_text(n: usize) -> (r: String)
    ensures
        r@ == dec_nat(n as nat),
{
    let mut s = String::new();
    push_u64(&mut s, n as u64);
    s
}

impl PredTotals {
    /// The parts of the estimate line, counts after `cnt`, names after `clr`, and the elapsed
    /// time in a duration style.
    pub fn estimate(
        &self,
        cnt: &str,
        clr: &str,
        style: DurationStyle,
        dur: &str,
        qmark: &str,
    ) -> (r: Vec<String>)
        ensures
            views(r@) == estimate_parts(*self, cnt@, clr@, style, dur@, qmark@),
    {
        let mut v: Vec<String> = Vec::new();
        v.push(to_string("Estimate for "));
        let ghost a = views(v@);
        assert(a =~= seq!["Estimate for "@]);
        if self.build > 0 {
            v.push(to_string(cnt));
            v.push(count_text(self.build));
            v.push(to_string(clr));
            v.push(to_string(if self.build > 1 { " builds" } else { " build" }));
        }
        let ghost b = views(v@);
        assert(b =~= a + (if self.build > 0 {
            seq![cnt@, dec_nat(self.build as nat), clr@, if self.build > 1 { " builds"@ } else { " build"@ }]
        } else {
            Seq::empty()
        }));
        if self.bin > 0 {
            v.push(to_string(if self.build > 0 { ", " } else { "" }));
            v.push(to_string(cnt));
            v.push(count_text(self.bin));
            v.push(to_string(clr));
            v.push(to_string(if self.bin > 1 { " binaries" } else { " binary" }));
        }
        let ghost c = views(v@);
        assert(c =~= b + (if self.bin > 0 {
            seq![
                if self.build > 0 { ", "@ } else { ""@ },
                cnt@,
                dec_nat(self.bin as nat),
                clr@,
                if self.bin > 1 { " binaries"@ } else { " binary"@ },
            ]
        } else {
            Seq::empty()
        }));
        if self.unknown > 0 {
            v.push(to_string(", "));
            v.push(to_string(cnt));
            v.push(count_text(self.unknown));
            v.push(to_string(clr));
            v.push(to_string(" unknown"));
        }
        let ghost d = views(v@);
        assert(d =~= c + (if self.unknown > 0 {
            seq![", "@, cnt@, dec_nat(self.unknown as nat), clr@, " unknown"@]
        } else {
            Seq::empty()
        }));
        if self.elapsed > 0 {
            v.push(to_string(", "));
            v.push(FmtDur(self.elapsed).text(style, dur, qmark));
            v.push(to_string(clr));
            v.push(to_string(" elapsed"));
        }
        assert(views(v@) =~= d + (if self.elapsed > 0 {
            seq![", "@, fmt_dur_text(self.elapsed, style, dur@, qmark@), clr@, " elapsed"@]
        } else {
            Seq::empty()
        }));
        v
    }
}

} // verus!
