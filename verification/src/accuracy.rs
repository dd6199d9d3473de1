//! The decisions of the `accuracy` command: what each completed merge was predicted to take.
use crate::commands::{
    ebuild_of, pending_merge, pred_spec, times_room, tv_insert, tv_room, Times, TimesView,
};
use crate::config::types::Average;
use crate::keymap::KeyMap;
use crate::parse::history::{Hist, HistView};
use crate::predict::{merge_event, times_or_new, times_view};
use crate::text::to_string;
use vstd::prelude::*;

verus! {

/// The state of the `accuracy` command between events.
#[verifier::ext_equal]
pub struct AccuracyView {
    /// Merges started and not yet completed, by key.
    pub starts: Map<Seq<char>, i64>,
    /// Durations of completed merges, by package name.
    pub times: Map<Seq<char>, TimesView>,
    /// Whether a merge completed.
    pub found: bool,
}

/// A completed merge, with the prediction made before it (`None` without data).
pub struct AccRow {
    pub ts: i64,
    pub key: String,
    pub actual: i64,
    pub pred: Option<i64>,
}

/// What one merge event does: a completed merge with a known start is compared to the
/// prediction from the merges before it, then added to them.
pub open spec fn accuracy_next(st: AccuracyView, h: HistView, lim: u16, avg: Average) -> (
    AccuracyView,
    Option<(i64, Seq<char>, int, Option<int>)>,
) {
    match h {
        HistView::MergeStart { ts, key, .. } => (AccuracyView { starts: st.starts.insert(key, ts), ..st }, None),
        HistView::MergeStop { ts, key, .. } => if st.starts.dom().contains(key) {
            let actual = ts - st.starts[key];
            let p = ebuild_of(h);
            let t = times_or_new(st.times, p);
            let pred = pred_spec(t.recent, lim, avg);
            (
                AccuracyView {
                    starts: st.starts.remove(key),
                    times: st.times.insert(p, tv_insert(t, actual as i64)),
                    found: true,
                },
                Some(
                    (
                        ts,
                        key,
                        actual,
                        if pred == -1 {
                            None
                        } else {
                            Some(pred)
                        },
                    ),
                ),
            )
        } else {
            (AccuracyView { found: true, ..st }, None)
        },
        _ => (st, None),
    }
}

/// The duration this event adds fits.
pub open spec fn accuracy_room(st: AccuracyView, h: HistView) -> bool {
    match h {
        HistView::MergeStop { ts, key, .. } => st.starts.dom().contains(key) ==> tv_room(
            times_or_new(st.times, ebuild_of(h)),
            (ts - st.starts[key]) as i64,
        ),
        _ => true,
    }
}

/// Start times are log timestamps (not negative).
pub open spec fn accuracy_starts_ok(st: AccuracyView) -> bool {
    forall|k: Seq<char>| #[trigger] st.starts.dom().contains(k) ==> st.starts[k] >= 0
}

/// The `accuracy` command between events.
pub struct AccuracyState {
    starts: KeyMap<i64>,
    times: KeyMap<Times>,
    found: bool,
}

impl AccuracyState {
    /// The state as plain values.
    pub closed spec fn view(&self) -> AccuracyView {
        AccuracyView { starts: self.starts.view(), times: times_view(self.times.view()), found: self.found }
    }

    /// Nothing seen yet.
    pub fn new() -> (r: Self)
        ensures
            r.view() == (AccuracyView { starts: Map::empty(), times: Map::empty(), found: false }),
    {
        let r = AccuracyState { starts: KeyMap::new(), times: KeyMap::new(), found: false };
        assert(r.view() =~= (AccuracyView { starts: Map::empty(), times: Map::empty(), found: false }));
        r
    }

    /// Whether a merge completed.
    pub fn found(&self) -> (r: bool)
        ensures
            r == self.view().found,
    {
        self.found
    }

    /// Takes one merge event; returns the row of a completed merge with a known start.
    pub fn step(&mut self, h: &Hist, lim: u16, avg: Average) -> (r: Option<AccRow>)
        requires
            h@ is MergeStart || h@ is MergeStop,
            lim > 0,
            accuracy_starts_ok(old(self).view()),
            0 <= h@.ts(),
            h@.wf(),
            accuracy_room(old(self).view(), h@),
        ensures
            accuracy_starts_ok(final(self).view()),
            (final(self).view(), match r {
                Some(a) => Some((a.ts, a.key@, a.actual as int, match a.pred {
                    Some(p) => Some(p as int),
                    None => None::<int>,
                })),
                None => None,
            }) == accuracy_next(old(self).view(), h@, lim, avg),
    {
        let ghost v0 = self.view();
        let r = match h {
            Hist::MergeStart { ts, key, .. } => {
                self.starts.insert(key.clone(), *ts);
                None
            },
            Hist::MergeStop { ts, key, .. } => {
                self.found = true;
                match self.starts.remove(key.as_str()) {
                    Some(start) => {
                        assert(v0.starts.dom().contains(key@));
                        proof {
                            crate::parse::history::lemma_wf_cuts(h@);
                        }
                        let e = h.ebuild();
                        proof {
                            vstd::utf8::encode_utf8_decode_utf8(e@);
                        }
                        assert(e@ == ebuild_of(h@));
                        let mut t = match self.times.remove(e) {
                            Some(t) => t,
                            None => Times::new(),
                        };
                        let actual = *ts - start;
                        let p = t.pred(lim, avg);
                        t.insert(actual);
                        self.times.insert(to_string(e), t);
                        Some(
                            AccRow {
                                ts: *ts,
                                key: key.clone(),
                                actual,
                                pred: if p == -1 {
                                    None
                                } else {
                                    Some(p)
                                },
                            },
                        )
                    },
                    None => None,
                }
            },
            _ => None,
        };
        assert(self.view().starts =~= accuracy_next(v0, h@, lim, avg).0.starts);
        assert(self.view().times =~= accuracy_next(v0, h@, lim, avg).0.times);
        assert forall|k: Seq<char>| #[trigger]
            self.view().starts.dom().contains(k) implies self.view().starts[k] >= 0 by {
            if v0.starts.dom().contains(k) {
            }
        }
        r
    }
}


impl AccuracyState {
    /// Whether the duration that this event adds still fits in its counts and totals, so that
    /// `step` may take it.
    pub fn room(&self, h: &Hist) -> (r: bool)
        requires
            accuracy_starts_ok(self.view()),
            0 <= h@.ts(),
            h@.wf(),
        ensures
            r == accuracy_room(self.view(), h@),
    {
        match h {
            Hist::MergeStop { ts, key, .. } => match self.starts.get(key.as_str()) {
                Some(x) => {
                    let start = *x;
                    assert(self.view().starts.dom().contains(key@));
                    proof {
                        crate::parse::history::lemma_wf_cuts(h@);
                    }
                    let e = h.ebuild();
                    proof {
                        vstd::utf8::encode_utf8_decode_utf8(e@);
                    }
                    let d = *ts - start;
                    match self.times.get(e) {
                        Some(t) => times_room(t, d),
                        None => true,
                    }
                },
                None => true,
            },
            _ => true,
        }
    }
}

/// The `accuracy` state after the events `hs`, from nothing seen.
pub open spec fn accuracy_fold(hs: Seq<HistView>, lim: u16, avg: Average) -> AccuracyView
    decreases hs.len(),
{
    if hs.len() == 0 {
        AccuracyView { starts: Map::empty(), times: Map::empty(), found: false }
    } else {
        accuracy_next(accuracy_fold(hs.drop_last(), lim, avg), hs.last(), lim, avg).0
    }
}

/// The positive durations of the completed merges of package `p` among the events `hs`, most
/// recent first: each stop with a pending start of the same key gives the time between them.
pub open spec fn merge_durations(hs: Seq<HistView>, p: Seq<char>) -> Seq<i64>
    decreases hs.len(),
{
    if hs.len() == 0 {
        Seq::empty()
    } else {
        let rest = merge_durations(hs.drop_last(), p);
        let h = hs.last();
        match h {
            HistView::MergeStop { ts, key, .. } => match pending_merge(hs.drop_last(), key) {
                Some(s) => {
                    let d = (ts - s) as i64;
                    if ebuild_of(h) == p && d > 0 {
                        seq![d] + rest
                    } else {
                        rest
                    }
                },
                None => rest,
            },
            _ => rest,
        }
    }
}

/// After the events `hs`, the `accuracy` state holds exactly the pending starts and, for each
/// package, the durations of its completed merges.
proof fn lemma_accuracy_fold(hs: Seq<HistView>, lim: u16, avg: Average)
    ensures
        ({
            let st = accuracy_fold(hs, lim, avg);
            &&& forall|k: Seq<char>|
                #[trigger] st.starts.dom().contains(k) == (pending_merge(hs, k) is Some)
            &&& forall|k: Seq<char>|
                st.starts.dom().contains(k) ==> #[trigger] pending_merge(hs, k) == Some(
                    st.starts[k],
                )
            &&& forall|p: Seq<char>|
                #[trigger] times_or_new(st.times, p).recent == merge_durations(hs, p)
        }),
    decreases hs.len(),
{
    if hs.len() > 0 {
        let q = hs.drop_last();
        let h = hs.last();
        lemma_accuracy_fold(q, lim, avg);
        let a = accuracy_fold(q, lim, avg);
        let st = accuracy_fold(hs, lim, avg);
        assert forall|k: Seq<char>| #[trigger]
            st.starts.dom().contains(k) == (pending_merge(hs, k) is Some) by {
            assert(a.starts.dom().contains(k) == (pending_merge(q, k) is Some));
        }
        assert forall|k: Seq<char>|
            st.starts.dom().contains(k) implies #[trigger] pending_merge(hs, k) == Some(
                st.starts[k],
            ) by {
            assert(a.starts.dom().contains(k) == (pending_merge(q, k) is Some));
            if a.starts.dom().contains(k) {
                assert(pending_merge(q, k) == Some(a.starts[k]));
            }
        }
        assert forall|p: Seq<char>|
            #[trigger] times_or_new(st.times, p).recent == merge_durations(hs, p) by {
            assert(times_or_new(a.times, p).recent == merge_durations(q, p));
            if let HistView::MergeStop { ts, key, .. } = h {
                assert(a.starts.dom().contains(key) == (pending_merge(q, key) is Some));
                if a.starts.dom().contains(key) {
                    assert(pending_merge(q, key) == Some(a.starts[key]));
                }
            }
        }
    }
}

/// In the `accuracy` command, a completed merge with a known start is compared with the
/// prediction from the durations of the earlier completed merges of the same package only,
/// most recent first (none for the first one); a stop without a start gives no row.
pub proof fn lemma_accuracy_pred(hs: Seq<HistView>, h: HistView, lim: u16, avg: Average)
    ensures
        ({
            let r = accuracy_next(accuracy_fold(hs, lim, avg), h, lim, avg).1;
            match h {
                HistView::MergeStop { ts, key, .. } => match pending_merge(hs, key) {
                    Some(s) => {
                        let pred = pred_spec(merge_durations(hs, ebuild_of(h)), lim, avg);
                        r == Some(
                            (
                                ts,
                                key,
                                ts - s,
                                if pred == -1 {
                                    None
                                } else {
                                    Some(pred)
                                },
                            ),
                        )
                    },
                    None => r is None,
                },
                _ => r is None,
            }
        }),
{
    lemma_accuracy_fold(hs, lim, avg);
    let st = accuracy_fold(hs, lim, avg);
    if let HistView::MergeStop { key, .. } = h {
        assert(st.starts.dom().contains(key) == (pending_merge(hs, key) is Some));
        let p = ebuild_of(h);
        assert(times_or_new(st.times, p).recent == merge_durations(hs, p));
    }
}

} // verus!
