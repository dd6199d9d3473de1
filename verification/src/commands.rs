//! The decisions behind the commands: merge time statistics, predictions and the event loops of
//! `log`, `stats`, `predict` and `accuracy`.
use crate::config::types::Average;
use crate::keymap::{sorted_text, KeyMap};
use crate::parse::moves::PkgMoves;
use crate::text::{split_words, str_eq, to_string, views, words};
use vstd::utf8::{decode_utf8, encode_utf8};
use crate::parse::history::{Hist, HistView};
use vstd::prelude::*;
use vstd::relations::{sorted_by, total_ordering};
use vstd::seq_lib::lemma_sorted_unique;

verus! {

broadcast use vstd::seq_lib::group_to_multiset_ensures;

/// The order in which durations are sorted.
pub open spec fn le(a: i64, b: i64) -> bool {
    a <= b
}

/// `s` in increasing order.
pub open spec fn sorted(s: Seq<i64>) -> Seq<i64> {
    s.sort_by(|a: i64, b: i64| le(a, b))
}

/// The middle value of a sorted sequence, or the mean of the two middle values.
pub open spec fn median(s: Seq<i64>) -> int {
    let h = (s.len() / 2) as int;
    if s.len() % 2 == 0 {
        (s[h - 1] + s[h]) / 2
    } else {
        s[h] as int
    }
}

/// The sum of a sequence.
pub open spec fn seq_sum(s: Seq<i64>) -> int
    decreases s.len(),
{
    if s.len() == 0 {
        0
    } else {
        seq_sum(s.drop_last()) + s.last()
    }
}

/// The sum of the values weighted `l`, `l - 1`, ... from the first one on.
pub open spec fn weighted_sum(s: Seq<i64>, l: int) -> int
    decreases s.len(),
{
    if s.len() == 0 {
        0
    } else {
        weighted_sum(s.drop_last(), l) + s.last() * (l - (s.len() - 1))
    }
}

/// The sum of the weights `l`, `l - 1`, ... of the first `n` values.
pub open spec fn weight_total(l: int, n: nat) -> int
    decreases n,
{
    if n == 0 {
        0
    } else {
        weight_total(l, (n - 1) as nat) + (l - (n - 1))
    }
}

/// Each value repeated as many times as its weight: `l` times for the first one, then `l - 1`...
pub open spec fn weighted_copies(s: Seq<i64>, l: int) -> Seq<i64>
    decreases s.len(),
{
    if s.len() == 0 {
        Seq::empty()
    } else {
        weighted_copies(s.drop_last(), l) + Seq::new(
            (l - (s.len() - 1)) as nat,
            |i: int| s.last(),
        )
    }
}

/// How many of the most recent values a prediction looks at.
pub open spec fn window(len: nat, lim: u16) -> int {
    if len < lim {
        len as int
    } else {
        lim as int
    }
}

/// The prediction from the durations, most recent first: `-1` without data, else the chosen
/// average of the `lim` most recent ones.
pub open spec fn pred_spec(vals: Seq<i64>, lim: u16, avg: Average) -> int {
    if vals.len() == 0 {
        -1
    } else {
        let l = window(vals.len(), lim);
        let s = vals.take(l);
        match avg {
            Average::Arith => seq_sum(s) / l,
            Average::Median => median(sorted(s)),
            Average::WeightedArith => weighted_sum(s, l) / weight_total(l, l as nat),
            Average::WeightedMedian => median(sorted(weighted_copies(s, l))),
        }
    }
}

/// `le` is a total order.
pub proof fn lemma_le_total()
    ensures
        total_ordering(|a: i64, b: i64| le(a, b)),
{
}

/// A sorted copy of `v`.
pub fn sort_copy(v: &Vec<i64>) -> (r: Vec<i64>)
    ensures
        r@ == sorted(v@),
{
    let ghost leq = |a: i64, b: i64| le(a, b);
    let mut out: Vec<i64> = Vec::new();
    let mut k: usize = 0;
    while k < v.len()
        invariant
            k <= v@.len(),
            sorted_by(out@, leq),
            out@.to_multiset() == v@.take(k as int).to_multiset(),
            leq == (|a: i64, b: i64| le(a, b)),
        decreases v@.len() - k,
    {
        let x = v[k];
        let mut p: usize = 0;
        while p < out.len() && out[p] <= x
            invariant
                p <= out@.len(),
                forall|q: int| 0 <= q < p ==> out@[q] <= x,
            decreases out@.len() - p,
        {
            p += 1;
        }
        let ghost old_out = out@;
        out.insert(p, x);
        assert(out@ == old_out.insert(p as int, x));
        assert forall|i: int, j: int| 0 <= i < j < out@.len() implies #[trigger] leq(
            out@[i],
            out@[j],
        ) by {
            if j < p {
                assert(leq(old_out[i], old_out[j]));
            } else if j == p {
                assert(old_out[i] <= x);
            } else if i < p {
                assert(leq(old_out[i], old_out[j - 1]));
                if p < old_out.len() {
                    assert(leq(old_out[i], old_out[p as int]));
                }
            } else if i == p {
                assert(out@[i] == x);
                assert(x < old_out[p as int]);
                assert(leq(old_out[p as int], old_out[j - 1]) || j - 1 == p);
            } else {
                assert(leq(old_out[i - 1], old_out[j - 1]));
            }
        }
        assert(v@.take(k + 1) =~= v@.take(k as int).push(x));
        k += 1;
    }
    proof {
        lemma_le_total();
        assert(v@.take(v@.len() as int) =~= v@);
        v@.lemma_sort_by_ensures(leq);
        lemma_sorted_unique(out@, sorted(v@), leq);
    }
    out
}

/// All values are positive.
pub open spec fn all_positive(s: Seq<i64>) -> bool {
    forall|i: int| 0 <= i < s.len() ==> s[i] > 0
}

/// Sorting keeps the values positive.
pub proof fn lemma_sorted_positive(s: Seq<i64>)
    requires
        all_positive(s),
    ensures
        all_positive(sorted(s)),
        sorted(s).len() == s.len(),
        sorted_by(sorted(s), |a: i64, b: i64| le(a, b)),
{
    lemma_le_total();
    s.lemma_sort_by_ensures(|a: i64, b: i64| le(a, b));
    assert(s.to_multiset().len() == s.len());
    assert(sorted(s).to_multiset().len() == sorted(s).len());
    assert forall|i: int| 0 <= i < sorted(s).len() implies sorted(s)[i] > 0 by {
        assert(sorted(s).contains(sorted(s)[i]));
    }
}

/// The median of sorted positive values.
fn median_sorted(s: &Vec<i64>) -> (r: i64)
    requires
        s@.len() > 0,
        all_positive(s@),
    ensures
        r as int == median(s@),
{
    let n = s.len();
    let h = n / 2;
    if n % 2 == 0 {
        let a = s[h - 1] as u128;
        let b = s[h] as u128;
        ((a + b) / 2) as i64
    } else {
        s[h]
    }
}

/// Durations of past events, most recent first, to predict the next one.
pub struct Times {
    vals: Vec<i64>,
    count: i64,
    tot: i64,
}

impl Times {
    /// Only positive durations are kept.
    #[verifier::type_invariant]
    spec fn inv(self) -> bool {
        all_positive(self.vals@)
    }

    /// The kept durations, most recent first.
    pub closed spec fn recent(&self) -> Seq<i64> {
        self.vals@
    }

    /// How many durations were inserted, kept or not.
    pub closed spec fn n(&self) -> int {
        self.count as int
    }

    /// The sum of the kept durations.
    pub closed spec fn total(&self) -> int {
        self.tot as int
    }

    /// No data yet.
    pub fn new() -> (r: Self)
        ensures
            r.recent() == Seq::<i64>::empty(),
            r.n() == 0,
            r.total() == 0,
    {
        Times { vals: Vec::new(), count: 0, tot: 0 }
    }

    /// Counts a new duration, and keeps it in front when it is positive.
    pub fn insert(&mut self, t: i64)
        requires
            old(self).n() < i64::MAX,
            t > 0 ==> old(self).total() + t <= i64::MAX,
        ensures
            final(self).n() == old(self).n() + 1,
            final(self).recent() == (if t > 0 {
                seq![t] + old(self).recent()
            } else {
                old(self).recent()
            }),
            final(self).total() == old(self).total() + (if t > 0 {
                t as int
            } else {
                0
            }),
    {
        proof {
            use_type_invariant(&*self);
        }
        let ghost old_vals = self.vals@;
        self.count = self.count + 1;
        if t > 0 {
            let mut v: Vec<i64> = Vec::new();
            std::mem::swap(&mut v, &mut self.vals);
            v.insert(0, t);
            assert(v@ =~= seq![t] + old_vals);
            std::mem::swap(&mut v, &mut self.vals);
            self.tot = self.tot + t;
        }
    }

    /// How many durations were inserted.
    pub fn count(&self) -> (r: i64)
        ensures
            r == self.n(),
    {
        self.count
    }

    /// The sum of the positive durations.
    pub fn tot(&self) -> (r: i64)
        ensures
            r == self.total(),
    {
        self.tot
    }

    /// Predicts the next duration from the `lim` most recent ones, with the chosen average;
    /// `-1` when there is no data.
    pub fn pred(&self, lim: u16, avg: Average) -> (r: i64)
        requires
            self.recent().len() > 0 ==> lim > 0,
        ensures
            r as int == pred_spec(self.recent(), lim, avg),
    {
        proof {
            use_type_invariant(self);
        }
        let n = self.vals.len();
        if n == 0 {
            return -1;
        }
        let l: usize = if n < lim as usize {
            n
        } else {
            lim as usize
        };
        let ghost s = self.vals@.take(l as int);
        assert(l as int == window(n as nat, lim));
        match avg {
            Average::Arith => {
                let mut sum: u128 = 0;
                let mut i: usize = 0;
                while i < l
                    invariant
                        i <= l <= n == self.vals@.len(),
                        s == self.vals@.take(l as int),
                        all_positive(self.vals@),
                        sum == seq_sum(s.take(i as int)),
                        sum <= i * (i64::MAX as int),
                    decreases l - i,
                {
                    assert(s.take(i + 1).drop_last() =~= s.take(i as int));
                    sum = sum + self.vals[i] as u128;
                    i += 1;
                }
                assert(s.take(l as int) =~= s);
                assert(sum / (l as u128) <= i64::MAX) by (nonlinear_arith)
                    requires
                        sum <= l * (i64::MAX as int),
                        l > 0,
                ;
                (sum / (l as u128)) as i64
            },
            Average::Median => {
                let mut w: Vec<i64> = Vec::new();
                let mut i: usize = 0;
                while i < l
                    invariant
                        i <= l <= n == self.vals@.len(),
                        s == self.vals@.take(l as int),
                        all_positive(self.vals@),
                        w@ == s.take(i as int),
                    decreases l - i,
                {
                    w.push(self.vals[i]);
                    assert(w@ =~= s.take(i + 1));
                    i += 1;
                }
                assert(s.take(l as int) =~= s);
                proof {
                    lemma_sorted_positive(w@);
                }
                let sorted_w = sort_copy(&w);
                median_sorted(&sorted_w)
            },
            Average::WeightedArith => {
                let mut sum: u128 = 0;
                let mut wt: u128 = 0;
                let mut i: usize = 0;
                while i < l
                    invariant
                        i <= l <= n == self.vals@.len(),
                        l <= u16::MAX,
                        s == self.vals@.take(l as int),
                        all_positive(self.vals@),
                        sum == weighted_sum(s.take(i as int), l as int),
                        wt == weight_total(l as int, i as nat),
                        wt <= i * (u16::MAX as int),
                        sum <= wt * (i64::MAX as int),
                    decreases l - i,
                {
                    assert(s.take(i + 1).drop_last() =~= s.take(i as int));
                    let v = self.vals[i] as u128;
                    let k = (l - i) as u128;
                    assert(v * k <= (i64::MAX as int) * k) by (nonlinear_arith)
                        requires
                            v <= i64::MAX,
                    ;
                    assert((wt + k) * (i64::MAX as int) == wt * (i64::MAX as int) + k * (
                    i64::MAX as int)) by (nonlinear_arith);
                    assert(wt * (i64::MAX as int) <= (u16::MAX as int) * (u16::MAX as int) * (
                    i64::MAX as int)) by (nonlinear_arith)
                        requires
                            wt <= i * (u16::MAX as int),
                            i <= u16::MAX,
                    ;
                    sum = sum + v * k;
                    wt = wt + k;
                    i += 1;
                }
                assert(s.take(l as int) =~= s);
                assert(wt > 0) by {
                    assert(weight_total(l as int, l as nat) >= l as int) by {
                        lemma_weight_total_bound(l as int, l as nat);
                    }
                }
                assert(sum / wt <= i64::MAX) by (nonlinear_arith)
                    requires
                        sum <= wt * (i64::MAX as int),
                        wt > 0,
                ;
                (sum / wt) as i64
            },
            Average::WeightedMedian => {
                let mut e: Vec<i64> = Vec::new();
                let mut i: usize = 0;
                while i < l
                    invariant
                        i <= l <= n == self.vals@.len(),
                        s == self.vals@.take(l as int),
                        all_positive(self.vals@),
                        all_positive(e@),
                        e@ == weighted_copies(s.take(i as int), l as int),
                    decreases l - i,
                {
                    let v = self.vals[i];
                    let ghost before = e@;
                    let mut j: usize = 0;
                    while j < l - i
                        invariant
                            i < l,
                            j <= l - i,
                            v > 0,
                            all_positive(e@),
                            e@ == before + Seq::new(j as nat, |q: int| v),
                        decreases l - i - j,
                    {
                        e.push(v);
                        assert(e@ =~= before + Seq::new((j + 1) as nat, |q: int| v));
                        j += 1;
                    }
                    assert(s.take(i + 1).drop_last() =~= s.take(i as int));
                    assert(s.take(i + 1).last() == v);
                    assert(e@ =~= weighted_copies(s.take(i + 1), l as int));
                    i += 1;
                }
                assert(s.take(l as int) =~= s);
                assert(e@.len() > 0) by {
                    lemma_weighted_copies_len(s, l as int);
                }
                proof {
                    lemma_sorted_positive(e@);
                }
                let sorted_e = sort_copy(&e);
                median_sorted(&sorted_e)
            },
        }
    }
}

/// The weights of `n` values add up to at least `n` when the first weight is at least `n`.
pub proof fn lemma_weight_total_bound(l: int, n: nat)
    requires
        n <= l,
    ensures
        weight_total(l, n) >= n,
    decreases n,
{
    if n > 0 {
        lemma_weight_total_bound(l, (n - 1) as nat);
    }
}

/// Each value is copied at least once, so there are at least as many copies as values.
pub proof fn lemma_weighted_copies_len(s: Seq<i64>, l: int)
    requires
        s.len() <= l,
    ensures
        weighted_copies(s, l).len() >= s.len(),
    decreases s.len(),
{
    if s.len() > 0 {
        lemma_weighted_copies_len(s.drop_last(), l);
    }
}

/// A row of the `log` command.
pub enum LogEntry {
    /// An emerge run, with its arguments.
    Run { ts: i64, args: String },
    /// A merge, with its duration and whether it was binary.
    Merge { ts: i64, dur: i64, bin: bool, key: String },
    /// An unmerge, with its duration.
    Unmerge { ts: i64, dur: i64, key: String },
    /// A sync, with its duration.
    Sync { ts: i64, dur: i64, repo: String },
}

/// The mathematical value of a [`LogEntry`].
pub enum LogEntryView {
    Run { ts: i64, args: Seq<char> },
    Merge { ts: i64, dur: int, bin: bool, key: Seq<char> },
    Unmerge { ts: i64, dur: int, key: Seq<char> },
    Sync { ts: i64, dur: int, repo: Seq<char> },
}

impl View for LogEntry {
    type V = LogEntryView;

    open spec fn view(&self) -> LogEntryView {
        match self {
            LogEntry::Run { ts, args } => LogEntryView::Run { ts: *ts, args: args@ },
            LogEntry::Merge { ts, dur, bin, key } => LogEntryView::Merge {
                ts: *ts,
                dur: *dur as int,
                bin: *bin,
                key: key@,
            },
            LogEntry::Unmerge { ts, dur, key } => LogEntryView::Unmerge {
                ts: *ts,
                dur: *dur as int,
                key: key@,
            },
            LogEntry::Sync { ts, dur, repo } => LogEntryView::Sync {
                ts: *ts,
                dur: *dur as int,
                repo: repo@,
            },
        }
    }
}

/// The state of the `log` command between events.
pub struct LogViewState {
    pub merges: Map<Seq<char>, (i64, bool)>,
    pub unmerges: Map<Seq<char>, i64>,
    pub sync_start: Option<i64>,
    pub found: nat,
}

/// What one event does to the `log` state, and the row it prints (rows past `first` are counted
/// but not printed). A stop without a known start counts as started one second after it.
pub open spec fn log_next(st: LogViewState, h: HistView, first: nat, starttime: bool) -> (
    LogViewState,
    Option<LogEntryView>,
) {
    match h {
        HistView::RunStart { ts, args } => {
            let found = st.found + 1;
            (
                LogViewState { found, ..st },
                if found <= first {
                    Some(LogEntryView::Run { ts, args })
                } else {
                    None
                },
            )
        },
        HistView::MergeStart { ts, key, .. } => (
            LogViewState { merges: st.merges.insert(key, (ts, false)), ..st },
            None,
        ),
        HistView::MergeBin { key, .. } => (
            if st.merges.dom().contains(key) {
                LogViewState { merges: st.merges.insert(key, (st.merges[key].0, true)), ..st }
            } else {
                st
            },
            None,
        ),
        HistView::MergeStop { ts, key, .. } => {
            let found = st.found + 1;
            let (started, bin) = if st.merges.dom().contains(key) {
                st.merges[key]
            } else {
                ((ts + 1) as i64, false)
            };
            (
                LogViewState { merges: st.merges.remove(key), found, ..st },
                if found <= first {
                    Some(
                        LogEntryView::Merge {
                            ts: if starttime {
                                started
                            } else {
                                ts
                            },
                            dur: ts - started,
                            bin,
                            key,
                        },
                    )
                } else {
                    None
                },
            )
        },
        HistView::UnmergeStart { ts, key, .. } => (
            LogViewState { unmerges: st.unmerges.insert(key, ts), ..st },
            None,
        ),
        HistView::UnmergeStop { ts, key, .. } => {
            let found = st.found + 1;
            let started = if st.unmerges.dom().contains(key) {
                st.unmerges[key]
            } else {
                (ts + 1) as i64
            };
            (
                LogViewState { unmerges: st.unmerges.remove(key), found, ..st },
                if found <= first {
                    Some(
                        LogEntryView::Unmerge {
                            ts: if starttime {
                                started
                            } else {
                                ts
                            },
                            dur: ts - started,
                            key,
                        },
                    )
                } else {
                    None
                },
            )
        },
        HistView::SyncStart { ts } => (LogViewState { sync_start: Some(ts), ..st }, None),
        HistView::SyncStop { ts, repo } => {
            let found = st.found + 1;
            let started = match st.sync_start {
                Some(s) => s,
                None => (ts + 1) as i64,
            };
            (
                LogViewState { sync_start: None, found, ..st },
                if found <= first {
                    Some(
                        LogEntryView::Sync {
                            ts: if starttime {
                                started
                            } else {
                                ts
                            },
                            dur: ts - started,
                            repo,
                        },
                    )
                } else {
                    None
                },
            )
        },
    }
}

/// A stop at the largest timestamp has a known start: without one it would count as started one
/// second later, which does not fit in an `i64`.
pub open spec fn log_step_ok(st: LogViewState, h: HistView) -> bool {
    match h {
        HistView::MergeStop { ts, key, .. } => ts < i64::MAX || st.merges.dom().contains(key),
        HistView::UnmergeStop { ts, key, .. } => ts < i64::MAX || st.unmerges.dom().contains(key),
        HistView::SyncStop { ts, .. } => ts < i64::MAX || st.sync_start is Some,
        _ => true,
    }
}

/// The `log` command between events: pending starts and the count of printed events.
pub struct LogState {
    merges: KeyMap<(i64, bool)>,
    unmerges: KeyMap<i64>,
    sync_start: Option<i64>,
    found: usize,
}

/// Every start time kept is a log timestamp (not negative).
pub open spec fn starts_ok(st: LogViewState) -> bool {
    &&& forall|k: Seq<char>| #[trigger] st.merges.dom().contains(k) ==> st.merges[k].0 >= 0
    &&& forall|k: Seq<char>| #[trigger] st.unmerges.dom().contains(k) ==> st.unmerges[k] >= 0
    &&& st.sync_start matches Some(s) ==> s >= 0
}

/// Keeping the same pending merges and unmerges keeps the start times valid.
proof fn lemma_starts_ok_keep(a: LogViewState, b: LogViewState)
    requires
        starts_ok(a),
        a.merges == b.merges,
        a.unmerges == b.unmerges,
        b.sync_start matches Some(s) ==> s >= 0,
    ensures
        starts_ok(b),
{
    assert forall|k: Seq<char>| #[trigger] b.merges.dom().contains(k) implies b.merges[k].0 >= 0 by {
        assert(a.merges.dom().contains(k));
    }
    assert forall|k: Seq<char>| #[trigger] b.unmerges.dom().contains(k) implies b.unmerges[k] >= 0 by {
        assert(a.unmerges.dom().contains(k));
    }
}

impl LogState {
    /// The state as plain values.
    pub closed spec fn view(&self) -> LogViewState {
        LogViewState {
            merges: self.merges.view(),
            unmerges: self.unmerges.view(),
            sync_start: self.sync_start,
            found: self.found as nat,
        }
    }

    /// Nothing seen yet.
    pub fn new() -> (r: Self)
        ensures
            r.view() == (LogViewState {
                merges: Map::empty(),
                unmerges: Map::empty(),
                sync_start: None,
                found: 0,
            }),
    {
        LogState { merges: KeyMap::new(), unmerges: KeyMap::new(), sync_start: None, found: 0 }
    }

    /// How many events were counted.
    pub fn found(&self) -> (r: usize)
        ensures
            r == self.view().found,
    {
        self.found
    }

    /// Whether `step` can take the event `h`.
    pub fn step_fits(&self, h: &Hist) -> (r: bool)
        ensures
            r == log_step_ok(self.view(), h@),
    {
        match h {
            Hist::MergeStop { ts, key, .. } => *ts < i64::MAX || self.merges.contains(key.as_str()),
            Hist::UnmergeStop { ts, key, .. } => *ts < i64::MAX || self.unmerges.contains(
                key.as_str(),
            ),
            Hist::SyncStop { ts, .. } => *ts < i64::MAX || self.sync_start.is_some(),
            _ => true,
        }
    }

    /// Takes one event: updates the pending starts and returns the row to print, if any.
    pub fn step(&mut self, h: Hist, first: usize, starttime: bool) -> (r: Option<LogEntry>)
        requires
            starts_ok(old(self).view()),
            0 <= h@.ts(),
            log_step_ok(old(self).view(), h@),
            old(self).view().found < usize::MAX,
            h@.keyed() ==> h@.wf(),
        ensures
            starts_ok(final(self).view()),
            (final(self).view(), match r {
                Some(e) => Some(e@),
                None => None::<LogEntryView>,
            }) == log_next(old(self).view(), h@, first as nat, starttime),
    {
        match h {
            Hist::RunStart { ts, args } => {
                self.found = self.found + 1;
                proof {
                    lemma_starts_ok_keep(old(self).view(), self.view());
                }
                if self.found <= first {
                    Some(LogEntry::Run { ts, args })
                } else {
                    None
                }
            },
            Hist::MergeStart { ts, key, .. } => {
                self.merges.insert(key, (ts, false));
                assert(starts_ok(self.view()));
                None
            },
            Hist::MergeBin { key, .. } => {
                let t = match self.merges.get(key.as_str()) {
                    Some(x) => Some(x.0),
                    None => None,
                };
                if let Some(t) = t {
                    self.merges.insert(key, (t, true));
                }
                assert(starts_ok(self.view()));
                None
            },
            Hist::MergeStop { ts, key, .. } => {
                self.found = self.found + 1;
                let (started, bin) = match self.merges.remove(key.as_str()) {
                    Some(x) => x,
                    None => (ts + 1, false),
                };
                assert forall|k: Seq<char>| #[trigger]
                    self.view().merges.dom().contains(k) implies self.view().merges[k].0 >= 0 by {
                    assert(old(self).view().merges.dom().contains(k));
                }
                assert(starts_ok(self.view()));
                if self.found <= first {
                    let d = if starttime {
                        started
                    } else {
                        ts
                    };
                    Some(LogEntry::Merge { ts: d, dur: ts - started, bin, key })
                } else {
                    None
                }
            },
            Hist::UnmergeStart { ts, key, .. } => {
                self.unmerges.insert(key, ts);
                assert(starts_ok(self.view()));
                None
            },
            Hist::UnmergeStop { ts, key, .. } => {
                self.found = self.found + 1;
                let started = match self.unmerges.remove(key.as_str()) {
                    Some(x) => x,
                    None => ts + 1,
                };
                assert forall|k: Seq<char>| #[trigger]
                    self.view().unmerges.dom().contains(k) implies self.view().unmerges[k] >= 0 by {
                    assert(old(self).view().unmerges.dom().contains(k));
                }
                assert(starts_ok(self.view()));
                if self.found <= first {
                    let d = if starttime {
                        started
                    } else {
                        ts
                    };
                    Some(LogEntry::Unmerge { ts: d, dur: ts - started, key })
                } else {
                    None
                }
            },
            Hist::SyncStart { ts } => {
                self.sync_start = Some(ts);
                proof {
                    lemma_starts_ok_keep(old(self).view(), self.view());
                }
                None
            },
            Hist::SyncStop { ts, repo } => {
                self.found = self.found + 1;
                let started = match self.sync_start {
                    Some(s) => s,
                    None => ts + 1,
                };
                self.sync_start = None;
                proof {
                    lemma_starts_ok_keep(old(self).view(), self.view());
                }
                if self.found <= first {
                    let d = if starttime {
                        started
                    } else {
                        ts
                    };
                    Some(LogEntry::Sync { ts: d, dur: ts - started, repo })
                } else {
                    None
                }
            },
        }
    }
}

/// What an emerge run did, judged from its arguments.
#[derive(Clone, Copy, Debug, PartialEq, Eq, Structural)]
pub enum ArgKind {
    All,
    Merge,
    Clean,
    Sync,
}

/// The kind that the first telling argument gives: cleaning or syncing, else merging.
pub open spec fn arg_kind_of(args: Seq<Seq<char>>) -> ArgKind
    decreases args.len(),
{
    if args.len() == 0 {
        ArgKind::Merge
    } else if args[0] == "--deselect"@ || args[0] == "--unmerge"@ || args[0] == "--clean"@
        || args[0] == "--depclean"@ {
        ArgKind::Clean
    } else if args[0] == "--sync"@ {
        ArgKind::Sync
    } else {
        arg_kind_of(args.drop_first())
    }
}

/// A run is never classified as `All`.
pub proof fn lemma_arg_kind_not_all(args: Seq<Seq<char>>)
    ensures
        arg_kind_of(args) != ArgKind::All,
    decreases args.len(),
{
    if args.len() > 0 {
        lemma_arg_kind_not_all(args.drop_first());
    }
}

/// An emerge run is classified by its first argument among `--deselect`, `--unmerge`,
/// `--clean`, `--depclean` (a cleaning run) and `--sync` (a sync run); without any of them it is a
/// merging run.
pub proof fn lemma_arg_kind_first(args: Seq<Seq<char>>, i: int)
    requires
        0 <= i <= args.len(),
        forall|j: int|
            0 <= j < i ==> #[trigger] args[j] != "--deselect"@ && args[j] != "--unmerge"@ && args[j]
                != "--clean"@ && args[j] != "--depclean"@ && args[j] != "--sync"@,
    ensures
        i < args.len() && (args[i] == "--deselect"@ || args[i] == "--unmerge"@ || args[i]
            == "--clean"@ || args[i] == "--depclean"@) ==> arg_kind_of(args) == ArgKind::Clean,
        i < args.len() && args[i] == "--sync"@ ==> arg_kind_of(args) == ArgKind::Sync,
        i == args.len() ==> arg_kind_of(args) == ArgKind::Merge,
    decreases i,
{
    reveal_strlit("--deselect");
    reveal_strlit("--unmerge");
    reveal_strlit("--clean");
    reveal_strlit("--depclean");
    reveal_strlit("--sync");
    if i > 0 {
        let rest = args.drop_first();
        assert forall|j: int| 0 <= j < i - 1 implies #[trigger] rest[j] != "--deselect"@ && rest[j]
            != "--unmerge"@ && rest[j] != "--clean"@ && rest[j] != "--depclean"@ && rest[j]
            != "--sync"@ by {
            assert(rest[j] == args[j + 1]);
        }
        lemma_arg_kind_first(rest, i - 1);
        assert(args[0] != "--sync"@);
    } else {
        assert("--sync"@ != "--deselect"@ && "--sync"@ != "--unmerge"@ && "--sync"@ != "--clean"@
            && "--sync"@ != "--depclean"@) by {
            assert("--sync"@.len() != "--deselect"@.len());
            assert("--sync"@[2] != "--unmerge"@[2]);
            assert("--sync"@.len() != "--clean"@.len());
            assert("--sync"@.len() != "--depclean"@.len());
        }
    }
}

impl ArgKind {
    /// Classifies an emerge run by its arguments.
    pub fn new(args: &str) -> (r: Self)
        ensures
            r == arg_kind_of(words(args@, true)),
    {
        let w = split_words(args, true);
        let mut i: usize = 0;
        assert(views(w@).skip(0) =~= views(w@));
        while i < w.len()
            invariant
                i <= w@.len(),
                views(w@) == words(args@, true),
                arg_kind_of(views(w@)) == arg_kind_of(views(w@).skip(i as int)),
            decreases w@.len() - i,
        {
            let a = w[i].as_str();
            assert(views(w@).skip(i as int)[0] == a@);
            assert(views(w@).skip(i as int).drop_first() =~= views(w@).skip(i + 1));
            if str_eq(a, "--deselect") || str_eq(a, "--unmerge") || str_eq(a, "--clean") || str_eq(
                a,
                "--depclean",
            ) {
                return ArgKind::Clean;
            }
            if str_eq(a, "--sync") {
                return ArgKind::Sync;
            }
            i += 1;
        }
        ArgKind::Merge
    }
}

/// The value of a [`Times`].
#[verifier::ext_equal]
pub struct TimesView {
    pub recent: Seq<i64>,
    pub n: int,
    pub total: int,
}

impl Times {
    /// The durations as plain values.
    pub open spec fn tv(&self) -> TimesView {
        TimesView { recent: self.recent(), n: self.n(), total: self.total() }
    }
}

/// No duration yet.
pub open spec fn tv_new() -> TimesView {
    TimesView { recent: Seq::empty(), n: 0, total: 0 }
}

/// One more duration.
pub open spec fn tv_insert(t: TimesView, d: i64) -> TimesView {
    TimesView {
        recent: if d > 0 {
            seq![d] + t.recent
        } else {
            t.recent
        },
        n: t.n + 1,
        total: t.total + (if d > 0 {
            d as int
        } else {
            0
        }),
    }
}

/// One more duration fits.
pub open spec fn tv_room(t: TimesView, d: i64) -> bool {
    t.n < i64::MAX && (d > 0 ==> t.total + d <= i64::MAX)
}

/// The durations of one package: merges, binary merges, unmerges.
pub struct PkgTimes {
    pub merge: Times,
    pub bin: Times,
    pub unmerge: Times,
}

/// The value of a [`PkgTimes`].
pub open spec fn pt_view(p: PkgTimes) -> (TimesView, TimesView, TimesView) {
    (p.merge.tv(), p.bin.tv(), p.unmerge.tv())
}

/// The state of the `stats` command between events.
#[verifier::ext_equal]
pub struct StatsView {
    pub merge_start: Map<Seq<char>, (i64, bool)>,
    pub unmerge_start: Map<Seq<char>, i64>,
    pub pkgs: Map<Seq<char>, (TimesView, TimesView, TimesView)>,
    pub sync_start: Option<i64>,
    pub syncs: Map<Seq<char>, TimesView>,
    pub runs: Map<ArgKind, nat>,
}

/// The name a key has now, through the package moves.
pub open spec fn moved(m: Map<Seq<char>, Seq<char>>, k: Seq<char>) -> Seq<char> {
    if m.dom().contains(k) {
        m[k]
    } else {
        k
    }
}

/// The `categ/name` part of a keyed event.
pub open spec fn ebuild_of(h: HistView) -> Seq<char> {
    decode_utf8(encode_utf8(h.key()).take(h.pos() - 1))
}

/// The durations of a package, or none yet.
pub open spec fn pkg_or_new(st: StatsView, k: Seq<char>) -> (TimesView, TimesView, TimesView) {
    if st.pkgs.dom().contains(k) {
        st.pkgs[k]
    } else {
        (tv_new(), tv_new(), tv_new())
    }
}

/// The count of runs of a kind so far.
pub open spec fn run_count(st: StatsView, k: ArgKind) -> nat {
    if st.runs.dom().contains(k) {
        st.runs[k]
    } else {
        0
    }
}

/// What one event does to the `stats` state. Merge starts are keyed by their moved key, but a
/// binary merge looks its key up unmoved; a stop without a start is not counted.
pub open spec fn stats_next(st: StatsView, h: HistView, m: Map<Seq<char>, Seq<char>>) -> StatsView {
    match h {
        HistView::RunStart { args, .. } => {
            let k = arg_kind_of(words(args, true));
            let r1 = st.runs.insert(ArgKind::All, run_count(st, ArgKind::All) + 1);
            let st1 = StatsView { runs: r1, ..st };
            StatsView { runs: r1.insert(k, run_count(st1, k) + 1), ..st }
        },
        HistView::MergeStart { ts, key, .. } => StatsView {
            merge_start: st.merge_start.insert(moved(m, key), (ts, false)),
            ..st
        },
        HistView::MergeBin { key, .. } => if st.merge_start.dom().contains(key) {
            StatsView {
                merge_start: st.merge_start.insert(key, (st.merge_start[key].0, true)),
                ..st
            }
        } else {
            st
        },
        HistView::MergeStop { ts, key, .. } => {
            let k = moved(m, key);
            if st.merge_start.dom().contains(k) {
                let (start, bin) = st.merge_start[k];
                let p = moved(m, ebuild_of(h));
                let (tc, tb, tu) = pkg_or_new(st, p);
                let v = if bin {
                    (tc, tv_insert(tb, (ts - start) as i64), tu)
                } else {
                    (tv_insert(tc, (ts - start) as i64), tb, tu)
                };
                StatsView { merge_start: st.merge_start.remove(k), pkgs: st.pkgs.insert(p, v), ..st }
            } else {
                st
            }
        },
        HistView::UnmergeStart { ts, key, .. } => StatsView {
            unmerge_start: st.unmerge_start.insert(moved(m, key), ts),
            ..st
        },
        HistView::UnmergeStop { ts, key, .. } => {
            let k = moved(m, key);
            if st.unmerge_start.dom().contains(k) {
                let start = st.unmerge_start[k];
                let p = moved(m, ebuild_of(h));
                let (tc, tb, tu) = pkg_or_new(st, p);
                StatsView {
                    unmerge_start: st.unmerge_start.remove(k),
                    pkgs: st.pkgs.insert(p, (tc, tb, tv_insert(tu, (ts - start) as i64))),
                    ..st
                }
            } else {
                st
            }
        },
        HistView::SyncStart { ts } => StatsView { sync_start: Some(ts), ..st },
        HistView::SyncStop { ts, repo } => match st.sync_start {
            Some(start) => {
                let t = if st.syncs.dom().contains(repo) {
                    st.syncs[repo]
                } else {
                    tv_new()
                };
                StatsView {
                    sync_start: None,
                    syncs: st.syncs.insert(repo, tv_insert(t, (ts - start) as i64)),
                    ..st
                }
            },
            None => st,
        },
    }
}

/// One more duration for a package: `which` is 0 for a merge, 1 for a binary merge, 2 for an
/// unmerge.
pub open spec fn pkg_add(t: (TimesView, TimesView, TimesView), which: u8, d: i64) -> (
    TimesView,
    TimesView,
    TimesView,
) {
    if which == 0 {
        (tv_insert(t.0, d), t.1, t.2)
    } else if which == 1 {
        (t.0, tv_insert(t.1, d), t.2)
    } else {
        (t.0, t.1, tv_insert(t.2, d))
    }
}

/// The insertion this event makes fits in its durations.
pub open spec fn stats_room(st: StatsView, h: HistView, m: Map<Seq<char>, Seq<char>>) -> bool {
    match h {
        HistView::RunStart { args, .. } => run_count(st, ArgKind::All) + 1 < usize::MAX
            && run_count(st, arg_kind_of(words(args, true))) + 1 < usize::MAX,
        HistView::MergeStop { ts, key, .. } => {
            let k = moved(m, key);
            st.merge_start.dom().contains(k) ==> {
                let (start, bin) = st.merge_start[k];
                let (tc, tb, tu) = pkg_or_new(st, moved(m, ebuild_of(h)));
                if bin {
                    tv_room(tb, (ts - start) as i64)
                } else {
                    tv_room(tc, (ts - start) as i64)
                }
            }
        },
        HistView::UnmergeStop { ts, key, .. } => {
            let k = moved(m, key);
            st.unmerge_start.dom().contains(k) ==> tv_room(
                pkg_or_new(st, moved(m, ebuild_of(h))).2,
                (ts - st.unmerge_start[k]) as i64,
            )
        },
        HistView::SyncStop { ts, repo } => match st.sync_start {
            Some(start) => tv_room(
                if st.syncs.dom().contains(repo) {
                    st.syncs[repo]
                } else {
                    tv_new()
                },
                (ts - start) as i64,
            ),
            None => true,
        },
        _ => true,
    }
}

/// Counts and totals are not negative.
pub open spec fn stats_counts_ok(st: StatsView) -> bool {
    &&& forall|k: Seq<char>| #[trigger]
        st.pkgs.dom().contains(k) ==> st.pkgs[k].0.n >= 0 && st.pkgs[k].0.total >= 0
            && st.pkgs[k].1.n >= 0 && st.pkgs[k].1.total >= 0 && st.pkgs[k].2.n >= 0
            && st.pkgs[k].2.total >= 0
    &&& forall|k: Seq<char>| #[trigger]
        st.syncs.dom().contains(k) ==> st.syncs[k].n >= 0 && st.syncs[k].total >= 0
}

/// Every start time kept is a log timestamp (not negative).
pub open spec fn stats_starts_ok(st: StatsView) -> bool {
    &&& forall|k: Seq<char>| #[trigger] st.merge_start.dom().contains(k) ==> st.merge_start[k].0 >= 0
    &&& forall|k: Seq<char>| #[trigger] st.unmerge_start.dom().contains(k) ==> st.unmerge_start[k] >= 0
    &&& st.sync_start matches Some(s) ==> s >= 0
}

impl PkgTimes {
    /// No duration yet.
    pub fn new() -> (r: Self)
        ensures
            pt_view(r) == (tv_new(), tv_new(), tv_new()),
    {
        PkgTimes { merge: Times::new(), bin: Times::new(), unmerge: Times::new() }
    }
}

/// The `stats` command between events: pending starts, durations per package and repository,
/// and run counts.
pub struct StatsState {
    merge_start: KeyMap<(i64, bool)>,
    unmerge_start: KeyMap<i64>,
    pkgs: KeyMap<PkgTimes>,
    sync_start: Option<i64>,
    syncs: KeyMap<Times>,
    run_all: usize,
    run_merge: usize,
    run_clean: usize,
    run_sync: usize,
}

impl StatsState {
    /// The count of runs of a kind.
    pub closed spec fn count_of(&self, k: ArgKind) -> nat {
        match k {
            ArgKind::All => self.run_all as nat,
            ArgKind::Merge => self.run_merge as nat,
            ArgKind::Clean => self.run_clean as nat,
            ArgKind::Sync => self.run_sync as nat,
        }
    }

    /// The state as plain values.
    pub closed spec fn view(&self) -> StatsView {
        StatsView {
            merge_start: self.merge_start.view(),
            unmerge_start: self.unmerge_start.view(),
            pkgs: Map::new(
                |k: Seq<char>| self.pkgs.view().dom().contains(k),
                |k: Seq<char>| pt_view(self.pkgs.view()[k]),
            ),
            sync_start: self.sync_start,
            syncs: Map::new(
                |k: Seq<char>| self.syncs.view().dom().contains(k),
                |k: Seq<char>| self.syncs.view()[k].tv(),
            ),
            runs: Map::new(|k: ArgKind| self.count_of(k) > 0, |k: ArgKind| self.count_of(k)),
        }
    }

    /// Nothing seen yet.
    pub fn new() -> (r: Self)
        ensures
            r.view() == (StatsView {
                merge_start: Map::empty(),
                unmerge_start: Map::empty(),
                pkgs: Map::empty(),
                sync_start: None,
                syncs: Map::empty(),
                runs: Map::empty(),
            }),
    {
        let r = StatsState {
            merge_start: KeyMap::new(),
            unmerge_start: KeyMap::new(),
            pkgs: KeyMap::new(),
            sync_start: None,
            syncs: KeyMap::new(),
            run_all: 0,
            run_merge: 0,
            run_clean: 0,
            run_sync: 0,
        };
        assert(r.view().pkgs =~= Map::empty());
        assert(r.view().syncs =~= Map::empty());
        assert(r.view().runs =~= Map::empty());
        r
    }

    /// Adds one run of a kind.
    fn count_run(&mut self, k: ArgKind)
        requires
            old(self).count_of(k) + 1 < usize::MAX,
        ensures
            final(self).view() == (StatsView {
                runs: old(self).view().runs.insert(k, old(self).count_of(k) + 1),
                ..old(self).view()
            }),
            forall|j: ArgKind| j != k ==> final(self).count_of(j) == old(self).count_of(j),
            final(self).count_of(k) == old(self).count_of(k) + 1,
    {
        match k {
            ArgKind::All => self.run_all = self.run_all + 1,
            ArgKind::Merge => self.run_merge = self.run_merge + 1,
            ArgKind::Clean => self.run_clean = self.run_clean + 1,
            ArgKind::Sync => self.run_sync = self.run_sync + 1,
        }
        assert(self.view().runs =~= old(self).view().runs.insert(k, old(self).count_of(k) + 1));
        assert(self.view().pkgs =~= old(self).view().pkgs);
        assert(self.view().syncs =~= old(self).view().syncs);
    }

    /// Adds a duration to a package.
    fn add_pkg_time(&mut self, p: String, which: u8, d: i64)
        requires
            which < 3,
            tv_room(
                if which == 0 {
                    pkg_or_new(old(self).view(), p@).0
                } else if which == 1 {
                    pkg_or_new(old(self).view(), p@).1
                } else {
                    pkg_or_new(old(self).view(), p@).2
                },
                d,
            ),
        ensures
            final(self).view() == (StatsView {
                pkgs: old(self).view().pkgs.insert(
                    p@,
                    pkg_add(pkg_or_new(old(self).view(), p@), which, d),
                ),
                ..old(self).view()
            }),
    {
        let ghost v0 = old(self).view();
        let mut pt = match self.pkgs.remove(p.as_str()) {
            Some(pt) => pt,
            None => PkgTimes::new(),
        };
        assert(pt_view(pt) == pkg_or_new(v0, p@));
        if which == 0 {
            pt.merge.insert(d);
        } else if which == 1 {
            pt.bin.insert(d);
        } else {
            pt.unmerge.insert(d);
        }
        self.pkgs.insert(p, pt);
        assert(self.view().pkgs =~= v0.pkgs.insert(p@, pt_view(pt)));
        assert(self.view().syncs =~= v0.syncs);
        assert(self.view().runs =~= v0.runs);
    }

    /// Adds a duration to a repository.
    fn add_sync_time(&mut self, repo: String, d: i64)
        requires
            tv_room(
                if old(self).view().syncs.dom().contains(repo@) {
                    old(self).view().syncs[repo@]
                } else {
                    tv_new()
                },
                d,
            ),
        ensures
            final(self).view() == (StatsView {
                syncs: old(self).view().syncs.insert(
                    repo@,
                    tv_insert(
                        if old(self).view().syncs.dom().contains(repo@) {
                            old(self).view().syncs[repo@]
                        } else {
                            tv_new()
                        },
                        d,
                    ),
                ),
                ..old(self).view()
            }),
    {
        let ghost v0 = old(self).view();
        let mut t = match self.syncs.remove(repo.as_str()) {
            Some(t) => t,
            None => Times::new(),
        };
        t.insert(d);
        self.syncs.insert(repo, t);
        assert(self.view().syncs =~= v0.syncs.insert(repo@, t.tv()));
        assert(self.view().pkgs =~= v0.pkgs);
        assert(self.view().runs =~= v0.runs);
    }
}

impl StatsState {
    /// Takes one event of the log.
    pub fn step(&mut self, h: &Hist, moves: &PkgMoves)
        requires
            stats_starts_ok(old(self).view()),
            stats_counts_ok(old(self).view()),
            0 <= h@.ts(),
            h@.wf(),
            stats_room(old(self).view(), h@, moves.view()),
        ensures
            stats_starts_ok(final(self).view()),
            stats_counts_ok(final(self).view()),
            final(self).view() == stats_next(old(self).view(), h@, moves.view()),
    {
        let ghost v0 = self.view();
        match h {
            Hist::RunStart { args, .. } => {
                let k = ArgKind::new(args.as_str());
                proof {
                    lemma_arg_kind_not_all(words(args@, true));
                }
                self.count_run(ArgKind::All);
                self.count_run(k);
                assert(self.view() =~= stats_next(v0, h@, moves.view()));
            },
            Hist::MergeStart { ts, key, .. } => {
                let k = moves.get(key.clone());
                self.merge_start.insert(k, (*ts, false));
                assert(self.view() =~= stats_next(v0, h@, moves.view()));
            },
            Hist::MergeBin { key, .. } => {
                let t = match self.merge_start.get(key.as_str()) {
                    Some(x) => Some(x.0),
                    None => None,
                };
                if let Some(t) = t {
                    self.merge_start.insert(key.clone(), (t, true));
                }
                assert(self.view() =~= stats_next(v0, h@, moves.view()));
            },
            Hist::MergeStop { ts, key, .. } => {
                let k = moves.get_ref(key);
                match self.merge_start.remove(k.as_str()) {
                    Some((start, bin)) => {
                        proof {
                            crate::parse::history::lemma_wf_cuts(h@);
                        }
                        let e = h.ebuild();
                        let p = moves.get(to_string(e));
                        proof {
                            vstd::utf8::encode_utf8_decode_utf8(e@);
                        }
                        assert(e@ == ebuild_of(h@));
                        self.add_pkg_time(
                            p,
                            if bin {
                                1
                            } else {
                                0
                            },
                            *ts - start,
                        );
                    },
                    None => {},
                }
                assert(self.view() =~= stats_next(v0, h@, moves.view()));
            },
            Hist::UnmergeStart { ts, key, .. } => {
                let k = moves.get(key.clone());
                self.unmerge_start.insert(k, *ts);
                assert(self.view() =~= stats_next(v0, h@, moves.view()));
            },
            Hist::UnmergeStop { ts, key, .. } => {
                let k = moves.get_ref(key);
                match self.unmerge_start.remove(k.as_str()) {
                    Some(start) => {
                        proof {
                            crate::parse::history::lemma_wf_cuts(h@);
                        }
                        let e = h.ebuild();
                        let p = moves.get(to_string(e));
                        proof {
                            vstd::utf8::encode_utf8_decode_utf8(e@);
                        }
                        assert(e@ == ebuild_of(h@));
                        self.add_pkg_time(p, 2, *ts - start);
                    },
                    None => {},
                }
                assert(self.view() =~= stats_next(v0, h@, moves.view()));
            },
            Hist::SyncStart { ts } => {
                self.sync_start = Some(*ts);
                assert(self.view() =~= stats_next(v0, h@, moves.view()));
            },
            Hist::SyncStop { ts, repo } => {
                match self.sync_start {
                    Some(start) => {
                        self.sync_start = None;
                        self.add_sync_time(repo.clone(), *ts - start);
                    },
                    None => {},
                }
                assert(self.view() =~= stats_next(v0, h@, moves.view()));
            },
        }
        assert forall|k: Seq<char>| #[trigger]
            self.view().merge_start.dom().contains(k) implies self.view().merge_start[k].0 >= 0 by {
            if v0.merge_start.dom().contains(k) {
            }
        }
        assert forall|k: Seq<char>| #[trigger]
            self.view().unmerge_start.dom().contains(k) implies self.view().unmerge_start[k] >= 0 by {
            if v0.unmerge_start.dom().contains(k) {
            }
        }
        assert forall|k: Seq<char>| #[trigger] self.view().pkgs.dom().contains(k) implies self.view().pkgs[k].0.n >= 0
            && self.view().pkgs[k].0.total >= 0 && self.view().pkgs[k].1.n >= 0 && self.view().pkgs[k].1.total >= 0
            && self.view().pkgs[k].2.n >= 0 && self.view().pkgs[k].2.total >= 0 by {
            if v0.pkgs.dom().contains(k) {
            }
        }
        assert forall|k: Seq<char>| #[trigger] self.view().syncs.dom().contains(k) implies self.view().syncs[k].n >= 0
            && self.view().syncs[k].total >= 0 by {
            if v0.syncs.dom().contains(k) {
            }
        }
    }
}

/// How many durations, their total, and the prediction.
#[derive(Clone, Copy, Debug, PartialEq, Eq, Structural)]
pub struct TimeStats {
    pub count: i64,
    pub tot: i64,
    pub pred: i64,
}

/// The statistics of some durations.
pub open spec fn time_stats(t: TimesView, lim: u16, avg: Average) -> TimeStats {
    TimeStats { count: t.n as i64, tot: t.total as i64, pred: pred_spec(t.recent, lim, avg) as i64 }
}

/// The statistics row of a package.
pub struct PkgRow {
    pub pkg: String,
    pub merge: TimeStats,
    pub bin: TimeStats,
    pub unmerge: TimeStats,
}

/// The statistics row of a repository.
pub struct SyncRow {
    pub repo: String,
    pub times: TimeStats,
}

/// The statistics of some durations.
fn stats_of(t: &Times, lim: u16, avg: Average) -> (r: TimeStats)
    requires
        lim > 0,
    ensures
        r == time_stats(t.tv(), lim, avg),
{
    TimeStats { count: t.count(), tot: t.tot(), pred: t.pred(lim, avg) }
}

/// The sums over some packages of the counts and totals of merges, binary merges and unmerges.
pub open spec fn pkg_sums(keys: Seq<Seq<char>>, m: Map<Seq<char>, (TimesView, TimesView, TimesView)>) -> (
    int,
    int,
    int,
    int,
    int,
    int,
)
    decreases keys.len(),
{
    if keys.len() == 0 {
        (0, 0, 0, 0, 0, 0)
    } else {
        let s = pkg_sums(keys.drop_last(), m);
        let (tc, tb, tu) = m[keys.last()];
        (s.0 + tc.n, s.1 + tc.total, s.2 + tb.n, s.3 + tb.total, s.4 + tu.n, s.5 + tu.total)
    }
}

/// Total and average of some durations, `-1` as average without any.
pub open spec fn total_avg(n: int, total: int) -> (int, int, int) {
    (n, total, if n == 0 {
        -1
    } else {
        total / n
    })
}

impl StatsState {
    /// The packages, in the order they were first seen.
    pub closed spec fn pkg_keys(&self) -> Seq<Seq<char>> {
        self.pkgs.key_seq()
    }

    /// Per package statistics, sorted by package name.
    pub fn pkg_rows(&self, lim: u16, avg: Average) -> (r: Vec<PkgRow>)
        requires
            lim > 0,
        ensures
            sorted_text(r@.map_values(|p: PkgRow| p.pkg@)),
            forall|k: Seq<char>| #[trigger]
                self.view().pkgs.dom().contains(k) ==> r@.map_values(|p: PkgRow| p.pkg@).contains(k),
            forall|i: int|
                0 <= i < r@.len() ==> self.view().pkgs.dom().contains(#[trigger] r@[i].pkg@) && r@[i].merge
                    == time_stats(self.view().pkgs[r@[i].pkg@].0, lim, avg) && r@[i].bin
                    == time_stats(self.view().pkgs[r@[i].pkg@].1, lim, avg) && r@[i].unmerge
                    == time_stats(self.view().pkgs[r@[i].pkg@].2, lim, avg),
    {
        let keys = self.pkgs.sorted_keys();
        let mut r: Vec<PkgRow> = Vec::new();
        let mut i: usize = 0;
        while i < keys.len()
            invariant
                i <= keys@.len(),
                lim > 0,
                r@.len() == i,
                forall|j: int| 0 <= j < keys@.len() ==> self.pkgs.view().dom().contains(#[trigger] keys@[j]@),
                forall|j: int| 0 <= j < i ==> (#[trigger] r@[j]).pkg@ == keys@[j]@,
                forall|j: int|
                    0 <= j < i ==> (#[trigger] r@[j]).merge == time_stats(
                        self.view().pkgs[keys@[j]@].0,
                        lim,
                        avg,
                    ) && r@[j].bin == time_stats(self.view().pkgs[keys@[j]@].1, lim, avg)
                        && r@[j].unmerge == time_stats(self.view().pkgs[keys@[j]@].2, lim, avg),
            decreases keys@.len() - i,
        {
            let k = &keys[i];
            let t = match self.pkgs.get(k.as_str()) {
                Some(t) => t,
                None => {
                    assert(false);
                    return r;
                },
            };
            let row = PkgRow {
                pkg: k.clone(),
                merge: stats_of(&t.merge, lim, avg),
                bin: stats_of(&t.bin, lim, avg),
                unmerge: stats_of(&t.unmerge, lim, avg),
            };
            r.push(row);
            i += 1;
        }
        assert(r@.map_values(|p: PkgRow| p.pkg@) =~= views(keys@));
        r
    }

    /// Per repository statistics, sorted by repository name.
    pub fn sync_rows(&self, lim: u16, avg: Average) -> (r: Vec<SyncRow>)
        requires
            lim > 0,
        ensures
            sorted_text(r@.map_values(|p: SyncRow| p.repo@)),
            forall|k: Seq<char>| #[trigger]
                self.view().syncs.dom().contains(k) ==> r@.map_values(|p: SyncRow| p.repo@).contains(k),
            forall|i: int|
                0 <= i < r@.len() ==> self.view().syncs.dom().contains(#[trigger] r@[i].repo@)
                    && r@[i].times == time_stats(self.view().syncs[r@[i].repo@], lim, avg),
    {
        let keys = self.syncs.sorted_keys();
        let mut r: Vec<SyncRow> = Vec::new();
        let mut i: usize = 0;
        while i < keys.len()
            invariant
                i <= keys@.len(),
                lim > 0,
                r@.len() == i,
                forall|j: int| 0 <= j < keys@.len() ==> self.syncs.view().dom().contains(#[trigger] keys@[j]@),
                forall|j: int| 0 <= j < i ==> (#[trigger] r@[j]).repo@ == keys@[j]@,
                forall|j: int|
                    0 <= j < i ==> (#[trigger] r@[j]).times == time_stats(
                        self.view().syncs[keys@[j]@],
                        lim,
                        avg,
                    ),
            decreases keys@.len() - i,
        {
            let k = &keys[i];
            let t = match self.syncs.get(k.as_str()) {
                Some(t) => t,
                None => {
                    assert(false);
                    return r;
                },
            };
            r.push(SyncRow { repo: k.clone(), times: stats_of(t, lim, avg) });
            i += 1;
        }
        assert(r@.map_values(|p: SyncRow| p.repo@) =~= views(keys@));
        r
    }

    /// The run counts (all runs, merges, cleanings, syncs), when a run was seen.
    pub fn run_counts(&self) -> (r: Option<(usize, usize, usize, usize)>)
        ensures
            r is Some <==> exists|k: ArgKind| self.view().runs.dom().contains(k),
            r matches Some((a, m, c, s)) ==> a == run_count(self.view(), ArgKind::All) && m
                == run_count(self.view(), ArgKind::Merge) && c == run_count(self.view(), ArgKind::Clean)
                && s == run_count(self.view(), ArgKind::Sync),
    {
        if self.run_all == 0 && self.run_merge == 0 && self.run_clean == 0 && self.run_sync == 0 {
            assert forall|k: ArgKind| !self.view().runs.dom().contains(k) by {
                assert(self.count_of(k) == 0);
            }
            None
        } else {
            if self.run_all > 0 {
                assert(self.view().runs.dom().contains(ArgKind::All));
            } else if self.run_merge > 0 {
                assert(self.view().runs.dom().contains(ArgKind::Merge));
            } else if self.run_clean > 0 {
                assert(self.view().runs.dom().contains(ArgKind::Clean));
            } else {
                assert(self.view().runs.dom().contains(ArgKind::Sync));
            }
            Some((self.run_all, self.run_merge, self.run_clean, self.run_sync))
        }
    }

    /// Whether a package or a repository has statistics.
    pub fn has_data(&self) -> (r: bool)
        ensures
            r == (self.view().pkgs.dom().len() > 0 || self.view().syncs.dom().len() > 0),
    {
        assert(self.view().pkgs.dom() =~= self.pkgs.view().dom());
        assert(self.view().syncs.dom() =~= self.syncs.view().dom());
        self.pkgs.len() > 0 || self.syncs.len() > 0
    }

    /// Forgets the statistics of the group that ends, keeping the pending starts.
    pub fn clear_group(&mut self)
        ensures
            final(self).view() == (StatsView {
                pkgs: Map::empty(),
                syncs: Map::empty(),
                runs: Map::empty(),
                ..old(self).view()
            }),
    {
        self.pkgs = KeyMap::new();
        self.syncs = KeyMap::new();
        self.run_all = 0;
        self.run_merge = 0;
        self.run_clean = 0;
        self.run_sync = 0;
        assert(self.view().pkgs =~= Map::empty());
        assert(self.view().syncs =~= Map::empty());
        assert(self.view().runs =~= Map::empty());
    }
}

/// The sums of all packages fit in the counters.
pub open spec fn sums_fit(s: (int, int, int, int, int, int)) -> bool {
    s.0 <= i64::MAX && s.1 <= i64::MAX && s.2 <= i64::MAX && s.3 <= i64::MAX && s.4 <= i64::MAX
        && s.5 <= i64::MAX
}

/// Each sum of `a` is between zero and the one of `b`.
pub open spec fn sums_between(a: (int, int, int, int, int, int), b: (int, int, int, int, int, int)) -> bool {
    0 <= a.0 <= b.0 && 0 <= a.1 <= b.1 && 0 <= a.2 <= b.2 && 0 <= a.3 <= b.3 && 0 <= a.4 <= b.4 && 0
        <= a.5 <= b.5
}

/// The totals of all packages, as `totals` gives them.
pub open spec fn totals_spec(s: (int, int, int, int, int, int)) -> ((int, int, int), (int, int, int), (int, int, int)) {
    (total_avg(s.0, s.1), total_avg(s.2, s.3), total_avg(s.4, s.5))
}

/// The count and total of one kind in sums over packages: 0 merges, 1 binary merges, 2 unmerges.
pub open spec fn sums_of_kind(s: (int, int, int, int, int, int), j: int) -> (int, int) {
    if j == 0 {
        (s.0, s.1)
    } else if j == 1 {
        (s.2, s.3)
    } else {
        (s.4, s.5)
    }
}

/// The durations of one kind of a package.
pub open spec fn times_of_kind(t: (TimesView, TimesView, TimesView), j: int) -> TimesView {
    if j == 0 {
        t.0
    } else if j == 1 {
        t.1
    } else {
        t.2
    }
}

/// The totals of one kind.
pub open spec fn totals_of_kind(t: ((int, int, int), (int, int, int), (int, int, int)), j: int) -> (
    int,
    int,
    int,
) {
    if j == 0 {
        t.0
    } else if j == 1 {
        t.1
    } else {
        t.2
    }
}

/// Sums of one kind only read the durations of that kind.
proof fn lemma_sums_kind(
    keys: Seq<Seq<char>>,
    m1: Map<Seq<char>, (TimesView, TimesView, TimesView)>,
    m2: Map<Seq<char>, (TimesView, TimesView, TimesView)>,
    j: int,
)
    requires
        0 <= j < 3,
        forall|i: int| 0 <= i < keys.len() ==> times_of_kind(m1[#[trigger] keys[i]], j) == times_of_kind(m2[keys[i]], j),
    ensures
        sums_of_kind(pkg_sums(keys, m1), j) == sums_of_kind(pkg_sums(keys, m2), j),
    decreases keys.len(),
{
    if keys.len() > 0 {
        let p = keys.drop_last();
        assert forall|i: int| 0 <= i < p.len() implies times_of_kind(m1[#[trigger] p[i]], j) == times_of_kind(m2[p[i]], j) by {
            assert(p[i] == keys[i]);
        }
        lemma_sums_kind(p, m1, m2, j);
        assert(times_of_kind(m1[keys[keys.len() - 1]], j) == times_of_kind(m2[keys[keys.len() - 1]], j));
    }
}

/// The totals of merges, of binary merges and of unmerges each come from the durations of that
/// kind alone: two sets of packages whose durations of one kind agree have the same totals of
/// that kind, whatever their other durations. Each kind's average is its total time over its
/// count, `-1` when there is none, and a single package gives its own count and total.
pub proof fn lemma_totals_kind(
    keys: Seq<Seq<char>>,
    m1: Map<Seq<char>, (TimesView, TimesView, TimesView)>,
    m2: Map<Seq<char>, (TimesView, TimesView, TimesView)>,
    j: int,
)
    requires
        0 <= j < 3,
        forall|i: int| 0 <= i < keys.len() ==> times_of_kind(m1[#[trigger] keys[i]], j) == times_of_kind(m2[keys[i]], j),
    ensures
        totals_of_kind(totals_spec(pkg_sums(keys, m1)), j) == totals_of_kind(totals_spec(pkg_sums(keys, m2)), j),
        ({
            let (c, t, a) = totals_of_kind(totals_spec(pkg_sums(keys, m1)), j);
            &&& c == 0 ==> a == -1
            &&& c != 0 ==> a == t / c
        }),
        keys.len() == 1 ==> ({
            let (c, t, a) = totals_of_kind(totals_spec(pkg_sums(keys, m1)), j);
            c == times_of_kind(m1[keys[0]], j).n && t == times_of_kind(m1[keys[0]], j).total
        }),
{
    lemma_sums_kind(keys, m1, m2, j);
    if keys.len() == 1 {
        assert(pkg_sums(keys.drop_last(), m1) == (0int, 0int, 0int, 0int, 0int, 0int));
    }
}

/// The statistics as plain numbers.
pub open spec fn ts_tuple(t: TimeStats) -> (int, int, int) {
    (t.count as int, t.tot as int, t.pred as int)
}

/// Partial sums are between zero and the whole sums.
pub proof fn lemma_pkg_sums_nonneg(
    keys: Seq<Seq<char>>,
    m: Map<Seq<char>, (TimesView, TimesView, TimesView)>,
    i: int,
)
    requires
        0 <= i <= keys.len(),
        forall|k: Seq<char>| #[trigger]
            m.dom().contains(k) ==> m[k].0.n >= 0 && m[k].0.total >= 0 && m[k].1.n >= 0
                && m[k].1.total >= 0 && m[k].2.n >= 0 && m[k].2.total >= 0,
        forall|j: int| 0 <= j < keys.len() ==> m.dom().contains(#[trigger] keys[j]),
    ensures
        sums_between(pkg_sums(keys.take(i), m), pkg_sums(keys, m)),
    decreases keys.len() - i,
{
    if i < keys.len() {
        lemma_pkg_sums_nonneg(keys, m, i + 1);
        lemma_pkg_sums_base(keys, m, i);
        assert(keys.take(i + 1).drop_last() =~= keys.take(i));
        assert(keys.take(i + 1).last() == keys[i]);
        assert(m.dom().contains(keys[i]));
    } else {
        assert(keys.take(i) =~= keys);
        lemma_pkg_sums_base(keys, m, keys.len() as int);
    }
}

/// Sums over a prefix are not negative.
proof fn lemma_pkg_sums_base(
    keys: Seq<Seq<char>>,
    m: Map<Seq<char>, (TimesView, TimesView, TimesView)>,
    i: int,
)
    requires
        0 <= i <= keys.len(),
        forall|k: Seq<char>| #[trigger]
            m.dom().contains(k) ==> m[k].0.n >= 0 && m[k].0.total >= 0 && m[k].1.n >= 0
                && m[k].1.total >= 0 && m[k].2.n >= 0 && m[k].2.total >= 0,
        forall|j: int| 0 <= j < keys.len() ==> m.dom().contains(#[trigger] keys[j]),
    ensures
        sums_between(pkg_sums(keys.take(i), m), pkg_sums(keys.take(i), m)),
    decreases i,
{
    if i > 0 {
        lemma_pkg_sums_base(keys, m, i - 1);
        assert(keys.take(i).drop_last() =~= keys.take(i - 1));
    }
}

impl StatsState {
    /// The totals over all packages of merges, binary merges and unmerges: count, total time,
    /// and average time (`-1` without any).
    pub fn totals(&self) -> (r: (TimeStats, TimeStats, TimeStats))
        requires
            stats_counts_ok(self.view()),
            sums_fit(pkg_sums(self.pkg_keys(), self.view().pkgs)),
        ensures
            (ts_tuple(r.0), ts_tuple(r.1), ts_tuple(r.2)) == totals_spec(
                pkg_sums(self.pkg_keys(), self.view().pkgs),
            ),
    {
        let ghost keys = self.pkg_keys();
        let ghost m = self.view().pkgs;
        proof {
            assert forall|j: int| 0 <= j < keys.len() implies m.dom().contains(#[trigger] keys[j]) by {
                self.pkgs.lemma_key_seq_dom(j);
            }
        }
        let n = self.pkgs.len();
        let mut mc: i64 = 0;
        let mut mt: i64 = 0;
        let mut bc: i64 = 0;
        let mut bt: i64 = 0;
        let mut uc: i64 = 0;
        let mut ut: i64 = 0;
        let mut i: usize = 0;
        while i < n
            invariant
                i <= n == keys.len(),
                keys == self.pkg_keys(),
                m == self.view().pkgs,
                sums_fit(pkg_sums(keys, m)),
                forall|k: Seq<char>| #[trigger]
                    m.dom().contains(k) ==> m[k].0.n >= 0 && m[k].0.total >= 0 && m[k].1.n >= 0
                        && m[k].1.total >= 0 && m[k].2.n >= 0 && m[k].2.total >= 0,
                forall|j: int| 0 <= j < keys.len() ==> m.dom().contains(#[trigger] keys[j]),
                (mc as int, mt as int, bc as int, bt as int, uc as int, ut as int) == pkg_sums(
                    keys.take(i as int),
                    m,
                ),
            decreases n - i,
        {
            let (k, p) = self.pkgs.entry(i);
            proof {
                lemma_pkg_sums_nonneg(keys, m, i + 1);
                assert(keys.take(i + 1).drop_last() =~= keys.take(i as int));
                assert(keys.take(i + 1).last() == k@);
                assert(m[k@] == pt_view(*p));
            }
            mc = mc + p.merge.count();
            mt = mt + p.merge.tot();
            bc = bc + p.bin.count();
            bt = bt + p.bin.tot();
            uc = uc + p.unmerge.count();
            ut = ut + p.unmerge.tot();
            i += 1;
        }
        assert(keys.take(n as int) =~= keys);
        proof {
            lemma_pkg_sums_nonneg(keys, m, n as int);
        }
        let ma = if mc == 0 { -1 } else { mt / mc };
        let ba = if bc == 0 { -1 } else { bt / bc };
        let ua = if uc == 0 { -1 } else { ut / uc };
        (
            TimeStats { count: mc, tot: mt, pred: ma },
            TimeStats { count: bc, tot: bt, pred: ba },
            TimeStats { count: uc, tot: ut, pred: ua },
        )
    }
}


impl StatsState {
    /// Whether the totals over all packages fit in the counters, so that `totals` may add them.
    pub fn totals_fit(&self) -> (r: bool)
        requires
            stats_counts_ok(self.view()),
        ensures
            r == sums_fit(pkg_sums(self.pkg_keys(), self.view().pkgs)),
    {
        let ghost keys = self.pkg_keys();
        let ghost m = self.view().pkgs;
        proof {
            assert forall|j: int| 0 <= j < keys.len() implies m.dom().contains(#[trigger] keys[j]) by {
                self.pkgs.lemma_key_seq_dom(j);
            }
        }
        let n = self.pkgs.len();
        let mut s: [i128; 6] = [0, 0, 0, 0, 0, 0];
        let mut i: usize = 0;
        while i < n
            invariant
                i <= n == keys.len(),
                keys == self.pkg_keys(),
                m == self.view().pkgs,
                forall|k: Seq<char>| #[trigger]
                    m.dom().contains(k) ==> m[k].0.n >= 0 && m[k].0.total >= 0 && m[k].1.n >= 0
                        && m[k].1.total >= 0 && m[k].2.n >= 0 && m[k].2.total >= 0,
                forall|j: int| 0 <= j < keys.len() ==> m.dom().contains(#[trigger] keys[j]),
                (s[0] as int, s[1] as int, s[2] as int, s[3] as int, s[4] as int, s[5] as int)
                    == pkg_sums(keys.take(i as int), m),
                sums_fit(pkg_sums(keys.take(i as int), m)),
            decreases n - i,
        {
            let (k, p) = self.pkgs.entry(i);
            proof {
                lemma_pkg_sums_nonneg(keys, m, i + 1);
                lemma_pkg_sums_nonneg(keys, m, i as int);
                assert(keys.take(i + 1).drop_last() =~= keys.take(i as int));
                assert(keys.take(i + 1).last() == k@);
                assert(m[k@] == pt_view(*p));
            }
            s = [
                s[0] + p.merge.count() as i128,
                s[1] + p.merge.tot() as i128,
                s[2] + p.bin.count() as i128,
                s[3] + p.bin.tot() as i128,
                s[4] + p.unmerge.count() as i128,
                s[5] + p.unmerge.tot() as i128,
            ];
            let lim = i64::MAX as i128;
            if s[0] > lim || s[1] > lim || s[2] > lim || s[3] > lim || s[4] > lim || s[5] > lim {
                proof {
                    lemma_pkg_sums_nonneg(keys, m, i + 1);
                }
                return false;
            }
            i += 1;
        }
        assert(keys.take(n as int) =~= keys);
        true
    }
}


/// The `log` state after a sequence of events, and how many rows they printed.
pub open spec fn log_fold(st: LogViewState, hs: Seq<HistView>, first: nat, starttime: bool) -> (
    LogViewState,
    nat,
)
    decreases hs.len(),
{
    if hs.len() == 0 {
        (st, 0)
    } else {
        let (st1, e) = log_next(st, hs[0], first, starttime);
        let (st2, n) = log_fold(st1, hs.drop_first(), first, starttime);
        (st2, n + if e is Some {
            1nat
        } else {
            0nat
        })
    }
}

/// With `--first N`, the `log` command prints at most `N` rows, whatever the events: each
/// printed row is counted, and nothing is printed once the count passes `N`.
pub proof fn lemma_log_first(st: LogViewState, hs: Seq<HistView>, first: nat, starttime: bool)
    ensures
        st.found <= first ==> log_fold(st, hs, first, starttime).1 + st.found <= first,
        st.found > first ==> log_fold(st, hs, first, starttime).1 == 0,
        log_fold(st, hs, first, starttime).0.found >= st.found + log_fold(st, hs, first, starttime).1,
    decreases hs.len(),
{
    if hs.len() > 0 {
        let (st1, e) = log_next(st, hs[0], first, starttime);
        lemma_log_first(st1, hs.drop_first(), first, starttime);
        assert(st1.found >= st.found);
        assert(e is Some ==> st1.found == st.found + 1 && st1.found <= first);
    }
}

/// The `stats` state after the events `hs`, from `st`, with the moves `m`.
pub open spec fn stats_fold(st: StatsView, hs: Seq<HistView>, m: Map<Seq<char>, Seq<char>>) -> StatsView
    decreases hs.len(),
{
    if hs.len() == 0 {
        st
    } else {
        stats_next(stats_fold(st, hs.drop_last(), m), hs.last(), m)
    }
}

/// The state at the start of a new group: the statistics are forgotten, the pending starts kept.
pub open spec fn stats_cleared(st: StatsView) -> StatsView {
    StatsView { pkgs: Map::empty(), syncs: Map::empty(), runs: Map::empty(), ..st }
}

/// The durations of a repository's syncs, or none yet.
pub open spec fn sync_or_new(st: StatsView, repo: Seq<char>) -> TimesView {
    if st.syncs.dom().contains(repo) {
        st.syncs[repo]
    } else {
        tv_new()
    }
}

/// The count and the total of `a` are those of `b` and `c` together.
pub open spec fn tv_sum(a: TimesView, b: TimesView, c: TimesView) -> bool {
    a.n == b.n + c.n && a.total == b.total + c.total
}

/// `whole` holds the counts and totals of `before` and of `group` together, and the pending
/// starts of `group`.
pub open spec fn stats_split(whole: StatsView, before: StatsView, group: StatsView) -> bool {
    &&& whole.merge_start == group.merge_start
    &&& whole.unmerge_start == group.unmerge_start
    &&& whole.sync_start == group.sync_start
    &&& forall|p: Seq<char>|
        {
            let (w, b, g) = (#[trigger] pkg_or_new(whole, p), pkg_or_new(before, p), pkg_or_new(group, p));
            tv_sum(w.0, b.0, g.0) && tv_sum(w.1, b.1, g.1) && tv_sum(w.2, b.2, g.2)
        }
    &&& forall|r: Seq<char>|
        tv_sum(#[trigger] sync_or_new(whole, r), sync_or_new(before, r), sync_or_new(group, r))
    &&& forall|k: ArgKind| #[trigger] run_count(whole, k) == run_count(before, k) + run_count(group, k)
}

/// Grouping the `stats` command by time span only splits the events: the counts and total
/// times after a run of events are those from before it plus those that the same events give
/// in a new group (after `clear_group`), so summing each column over the groups gives the
/// ungrouped counts and totals.
pub proof fn lemma_stats_group(st: StatsView, hs: Seq<HistView>, m: Map<Seq<char>, Seq<char>>)
    ensures
        stats_split(stats_fold(st, hs, m), st, stats_fold(stats_cleared(st), hs, m)),
    decreases hs.len(),
{
    if hs.len() > 0 {
        let q = hs.drop_last();
        let h = hs.last();
        lemma_stats_group(st, q, m);
        let a = stats_fold(st, q, m);
        let g = stats_fold(stats_cleared(st), q, m);
        let a2 = stats_fold(st, hs, m);
        let g2 = stats_fold(stats_cleared(st), hs, m);
        assert(a2 == stats_next(a, h, m));
        assert(g2 == stats_next(g, h, m));
        assert forall|p: Seq<char>| {
            let (w, b, c) = (#[trigger] pkg_or_new(a2, p), pkg_or_new(st, p), pkg_or_new(g2, p));
            tv_sum(w.0, b.0, c.0) && tv_sum(w.1, b.1, c.1) && tv_sum(w.2, b.2, c.2)
        } by {
            let w0 = pkg_or_new(a, p);
        }
        assert forall|r: Seq<char>|
            tv_sum(#[trigger] sync_or_new(a2, r), sync_or_new(st, r), sync_or_new(g2, r)) by {
            assert(tv_sum(sync_or_new(a, r), sync_or_new(st, r), sync_or_new(g, r)));
        }
        assert forall|k: ArgKind|
            #[trigger] run_count(a2, k) == run_count(st, k) + run_count(g2, k) by {
            assert(run_count(a, k) == run_count(st, k) + run_count(g, k));
            assert(run_count(a, ArgKind::All) == run_count(st, ArgKind::All) + run_count(g, ArgKind::All));
        }
    } else {
        let c = stats_cleared(st);
        assert forall|k: ArgKind| #[trigger] run_count(st, k) == run_count(st, k) + run_count(c, k) by {}
    }
}

/// The `log` state before any event.
pub open spec fn log_init() -> LogViewState {
    LogViewState { merges: Map::empty(), unmerges: Map::empty(), sync_start: None, found: 0 }
}

/// The start time of the pending merge of `key` after the events `hs`: that of its latest
/// start, unless a stop of `key` came after it.
pub open spec fn pending_merge(hs: Seq<HistView>, key: Seq<char>) -> Option<i64>
    decreases hs.len(),
{
    if hs.len() == 0 {
        None
    } else {
        match hs.last() {
            HistView::MergeStart { ts, key: k, .. } => if k == key {
                Some(ts)
            } else {
                pending_merge(hs.drop_last(), key)
            },
            HistView::MergeStop { key: k, .. } => if k == key {
                None
            } else {
                pending_merge(hs.drop_last(), key)
            },
            _ => pending_merge(hs.drop_last(), key),
        }
    }
}

/// The start time of the pending unmerge of `key` after the events `hs`: that of its latest
/// start, unless a stop of `key` came after it.
pub open spec fn pending_unmerge(hs: Seq<HistView>, key: Seq<char>) -> Option<i64>
    decreases hs.len(),
{
    if hs.len() == 0 {
        None
    } else {
        match hs.last() {
            HistView::UnmergeStart { ts, key: k, .. } => if k == key {
                Some(ts)
            } else {
                pending_unmerge(hs.drop_last(), key)
            },
            HistView::UnmergeStop { key: k, .. } => if k == key {
                None
            } else {
                pending_unmerge(hs.drop_last(), key)
            },
            _ => pending_unmerge(hs.drop_last(), key),
        }
    }
}

/// The start time of the pending sync after the events `hs`: that of the latest sync start,
/// unless a sync stop came after it.
pub open spec fn pending_sync(hs: Seq<HistView>) -> Option<i64>
    decreases hs.len(),
{
    if hs.len() == 0 {
        None
    } else {
        match hs.last() {
            HistView::SyncStart { ts } => Some(ts),
            HistView::SyncStop { .. } => None,
            _ => pending_sync(hs.drop_last()),
        }
    }
}

/// Folding one more event at the end takes one more step from where the others left.
proof fn lemma_log_fold_push(
    st: LogViewState,
    hs: Seq<HistView>,
    h: HistView,
    first: nat,
    starttime: bool,
)
    ensures
        log_fold(st, hs.push(h), first, starttime).0 == log_next(
            log_fold(st, hs, first, starttime).0,
            h,
            first,
            starttime,
        ).0,
    decreases hs.len(),
{
    if hs.len() == 0 {
        assert(hs.push(h).drop_first() =~= Seq::<HistView>::empty());
        assert(hs.push(h)[0] == h);
        let st1 = log_next(st, h, first, starttime).0;
        assert(log_fold(st1, Seq::<HistView>::empty(), first, starttime).0 == st1);
    } else {
        let st1 = log_next(st, hs[0], first, starttime).0;
        assert(hs.push(h).drop_first() =~= hs.drop_first().push(h));
        assert(hs.push(h)[0] == hs[0]);
        lemma_log_fold_push(st1, hs.drop_first(), h, first, starttime);
        assert(log_fold(st, hs, first, starttime).0 == log_fold(st1, hs.drop_first(), first, starttime).0);
        assert(log_fold(st, hs.push(h), first, starttime).0 == log_fold(
            st1,
            hs.push(h).drop_first(),
            first,
            starttime,
        ).0);
    }
}

/// After the events `hs`, the `log` state holds exactly the pending starts.
proof fn lemma_log_pending(hs: Seq<HistView>, first: nat, starttime: bool)
    ensures
        ({
            let st = log_fold(log_init(), hs, first, starttime).0;
            &&& forall|k: Seq<char>|
                #[trigger] st.merges.dom().contains(k) == (pending_merge(hs, k) is Some)
            &&& forall|k: Seq<char>|
                st.merges.dom().contains(k) ==> #[trigger] pending_merge(hs, k) == Some(
                    st.merges[k].0,
                )
            &&& forall|k: Seq<char>|
                #[trigger] st.unmerges.dom().contains(k) == (pending_unmerge(hs, k) is Some)
            &&& forall|k: Seq<char>|
                st.unmerges.dom().contains(k) ==> #[trigger] pending_unmerge(hs, k) == Some(
                    st.unmerges[k],
                )
            &&& st.sync_start == pending_sync(hs)
        }),
    decreases hs.len(),
{
    if hs.len() > 0 {
        let p = hs.drop_last();
        let h = hs.last();
        lemma_log_pending(p, first, starttime);
        lemma_log_fold_push(log_init(), p, h, first, starttime);
        assert(p.push(h) =~= hs);
        let a = log_fold(log_init(), p, first, starttime).0;
        let st = log_fold(log_init(), hs, first, starttime).0;
        assert(st == log_next(a, h, first, starttime).0);
        assert forall|k: Seq<char>| #[trigger]
            st.merges.dom().contains(k) == (pending_merge(hs, k) is Some) by {
            assert(a.merges.dom().contains(k) == (pending_merge(p, k) is Some));
        }
        assert forall|k: Seq<char>|
            st.merges.dom().contains(k) implies #[trigger] pending_merge(hs, k) == Some(
                st.merges[k].0,
            ) by {
            assert(a.merges.dom().contains(k) == (pending_merge(p, k) is Some));
            if a.merges.dom().contains(k) {
                assert(pending_merge(p, k) == Some(a.merges[k].0));
            }
        }
        assert forall|k: Seq<char>| #[trigger]
            st.unmerges.dom().contains(k) == (pending_unmerge(hs, k) is Some) by {
            assert(a.unmerges.dom().contains(k) == (pending_unmerge(p, k) is Some));
        }
        assert forall|k: Seq<char>|
            st.unmerges.dom().contains(k) implies #[trigger] pending_unmerge(hs, k) == Some(
                st.unmerges[k],
            ) by {
            assert(a.unmerges.dom().contains(k) == (pending_unmerge(p, k) is Some));
            if a.unmerges.dom().contains(k) {
                assert(pending_unmerge(p, k) == Some(a.unmerges[k]));
            }
        }
    }
}

/// In the `log` command a stop pairs with the latest start of the same package (or, for a sync,
/// the latest sync start) that no stop has used yet: its row's duration is the time between
/// the two, and `-1` when there is no such start.
pub proof fn lemma_log_durations(hs: Seq<HistView>, h: HistView, first: nat, starttime: bool)
    requires
        log_step_ok(log_fold(log_init(), hs, first, starttime).0, h),
    ensures
        ({
            let st = log_fold(log_init(), hs, first, starttime).0;
            match (h, log_next(st, h, first, starttime).1) {
                (HistView::MergeStop { ts, key, .. }, Some(LogEntryView::Merge { dur, .. })) => dur
                    == match pending_merge(hs, key) {
                    Some(s) => ts - s,
                    None => -1,
                },
                (HistView::UnmergeStop { ts, key, .. }, Some(LogEntryView::Unmerge { dur, .. })) => dur
                    == match pending_unmerge(hs, key) {
                    Some(s) => ts - s,
                    None => -1,
                },
                (HistView::SyncStop { ts, .. }, Some(LogEntryView::Sync { dur, .. })) => dur
                    == match pending_sync(hs) {
                    Some(s) => ts - s,
                    None => -1,
                },
                _ => true,
            }
        }),
{
    lemma_log_pending(hs, first, starttime);
    let st = log_fold(log_init(), hs, first, starttime).0;
    match h {
        HistView::MergeStop { key, .. } => {
            assert(st.merges.dom().contains(key) == (pending_merge(hs, key) is Some));
        },
        HistView::UnmergeStop { key, .. } => {
            assert(st.unmerges.dom().contains(key) == (pending_unmerge(hs, key) is Some));
        },
        _ => {},
    }
}

/// With `--starttime`, a `log` row shows when the event started instead of when it ended: the
/// two rows differ only there, by the row's duration, and the state after the event is the same.
pub proof fn lemma_log_starttime(st: LogViewState, h: HistView, first: nat)
    ensures
        log_next(st, h, first, true).0 == log_next(st, h, first, false).0,
        match (log_next(st, h, first, true).1, log_next(st, h, first, false).1) {
            (None, None) => true,
            (Some(LogEntryView::Run { ts: a, args: x }), Some(LogEntryView::Run { ts: b, args: y })) => a
                == b && x == y,
            (
                Some(LogEntryView::Merge { ts: a, dur: d, bin: p, key: x }),
                Some(LogEntryView::Merge { ts: b, dur: e, bin: q, key: y }),
            ) => a + d == b && d == e && p == q && x == y,
            (
                Some(LogEntryView::Unmerge { ts: a, dur: d, key: x }),
                Some(LogEntryView::Unmerge { ts: b, dur: e, key: y }),
            ) => a + d == b && d == e && x == y,
            (
                Some(LogEntryView::Sync { ts: a, dur: d, repo: x }),
                Some(LogEntryView::Sync { ts: b, dur: e, repo: y }),
            ) => a + d == b && d == e && x == y,
            _ => false,
        },
{
}

/// A prediction only looks at the `lim` most recent durations: older ones can be dropped.
pub proof fn lemma_pred_window(vals: Seq<i64>, lim: u16, avg: Average)
    requires
        lim > 0,
    ensures
        pred_spec(vals, lim, avg) == pred_spec(vals.take(window(vals.len(), lim)), lim, avg),
{
    let l = window(vals.len(), lim);
    let w = vals.take(l);
    assert(window(w.len(), lim) == l);
    assert(w.take(l) =~= w);
}


/// Every value of `s` is `d`.
pub open spec fn all_equal(s: Seq<i64>, d: i64) -> bool {
    forall|i: int| 0 <= i < s.len() ==> s[i] == d
}

/// The sum of equal values.
proof fn lemma_sum_equal(s: Seq<i64>, d: i64)
    requires
        all_equal(s, d),
    ensures
        seq_sum(s) == s.len() * d,
    decreases s.len(),
{
    if s.len() > 0 {
        lemma_sum_equal(s.drop_last(), d);
        assert(s.last() == d);
        assert((s.len() - 1) * d + d == s.len() * d) by (nonlinear_arith);
    }
}

/// The weighted sum of equal values.
proof fn lemma_weighted_sum_equal(s: Seq<i64>, l: int, d: i64)
    requires
        all_equal(s, d),
    ensures
        weighted_sum(s, l) == d * weight_total(l, s.len()),
    decreases s.len(),
{
    if s.len() > 0 {
        lemma_weighted_sum_equal(s.drop_last(), l, d);
        assert(s.last() == d);
        let w = weight_total(l, (s.len() - 1) as nat);
        let x = l - (s.len() - 1);
        assert(d * w + d * x == d * (w + x)) by (nonlinear_arith);
    }
}

/// The weights of the first `n` of `l` values are positive.
proof fn lemma_weight_total_pos(l: int, n: nat)
    requires
        1 <= n <= l,
    ensures
        weight_total(l, n) >= n,
    decreases n,
{
    if n > 1 {
        lemma_weight_total_pos(l, (n - 1) as nat);
    } else {
        assert(weight_total(l, 0) == 0);
    }
}

/// Repeating equal values gives equal values, as many as the weights.
proof fn lemma_copies_equal(s: Seq<i64>, l: int, d: i64)
    requires
        all_equal(s, d),
        s.len() <= l,
    ensures
        all_equal(weighted_copies(s, l), d),
        weighted_copies(s, l).len() == weight_total(l, s.len()),
    decreases s.len(),
{
    if s.len() > 0 {
        lemma_copies_equal(s.drop_last(), l, d);
        assert(s.last() == d);
        let a = weighted_copies(s.drop_last(), l);
        let b = Seq::new((l - (s.len() - 1)) as nat, |i: int| s.last());
        assert forall|i: int| 0 <= i < (a + b).len() implies (a + b)[i] == d by {
            if i >= a.len() {
                assert((a + b)[i] == b[i - a.len()]);
            }
        }
    }
}

/// Sorting equal values keeps them, and the median of sorted equal values is that value.
proof fn lemma_median_equal(s: Seq<i64>, d: i64)
    requires
        all_equal(s, d),
        s.len() > 0,
    ensures
        median(sorted(s)) == d,
{
    lemma_le_total();
    s.lemma_sort_by_ensures(|a: i64, b: i64| le(a, b));
    assert(s.to_multiset().len() == s.len());
    assert(sorted(s).to_multiset().len() == sorted(s).len());
    assert forall|i: int| 0 <= i < sorted(s).len() implies sorted(s)[i] == d by {
        let x = sorted(s)[i];
        assert(sorted(s).contains(x));
        assert(s.contains(x));
    }
}

/// When the recent durations are all the same, every average predicts that duration.
pub proof fn lemma_pred_constant(vals: Seq<i64>, lim: u16, avg: Average, d: i64)
    requires
        lim > 0,
        vals.len() > 0,
        all_equal(vals, d),
    ensures
        pred_spec(vals, lim, avg) == d,
{
    let l = window(vals.len(), lim);
    let w = vals.take(l);
    assert(all_equal(w, d));
    match avg {
        Average::Arith => {
            lemma_sum_equal(w, d);
            assert(l * d / l == d) by (nonlinear_arith)
                requires
                    l > 0,
            ;
        },
        Average::Median => {
            lemma_median_equal(w, d);
        },
        Average::WeightedArith => {
            lemma_weighted_sum_equal(w, l, d);
            lemma_weight_total_pos(l, l as nat);
            let t = weight_total(l, l as nat);
            assert(d * t / t == d) by (nonlinear_arith)
                requires
                    t > 0,
            ;
        },
        Average::WeightedMedian => {
            lemma_copies_equal(w, l, d);
            lemma_weight_total_pos(l, l as nat);
            lemma_median_equal(weighted_copies(w, l), d);
        },
    }
}


/// Every value of `s` lies between `lo` and `hi`.
pub open spec fn all_between(s: Seq<i64>, lo: int, hi: int) -> bool {
    forall|i: int| 0 <= i < s.len() ==> lo <= #[trigger] s[i] <= hi
}

/// The sum of values between `lo` and `hi` lies between `len * lo` and `len * hi`.
proof fn lemma_sum_between(s: Seq<i64>, lo: int, hi: int)
    requires
        all_between(s, lo, hi),
    ensures
        s.len() * lo <= seq_sum(s) <= s.len() * hi,
    decreases s.len(),
{
    if s.len() > 0 {
        let n = s.len() - 1;
        assert(all_between(s.drop_last(), lo, hi)) by {
            assert forall|i: int| 0 <= i < n implies lo <= #[trigger] s.drop_last()[i] <= hi by {
                assert(s.drop_last()[i] == s[i]);
            }
        }
        lemma_sum_between(s.drop_last(), lo, hi);
        assert(lo <= s[n] <= hi);
        assert(s.last() == s[n]);
        assert(seq_sum(s) == seq_sum(s.drop_last()) + s[n]);
        assert(s.drop_last().len() == n);
        assert(n * lo + lo == s.len() * lo) by (nonlinear_arith)
            requires
                n == s.len() - 1,
        ;
        assert(n * hi + hi == s.len() * hi) by (nonlinear_arith)
            requires
                n == s.len() - 1,
        ;
    } else {
        assert(s.len() * lo == 0 && s.len() * hi == 0) by (nonlinear_arith)
            requires
                s.len() == 0,
        ;
    }
}

/// The weighted sum of values between `lo` and `hi` lies between `lo` and `hi` times the
/// total weight.
proof fn lemma_weighted_sum_between(s: Seq<i64>, l: int, lo: int, hi: int)
    requires
        all_between(s, lo, hi),
        s.len() <= l,
    ensures
        lo * weight_total(l, s.len()) <= weighted_sum(s, l) <= hi * weight_total(l, s.len()),
    decreases s.len(),
{
    if s.len() > 0 {
        let n = s.len() - 1;
        assert(all_between(s.drop_last(), lo, hi)) by {
            assert forall|i: int| 0 <= i < n implies lo <= #[trigger] s.drop_last()[i] <= hi by {
                assert(s.drop_last()[i] == s[i]);
            }
        }
        lemma_weighted_sum_between(s.drop_last(), l, lo, hi);
        let w = weight_total(l, n as nat);
        let x = l - n;
        let v: int = s[n] as int;
        assert(lo <= v <= hi);
        assert(x >= 1);
        assert(lo * x <= v * x <= hi * x) by (nonlinear_arith)
            requires
                lo <= v <= hi,
                x >= 1,
        ;
        assert(lo * w + lo * x == lo * (w + x)) by (nonlinear_arith);
        assert(hi * w + hi * x == hi * (w + x)) by (nonlinear_arith);
        assert(v * x == s.last() * (l - (s.len() - 1)));
    }
}

/// The weighted copies of values between `lo` and `hi` lie between them too.
proof fn lemma_copies_between(s: Seq<i64>, l: int, lo: int, hi: int)
    requires
        all_between(s, lo, hi),
        s.len() <= l,
    ensures
        all_between(weighted_copies(s, l), lo, hi),
        weighted_copies(s, l).len() == weight_total(l, s.len()),
    decreases s.len(),
{
    if s.len() > 0 {
        let n = s.len() - 1;
        assert(all_between(s.drop_last(), lo, hi)) by {
            assert forall|i: int| 0 <= i < n implies lo <= #[trigger] s.drop_last()[i] <= hi by {
                assert(s.drop_last()[i] == s[i]);
            }
        }
        lemma_copies_between(s.drop_last(), l, lo, hi);
        assert(lo <= s[n] <= hi);
        let a = weighted_copies(s.drop_last(), l);
        let b = Seq::new((l - n) as nat, |i: int| s.last());
        assert forall|i: int| 0 <= i < (a + b).len() implies lo <= #[trigger] (a + b)[i] <= hi by {
            if i >= a.len() {
                assert((a + b)[i] == b[i - a.len()]);
            } else {
                assert((a + b)[i] == a[i]);
            }
        }
    }
}

/// The median of values between `lo` and `hi` lies between them too.
proof fn lemma_median_between(s: Seq<i64>, lo: int, hi: int)
    requires
        all_between(s, lo, hi),
        s.len() > 0,
    ensures
        lo <= median(sorted(s)) <= hi,
{
    lemma_le_total();
    s.lemma_sort_by_ensures(|a: i64, b: i64| le(a, b));
    assert(s.to_multiset().len() == s.len());
    assert(sorted(s).to_multiset().len() == sorted(s).len());
    let t = sorted(s);
    assert forall|i: int| 0 <= i < t.len() implies lo <= #[trigger] t[i] <= hi by {
        assert(t.contains(t[i]));
        assert(s.contains(t[i]));
    }
    let h = (t.len() / 2) as int;
    if t.len() % 2 == 0 {
        let a: int = t[h - 1] as int;
        let b: int = t[h] as int;
        assert(lo <= a <= hi && lo <= b <= hi);
        assert(lo <= (a + b) / 2 <= hi) by (nonlinear_arith)
            requires
                lo <= a <= hi,
                lo <= b <= hi,
        ;
    } else {
        assert(lo <= t[h] <= hi);
    }
}

/// A quotient of a value between `n * lo` and `n * hi` by `n` lies between `lo` and `hi`.
proof fn lemma_div_between(x: int, n: int, lo: int, hi: int)
    requires
        n > 0,
        n * lo <= x <= n * hi,
    ensures
        lo <= x / n <= hi,
{
    vstd::arithmetic::div_mod::lemma_div_is_ordered(n * lo, x, n);
    vstd::arithmetic::div_mod::lemma_div_is_ordered(x, n * hi, n);
    vstd::arithmetic::div_mod::lemma_div_multiples_vanish(lo, n);
    vstd::arithmetic::div_mod::lemma_div_multiples_vanish(hi, n);
}

/// A prediction lies between the smallest and the largest of the durations it looks at: when
/// the `lim` most recent durations all lie between `lo` and `hi`, so does every average of them.
pub proof fn lemma_pred_between(vals: Seq<i64>, lim: u16, avg: Average, lo: int, hi: int)
    requires
        lim > 0,
        vals.len() > 0,
        all_between(vals.take(window(vals.len(), lim)), lo, hi),
    ensures
        lo <= pred_spec(vals, lim, avg) <= hi,
{
    let l = window(vals.len(), lim);
    let w = vals.take(l);
    match avg {
        Average::Arith => {
            lemma_sum_between(w, lo, hi);
            assert(l * lo == w.len() * lo);
            lemma_div_between(seq_sum(w), l, lo, hi);
        },
        Average::Median => {
            lemma_median_between(w, lo, hi);
        },
        Average::WeightedArith => {
            lemma_weighted_sum_between(w, l, lo, hi);
            lemma_weight_total_pos(l, l as nat);
            let t = weight_total(l, l as nat);
            assert(t * lo == lo * t && t * hi == hi * t) by (nonlinear_arith);
            lemma_div_between(weighted_sum(w, l), t, lo, hi);
        },
        Average::WeightedMedian => {
            lemma_copies_between(w, l, lo, hi);
            lemma_weight_total_pos(l, l as nat);
            lemma_median_between(weighted_copies(w, l), lo, hi);
        },
    }
}


/// A non-empty sequence has a smallest and a largest value.
proof fn lemma_min_max(s: Seq<i64>) -> (r: (int, int))
    requires
        s.len() > 0,
    ensures
        0 <= r.0 < s.len(),
        0 <= r.1 < s.len(),
        all_between(s, s[r.0] as int, s[r.1] as int),
    decreases s.len(),
{
    if s.len() == 1 {
        (0, 0)
    } else {
        let (a, b) = lemma_min_max(s.drop_last());
        let n = s.len() - 1;
        let lo = if s[n] < s[a] { n } else { a };
        let hi = if s[n] > s[b] { n } else { b };
        assert forall|i: int| 0 <= i < s.len() implies s[lo] <= #[trigger] s[i] <= s[hi] by {
            if i < n {
                assert(s.drop_last()[i] == s[i]);
            }
        }
        (lo, hi)
    }
}

/// A prediction lies between the smallest and the largest of the durations it looks at (the
/// `lim` most recent ones).
pub proof fn lemma_pred_in_window(vals: Seq<i64>, lim: u16, avg: Average)
    requires
        lim > 0,
        vals.len() > 0,
    ensures
        ({
            let w = vals.take(window(vals.len(), lim));
            &&& exists|i: int| 0 <= i < w.len() && w[i] <= pred_spec(vals, lim, avg)
            &&& exists|j: int| 0 <= j < w.len() && pred_spec(vals, lim, avg) <= w[j]
        }),
{
    let w = vals.take(window(vals.len(), lim));
    let (a, b) = lemma_min_max(w);
    lemma_pred_between(vals, lim, avg, w[a] as int, w[b] as int);
}


/// Whether one more duration fits in these durations (see [`tv_room`]).
pub fn times_room(t: &Times, d: i64) -> (r: bool)
    ensures
        r == tv_room(t.tv(), d),
{
    t.count() < i64::MAX && (d <= 0 || t.tot() <= i64::MAX - d)
}

impl StatsState {
    /// Whether the duration that this event adds still fits in its counts and totals, so that
    /// `step` may take it.
    pub fn room(&self, h: &Hist, moves: &PkgMoves) -> (r: bool)
        requires
            stats_starts_ok(self.view()),
            0 <= h@.ts(),
            h@.wf(),
        ensures
            r == stats_room(self.view(), h@, moves.view()),
    {
        match h {
            Hist::RunStart { args, .. } => {
                let k = ArgKind::new(args.as_str());
                proof {
                    lemma_arg_kind_not_all(words(args@, true));
                }
                let c = match k {
                    ArgKind::All => self.run_all,
                    ArgKind::Merge => self.run_merge,
                    ArgKind::Clean => self.run_clean,
                    ArgKind::Sync => self.run_sync,
                };
                assert(run_count(self.view(), ArgKind::All) == self.run_all);
                assert(run_count(self.view(), k) == c);
                self.run_all < usize::MAX - 1 && c < usize::MAX - 1
            },
            Hist::MergeStop { ts, key, .. } => {
                let k = moves.get_ref(key);
                match self.merge_start.get(k.as_str()) {
                    Some(x) => {
                        let (start, bin) = *x;
                        assert(self.view().merge_start.dom().contains(k@));
                        proof {
                            crate::parse::history::lemma_wf_cuts(h@);
                        }
                        let e = h.ebuild();
                        let p = moves.get(to_string(e));
                        proof {
                            vstd::utf8::encode_utf8_decode_utf8(e@);
                        }
                        let d = *ts - start;
                        match self.pkgs.get(p.as_str()) {
                            Some(t) => if bin {
                                times_room(&t.bin, d)
                            } else {
                                times_room(&t.merge, d)
                            },
                            None => true,
                        }
                    },
                    None => true,
                }
            },
            Hist::UnmergeStop { ts, key, .. } => {
                let k = moves.get_ref(key);
                match self.unmerge_start.get(k.as_str()) {
                    Some(x) => {
                        let start = *x;
                        assert(self.view().unmerge_start.dom().contains(k@));
                        proof {
                            crate::parse::history::lemma_wf_cuts(h@);
                        }
                        let e = h.ebuild();
                        let p = moves.get(to_string(e));
                        proof {
                            vstd::utf8::encode_utf8_decode_utf8(e@);
                        }
                        let d = *ts - start;
                        match self.pkgs.get(p.as_str()) {
                            Some(t) => times_room(&t.unmerge, d),
                            None => true,
                        }
                    },
                    None => true,
                }
            },
            Hist::SyncStop { ts, repo } => match self.sync_start {
                Some(start) => {
                    let d = *ts - start;
                    match self.syncs.get(repo.as_str()) {
                        Some(t) => times_room(t, d),
                        None => true,
                    }
                },
                None => true,
            },
            _ => true,
        }
    }
}

/// Where `stats` is in its time groups: the start of the next group (`0` before the first event)
/// and the first timestamp of the current group.
pub struct GroupClock {
    pub next: i64,
    pub cur: i64,
}

impl GroupClock {
    /// Before the first event.
    pub fn new() -> (r: Self)
        ensures
            r.next == 0,
            r.cur == 0,
    {
        GroupClock { next: 0, cur: 0 }
    }

    /// Whether an event at `t` starts a group: it is the first one, or it comes after the start
    /// of the next group.
    pub fn starts_group(&self, t: i64) -> (r: bool)
        ensures
            r == (self.next == 0 || t > self.next),
    {
        self.next == 0 || t > self.next
    }

    /// Starts a group with an event at `t`, the next group starting at `next`; returns the first
    /// timestamp of the group this closes, if there was one.
    pub fn start(&mut self, t: i64, next: i64) -> (r: Option<i64>)
        ensures
            r == (if old(self).next == 0 {
                None
            } else {
                Some(old(self).cur)
            }),
            final(self).next == next,
            final(self).cur == t,
    {
        let closed = if self.next == 0 {
            None
        } else {
            Some(self.cur)
        };
        self.next = next;
        self.cur = t;
        closed
    }
}

} // verus!
