use emlop::accuracy::AccuracyState;
use emlop::commands::{ArgKind, GroupClock, LogEntry, LogState, StatsState};
use emlop::config::types::{Average, DurationStyle};
use emlop::parse::current::Pkg;
use emlop::parse::history::Hist;
use emlop::parse::moves::PkgMoves;
use emlop::predict::{PredTotals, PredictState};

fn mstart(ts: i64, key: &str) -> Hist {
    Hist::MergeStart { ts, key: key.to_string(), pos: key.rfind('-').unwrap() + 1 }
}
fn mstop(ts: i64, key: &str) -> Hist {
    Hist::MergeStop { ts, key: key.to_string(), pos: key.rfind('-').unwrap() + 1 }
}
fn mbin(ts: i64, key: &str) -> Hist {
    Hist::MergeBin { ts, key: key.to_string(), pos: key.rfind('-').unwrap() + 1 }
}

#[test]
fn arg_kinds() {
    assert_eq!(ArgKind::new("--ask --update world"), ArgKind::Merge);
    assert_eq!(ArgKind::new("--depclean foo"), ArgKind::Clean);
    assert_eq!(ArgKind::new("-av --sync"), ArgKind::Sync);
    assert_eq!(ArgKind::new(""), ArgKind::Merge);
}

#[test]
fn log_merges() {
    let mut st = LogState::new();
    assert!(st.step(mstart(10, "a/b-1"), usize::MAX, false).is_none());
    assert!(st.step(mbin(11, "a/b-1"), usize::MAX, false).is_none());
    match st.step(mstop(25, "a/b-1"), usize::MAX, false) {
        Some(LogEntry::Merge { ts, dur, bin, key }) => {
            assert_eq!((ts, dur, bin, key.as_str()), (25, 15, true, "a/b-1"));
        },
        _ => panic!("expected a merge"),
    }
    // Unknown start: negative duration, reported at the start time when asked
    match st.step(mstop(30, "a/b-1"), usize::MAX, true) {
        Some(LogEntry::Merge { ts, dur, bin, .. }) => assert_eq!((ts, dur, bin), (31, -1, false)),
        _ => panic!("expected a merge"),
    }
    assert_eq!(st.found(), 2);
}

#[test]
fn log_first() {
    let mut st = LogState::new();
    st.step(Hist::RunStart { ts: 1, args: "-av foo".into() }, 1, false).unwrap();
    assert!(st.step(Hist::RunStart { ts: 2, args: "-av bar".into() }, 1, false).is_none());
    assert_eq!(st.found(), 2);
    st.step(Hist::SyncStart { ts: 5 }, 1, false);
    assert!(st.step(Hist::SyncStop { ts: 9, repo: "gentoo".into() }, 1, false).is_none());
}

#[test]
fn stats_pkgs() {
    let moves = PkgMoves::empty();
    let mut st = StatsState::new();
    for (a, b) in [(10, 20), (30, 60)] {
        st.step(&mstart(a, "a/b-1"), &moves);
        st.step(&mstop(b, "a/b-1"), &moves);
    }
    st.step(&mstart(100, "c/d-2"), &moves);
    st.step(&mbin(101, "c/d-2"), &moves);
    st.step(&mstop(104, "c/d-2"), &moves);
    st.step(&Hist::RunStart { ts: 1, args: "--sync".into() }, &moves);
    st.step(&Hist::RunStart { ts: 2, args: "-av foo".into() }, &moves);
    assert!(st.has_data());
    let rows = st.pkg_rows(10, Average::Arith);
    assert_eq!(rows.len(), 2);
    assert_eq!(rows[0].pkg, "a/b");
    assert_eq!((rows[0].merge.count, rows[0].merge.tot, rows[0].merge.pred), (2, 40, 20));
    assert_eq!(rows[0].bin.count, 0);
    assert_eq!(rows[1].pkg, "c/d");
    assert_eq!((rows[1].bin.count, rows[1].bin.tot), (1, 4));
    assert_eq!(st.run_counts(), Some((2, 1, 0, 1)));
    let (m, b, u) = st.totals();
    assert_eq!((m.count, m.tot, m.pred), (2, 40, 20));
    assert_eq!((b.count, b.tot, b.pred), (1, 4, 4));
    assert_eq!((u.count, u.tot, u.pred), (0, 0, -1));
    st.clear_group();
    assert!(!st.has_data());
    assert_eq!(st.run_counts(), None);
}

#[test]
fn stats_syncs_and_moves() {
    let mut moves = PkgMoves::empty();
    moves.add_line("move old/name new/name");
    let mut st = StatsState::new();
    st.step(&mstart(10, "old/name-1"), &moves);
    st.step(&mstop(20, "old/name-1"), &moves);
    st.step(&Hist::SyncStart { ts: 30 }, &moves);
    st.step(&Hist::SyncStop { ts: 42, repo: "gentoo".into() }, &moves);
    let rows = st.pkg_rows(10, Average::Median);
    assert_eq!(rows.len(), 1);
    assert_eq!(rows[0].pkg, "new/name");
    let syncs = st.sync_rows(10, Average::Arith);
    assert_eq!(syncs.len(), 1);
    assert_eq!(syncs[0].repo, "gentoo");
    assert_eq!((syncs[0].times.count, syncs[0].times.tot), (1, 12));
}

#[test]
fn predict_known_and_unknown() {
    let moves = PkgMoves::empty();
    let mut st = PredictState::new();
    st.step(&mstart(10, "a/b-1"), &moves);
    st.step(&mstop(70, "a/b-1"), &moves);
    st.step(&mstart(100, "a/b-2"), &moves);
    let p = Pkg::try_new("a/b-2", false).unwrap();
    let r = st.predict_pkg(&p, &vec![], 50, 130, 10, Average::Arith, 5, 10);
    assert_eq!((r.elapsed, r.shown, r.pred, r.known), (30, 60, 60, true));
    let q = Pkg::try_new("x/y-1", true).unwrap();
    let r2 = st.predict_pkg(&q, &vec![], 50, 130, 10, Average::Arith, 5, 10);
    assert_eq!((r2.elapsed, r2.shown, r2.pred, r2.known), (0, i64::MIN + 5, 5, false));
    let mut t = PredTotals::new();
    t.add(false, &r);
    t.add(true, &r2);
    assert_eq!((t.count, t.build, t.bin, t.unknown), (2, 1, 1, 1));
}

#[test]
fn accuracy_rows() {
    let mut st = AccuracyState::new();
    assert!(!st.found());
    assert!(st.step(&mstart(0, "a/b-1"), 10, Average::Arith).is_none());
    let r = st.step(&mstop(10, "a/b-1"), 10, Average::Arith).unwrap();
    assert_eq!((r.ts, r.key.as_str(), r.actual, r.pred), (10, "a/b-1", 10, None));
    st.step(&mstart(20, "a/b-2"), 10, Average::Arith);
    let r = st.step(&mstop(50, "a/b-2"), 10, Average::Arith).unwrap();
    assert_eq!((r.actual, r.pred), (30, Some(10)));
    assert!(st.found());
    // A stop without a start gives no row
    assert!(st.step(&mstop(60, "c/d-1"), 10, Average::Arith).is_none());
}

#[test]
fn estimate_line_parts() {
    let mut t = PredTotals::new();
    t.count = 4;
    t.build = 2;
    t.bin = 1;
    t.unknown = 1;
    t.elapsed = 65;
    assert_eq!(t.estimate("C", "R", DurationStyle::Secs, "", ""),
               vec!["Estimate for ", "C", "2", "R", " builds", ", ", "C", "1", "R", " binary", ", ",
                    "C", "1", "R", " unknown", ", ", "65", "R", " elapsed"]);
    t.build = 1;
    t.bin = 0;
    t.unknown = 0;
    t.elapsed = 0;
    assert_eq!(t.estimate("C", "R", DurationStyle::Secs, "", ""),
               vec!["Estimate for ", "C", "1", "R", " build"]);
    t.build = 0;
    t.bin = 2;
    assert_eq!(t.estimate("C", "R", DurationStyle::Secs, "", ""),
               vec!["Estimate for ", "", "C", "2", "R", " binaries"]);
}

#[test]
fn stats_group_clock() {
    let mut c = GroupClock::new();
    assert!(c.starts_group(5));
    assert_eq!(c.start(5, 10), None);
    assert!(!c.starts_group(10));
    assert!(c.starts_group(11));
    assert_eq!(c.start(11, 20), Some(5));
    assert_eq!((c.next, c.cur), (20, 11));
}

#[test]
fn predict_totals_sum() {
    let rows = [(false, 100, 30, true), (true, 20, 50, true), (false, 5, 0, false)];
    let mut t = PredTotals::new();
    for &(bin, pred, elapsed, known) in rows.iter() {
        let r = emlop::predict::PredRow { elapsed, shown: pred, pred, known };
        assert!(t.room(&r));
        t.add(bin, &r);
    }
    // 70 + 0 (already past its prediction) + 5
    assert_eq!((t.count, t.build, t.bin, t.unknown, t.predict, t.elapsed), (3, 2, 1, 1, 75, 80));
}

#[test]
fn log_pairs_latest_start() {
    let mut st = LogState::new();
    assert!(st.step(mstart(10, "a/b-1"), 10, false).is_none());
    assert!(st.step(mstart(20, "a/b-1"), 10, false).is_none());
    match st.step(mstop(50, "a/b-1"), 10, false) {
        Some(LogEntry::Merge { ts, dur, .. }) => assert_eq!((ts, dur), (50, 30)),
        _ => panic!("expected a merge row"),
    }
    // That start was used: a second stop has none
    match st.step(mstop(60, "a/b-1"), 10, false) {
        Some(LogEntry::Merge { ts, dur, .. }) => assert_eq!((ts, dur), (60, -1)),
        _ => panic!("expected a merge row"),
    }
}

#[test]
fn accuracy_same_package_only() {
    let mut st = AccuracyState::new();
    st.step(&mstart(0, "a/b-1"), 10, Average::Arith);
    st.step(&mstop(40, "a/b-1"), 10, Average::Arith);
    st.step(&mstart(100, "c/d-1"), 10, Average::Arith);
    let r = st.step(&mstop(110, "c/d-1"), 10, Average::Arith).unwrap();
    assert_eq!((r.actual, r.pred), (10, None));
    st.step(&mstart(200, "a/b-2"), 10, Average::Arith);
    let r = st.step(&mstop(220, "a/b-2"), 10, Average::Arith).unwrap();
    assert_eq!((r.actual, r.pred), (20, Some(40)));
}

#[test]
fn predict_estimate_list() {
    let moves = PkgMoves::empty();
    let mut st = PredictState::new();
    st.step(&mstart(10, "a/b-1"), &moves);
    st.step(&mstop(70, "a/b-1"), &moves);
    st.step(&mstart(100, "a/b-2"), &moves);
    let pkgs = vec![Pkg::try_new("a/b-2", false).unwrap(), Pkg::try_new("x/y-1", true).unwrap()];
    let (rows, tot) = st.estimate_pending(&pkgs, &vec![], 50, 130, 10, Average::Arith, 5, 10).unwrap();
    assert_eq!(rows.len(), 2);
    assert_eq!((rows[0].elapsed, rows[0].shown, rows[0].pred, rows[0].known), (30, 60, 60, true));
    assert_eq!((rows[1].elapsed, rows[1].shown, rows[1].pred, rows[1].known), (0, i64::MIN + 5, 5, false));
    // 60 - 30 still to wait for the first, 5 for the unknown binary
    assert_eq!((tot.count, tot.build, tot.bin, tot.unknown, tot.predict, tot.elapsed), (2, 1, 1, 1, 35, 30));
    let none = PredictState::new();
    let (rows, tot) = none.estimate_pending(&vec![], &vec![], 0, 0, 10, Average::Arith, 5, 10).unwrap();
    assert!(rows.is_empty());
    assert_eq!(tot.count, 0);
}

#[test]
fn stats_groups_add_up() {
    let moves = PkgMoves::empty();
    let evs = [mstart(0, "a/b-1"), mstop(10, "a/b-1"), mstart(20, "a/b-2"), mstop(50, "a/b-2")];
    let mut whole = StatsState::new();
    for h in evs.iter() {
        whole.step(h, &moves);
    }
    let mut grouped = StatsState::new();
    let mut counts = 0;
    let mut totals = 0;
    for (i, h) in evs.iter().enumerate() {
        if i == 2 {
            for r in grouped.pkg_rows(10, Average::Arith) {
                counts += r.merge.count;
                totals += r.merge.tot;
            }
            grouped.clear_group();
        }
        grouped.step(h, &moves);
    }
    for r in grouped.pkg_rows(10, Average::Arith) {
        counts += r.merge.count;
        totals += r.merge.tot;
    }
    let w = whole.pkg_rows(10, Average::Arith);
    assert_eq!((w[0].merge.count, w[0].merge.tot), (counts, totals));
    assert_eq!((counts, totals), (2, 40));
}
