use emlop::parser::split_atom;

#[test]
fn split_atom_() {
    assert_eq!(None, split_atom(""));
    assert_eq!(None, split_atom("a"));
    assert_eq!(None, split_atom("-"));
    assert_eq!(None, split_atom("42"));
    assert_eq!(None, split_atom("-42"));
    assert_eq!(None, split_atom("42-"));
    assert_eq!(None, split_atom("a-/"));
    assert_eq!(Some(("a", "0")), split_atom("a-0"));
    assert_eq!(Some(("a", "1")), split_atom("a-1"));
    assert_eq!(Some(("a", "2")), split_atom("a-2"));
    assert_eq!(Some(("a", "3")), split_atom("a-3"));
    assert_eq!(Some(("a", "4")), split_atom("a-4"));
    assert_eq!(Some(("a", "5")), split_atom("a-5"));
    assert_eq!(Some(("a", "6")), split_atom("a-6"));
    assert_eq!(Some(("a", "7")), split_atom("a-7"));
    assert_eq!(Some(("a", "8")), split_atom("a-8"));
    assert_eq!(Some(("a", "9")), split_atom("a-9"));
    assert_eq!(None, split_atom("a-:"));
    assert_eq!(Some(("a-b", "2")), split_atom("a-b-2"));
    assert_eq!(Some(("a-b", "2-3")), split_atom("a-b-2-3"));
    assert_eq!(Some(("a-b", "2-3_r1")), split_atom("a-b-2-3_r1"));
    assert_eq!(Some(("a-b", "2foo-4")), split_atom("a-b-2foo-4"));
    assert_eq!(Some(("a-b", "2foo-4-")), split_atom("a-b-2foo-4-"));
    assert_eq!(Some(("Noël", "2-bêta")), split_atom("Noël-2-bêta"));
}

#[test]
fn split_atom_double_dash() {
    assert_eq!(None, split_atom("a--1"));
    assert_eq!(Some(("a--b", "1")), split_atom("a--b-1"));
}

use emlop::parser::{
    filter_pkg_fn, filter_ts_fn, hist_line, parse_event, parse_pretend, parse_start, parse_stop,
    parse_syncstart, parse_syncstop, parse_ts, parse_unmergestart, parse_unmergestop, ts_line_ok,
    FilterPkg, Hist, PretendRe,
};

fn merge_parts(h: &Hist) -> (&str, &str, &str, &str) {
    (h.ebuild(), h.version(), h.ebuild_version(), h.iter())
}

#[test]
fn ts_filter_bounds() {
    let all = filter_ts_fn(None, None);
    assert_eq!((all.min, all.max), (i64::MIN, i64::MAX));
    let some = filter_ts_fn(Some(5), Some(10));
    assert!(some.pass(5));
    assert!(some.pass(10));
    assert!(!some.pass(4));
    assert!(!some.pass(11));
}

#[test]
fn pkg_filter_kinds() {
    let t = filter_pkg_fn(None, false).unwrap();
    assert!(t.pass("anything/at-all"));
    let eq = filter_pkg_fn(Some("kde-frameworks/kactivities"), true).unwrap();
    assert!(matches!(eq, FilterPkg::Eq { .. }));
    assert!(eq.pass("kde-frameworks/kactivities"));
    assert!(!eq.pass("kde-frameworks/kactivities-stats"));
    let ends = filter_pkg_fn(Some("kactivities"), true).unwrap();
    assert!(ends.pass("kde-frameworks/kactivities"));
    assert!(!ends.pass("kde-frameworks/kactivities-stats"));
    assert!(!ends.pass("kactivities"));
    assert!(!filter_pkg_fn(Some("frameworks/kactivities"), true).unwrap().pass("kde-frameworks/kactivities"));
    assert!(filter_pkg_fn(Some("file"), false).unwrap().pass("dev-perl/File-Next"));
    assert!(filter_pkg_fn(Some("FILE"), false).unwrap().pass("dev-perl/File-Next"));
    assert!(!filter_pkg_fn(Some("file-next"), true).unwrap().pass("dev-perl/File-Next"));
    assert!(filter_pkg_fn(Some("File-Next"), true).unwrap().pass("dev-perl/File-Next"));
    assert!(filter_pkg_fn(Some("ks/kw"), false).unwrap().pass("kde-frameworks/kwayland"));
    assert!(filter_pkg_fn(Some("("), false).is_err());
}

#[test]
fn old_timestamps() {
    let all = filter_ts_fn(None, None);
    assert_eq!(Some((1517609348, ">>> emerge (1 of 2) a/b-1 to /")),
               parse_ts("1517609348:  >>> emerge (1 of 2) a/b-1 to /", &all));
    assert_eq!(Some((123, "")), parse_ts("123:x", &all));
    assert_eq!(Some((-7, "x")), parse_ts("-7: \u{3000}x", &all));
    assert_eq!(None, parse_ts("12a: foo", &all));
    assert_eq!(None, parse_ts("no colon", &all));
    assert_eq!(None, parse_ts("5: foo", &filter_ts_fn(Some(10), None)));
    assert_eq!(None, parse_ts("50: foo", &filter_ts_fn(None, Some(10))));
    assert!(ts_line_ok("123:x", &all));
    assert!(!ts_line_ok("123:", &all));
    assert!(!ts_line_ok("123:\u{e9}", &all));
    assert!(ts_line_ok("123:", &filter_ts_fn(Some(200), None)));
}

#[test]
fn old_merge_lines() {
    let t = FilterPkg::True;
    let s = parse_start(true, 7, ">>> emerge (1 of 2) sys-apps/portage-2.3.24 to /", &t).unwrap();
    assert_eq!(7, s.ts());
    assert!(matches!(s, Hist::MergeStart { .. }));
    assert_eq!(("sys-apps/portage", "2.3.24", "sys-apps/portage-2.3.24", "2)1"), merge_parts(&s));
    let e = parse_stop(true, 8, "::: completed emerge (1 of 2) sys-apps/portage-2.3.24 to /", &t)
        .unwrap();
    assert!(matches!(e, Hist::MergeStop { .. }));
    assert_eq!(("sys-apps/portage", "2.3.24", "sys-apps/portage-2.3.24", "2)1"), merge_parts(&e));
    assert!(parse_start(false, 7, ">>> emerge (1 of 2) sys-apps/portage-2.3.24 to /", &t).is_none());
    assert!(parse_start(true, 7, ">>> emerge (1 of 2) sys-apps/portage to /", &t).is_none());
    assert!(parse_start(true, 7, ">>> emerge (1 of 2)", &t).is_none());
    let only = filter_pkg_fn(Some("other"), true).unwrap();
    assert!(parse_start(true, 7, ">>> emerge (1 of 2) sys-apps/portage-2.3.24 to /", &only)
        .is_none());
}

#[test]
fn old_unmerge_and_sync_lines() {
    let t = FilterPkg::True;
    let u = parse_unmergestart(true, 3, "=== Unmerging... (sys-apps/portage-2.3.24)", &t).unwrap();
    assert!(matches!(u, Hist::UnmergeStart { .. }));
    assert_eq!(("sys-apps/portage", "2.3.24", "sys-apps/portage-2.3.24"),
               (u.ebuild(), u.version(), u.ebuild_version()));
    let v = parse_unmergestop(true, 4, ">>> unmerge success: sys-apps/portage-2.3.24", &t).unwrap();
    assert!(matches!(v, Hist::UnmergeStop { .. }));
    assert_eq!(("sys-apps/portage", "2.3.24"), (v.ebuild(), v.version()));
    assert!(parse_unmergestop(false, 4, ">>> unmerge success: sys-apps/portage-2.3.24", &t)
        .is_none());
    assert!(matches!(parse_syncstart(true, 5, "=== sync"), Some(Hist::SyncStart { ts: 5 })));
    assert!(parse_syncstart(true, 5, "=== sync ").is_none());
    assert!(matches!(parse_syncstop(true, 6, "=== Sync completed with rsync://x"),
                     Some(Hist::SyncStop { ts: 6 })));
    assert!(parse_syncstop(false, 6, "=== Sync completed with rsync://x").is_none());
    assert!(matches!(parse_event(true, true, true, 9, "=== sync", &t),
                     Some(Hist::SyncStart { ts: 9 })));
    assert!(parse_event(true, true, true, 9, "*** terminating.", &t).is_none());
}

#[test]
fn old_log_lines() {
    let all = filter_ts_fn(None, None);
    let t = FilterPkg::True;
    let line = "1517609348:  >>> emerge (1 of 2) sys-apps/portage-2.3.24 to /";
    let h = hist_line(line, &all, true, true, true, &t).unwrap().unwrap();
    assert_eq!(1517609348, h.ts());
    assert_eq!("sys-apps/portage-2.3.242)1", match &h {
        Hist::MergeStart { key, .. } => key.as_str(),
        _ => "",
    });
    assert!(hist_line(line, &all, false, true, true, &t).unwrap().is_none());
    assert!(hist_line(line, &filter_ts_fn(Some(1517609349), None), true, true, true, &t)
        .unwrap()
        .is_none());
    let bad = "1:  >>> emerge \u{e9}1 of 2) a/b-1 to /";
    assert!(hist_line(bad, &all, true, true, true, &t).is_none());
    let other = filter_pkg_fn(Some("c/d"), true).unwrap();
    assert!(hist_line(bad, &all, true, true, true, &other).unwrap().is_none());
    assert!(hist_line("1:", &all, true, true, true, &t).is_none());
    assert!(hist_line("x:", &all, true, true, true, &t).unwrap().is_none());
}

#[test]
fn old_pretend_lines() {
    let re = PretendRe::new().unwrap();
    let get = |l: &str| parse_pretend(l, &re).map(|p| (p.ebuild, p.version));
    assert_eq!(Some(("sys-devel/gcc".to_string(), "6.4.0-r1".to_string())),
               get("[ebuild     U  ] sys-devel/gcc-6.4.0-r1 [5.4.0-r3] USE=\"cxx\""));
    assert_eq!(Some(("dev-db/postgresql".to_string(), "10.3".to_string())),
               get("[ebuild  N     ] dev-db/postgresql-10.3::gentoo  USE=\"server\""));
    assert_eq!(Some(("app-portage/emlop".to_string(), "0.1.0_p20180221".to_string())),
               get("[ebuild   R    ] app-portage/emlop-0.1.0_p20180221"));
    assert_eq!(None, get("[blocks B      ] <dev-lang/php-7.1.13 (\"<dev-lang/php-7.1.13\" is blocking)"));
    assert_eq!(None, get("[ebuild] a/b-1"));
    assert_eq!(None, get("[ebuild  N ] a/b"));
}

#[test]
fn old_events_respect_filters() {
    let lines = ["100:  >>> emerge (1 of 2) a/b-1 to /",
                 "200:  ::: completed emerge (1 of 2) a/b-1 to /",
                 "300:  >>> emerge (2 of 2) c/d-2 to /",
                 "400:  === Unmerging... (a/b-1)",
                 "500:  >>> unmerge success: c/d-2",
                 "600:  === sync",
                 "700:  === Sync completed with rsync://x"];
    let tsf = filter_ts_fn(Some(150), Some(650));
    let only = filter_pkg_fn(Some("a/b"), true).unwrap();
    let mut got = vec![];
    for l in lines.iter() {
        if let Some(h) = hist_line(l, &tsf, true, true, true, &only).unwrap() {
            assert!(h.ts() >= 150 && h.ts() <= 650);
            got.push(h.ts());
        }
    }
    assert_eq!(vec![200, 400, 600], got);
    let mut none = 0;
    for l in lines.iter() {
        if hist_line(l, &filter_ts_fn(None, None), false, false, false, &FilterPkg::True).unwrap()
                                                                                      .is_some()
        {
            none += 1;
        }
    }
    assert_eq!(0, none);
}
