use emlop::config::types::Show;
use emlop::parse::history::{
    check_line, nth_field, parse_line, parse_ts, parse_version, run_ts, FilterStr, Hist,
};

fn all_show() -> Show {
    Show { run: true, pkg: true, tot: true, sync: true, merge: true, unmerge: true }
}

fn parse(line: &str, filter: &FilterStr) -> Option<Hist> {
    let b = line.as_bytes();
    assert!(check_line(b, i64::MIN, i64::MAX, all_show()), "line not readable: {line:?}");
    parse_line(b, i64::MIN, i64::MAX, all_show(), filter)
}

#[test]
/// Filtering by search term
fn filter_terms() {
    let t = vec![("a", true, "a", false, true),
                 ("a", true, "b/a", true, false),
                 ("a", true, "aa", false, false),
                 ("a", true, "b/aa", false, false),
                 ("a.", true, "ab", false, false),
                 ("a.", false, "ab", true, true)];
    for (terms, e, s, mpkg, mstr) in t {
        let t: Vec<String> = terms.split_whitespace().map(str::to_string).collect();
        let f = FilterStr::try_new(&t, e).unwrap();
        assert_eq!(f.match_pkg(s), mpkg, "filter({t:?}, {e}).match_pkg({s:?})");
        assert_eq!(f.match_str(s), mstr, "filter({t:?}, {e}).match_str({s:?})");
    }
}

#[test]
fn split_atom() {
    let g = |s| parse_version(s, &FilterStr::True).map(|n| (&s[..n - 1], &s[n..]));
    assert_eq!(None, g(""));
    assert_eq!(None, g("a"));
    assert_eq!(None, g("-"));
    assert_eq!(None, g("42"));
    assert_eq!(None, g("-42"));
    assert_eq!(None, g("42-"));
    assert_eq!(None, g("a-/"));
    assert_eq!(Some(("a", "0")), g("a-0"));
    assert_eq!(Some(("a", "1")), g("a-1"));
    assert_eq!(Some(("a", "2")), g("a-2"));
    assert_eq!(Some(("a", "3")), g("a-3"));
    assert_eq!(Some(("a", "4")), g("a-4"));
    assert_eq!(Some(("a", "5")), g("a-5"));
    assert_eq!(Some(("a", "6")), g("a-6"));
    assert_eq!(Some(("a", "7")), g("a-7"));
    assert_eq!(Some(("a", "8")), g("a-8"));
    assert_eq!(Some(("a", "9")), g("a-9"));
    assert_eq!(None, g("a-:"));
    assert_eq!(Some(("a-b", "2")), g("a-b-2"));
    assert_eq!(Some(("a-b", "2-3")), g("a-b-2-3"));
    assert_eq!(Some(("a-b", "2-3_r1")), g("a-b-2-3_r1"));
    assert_eq!(Some(("a-b", "2foo-4")), g("a-b-2foo-4"));
    assert_eq!(Some(("a-b", "2foo-4-")), g("a-b-2foo-4-"));
    assert_eq!(Some(("Noël", "2-bêta")), g("Noël-2-bêta"));
}

#[test]
fn timestamp_prefix() {
    let (t, rest) = parse_ts(b"1517609348:  >>> emerge foo\n", 0, i64::MAX).unwrap();
    assert_eq!(t, 1517609348);
    assert_eq!(rest, b">>> emerge foo");
    assert_eq!(parse_ts(b"1517609348: x", 1517609349, i64::MAX), None);
    assert_eq!(parse_ts(b"1517609348: x", 0, 1517609347), None);
    assert_eq!(parse_ts(b"abc: x", 0, i64::MAX), None);
}

#[test]
fn nth_field_splits_on_spaces() {
    assert_eq!(nth_field(b"a b  c", 0), Some(&b"a"[..]));
    assert_eq!(nth_field(b"a b  c", 2), Some(&b""[..]));
    assert_eq!(nth_field(b"a b  c", 3), Some(&b"c"[..]));
    assert_eq!(nth_field(b"a b  c", 4), None);
}

#[test]
fn merge_lines() {
    let f = FilterStr::True;
    match parse("1700000000:  >>> emerge (1 of 1) www-client/falkon-24.08.3 to /", &f) {
        Some(Hist::MergeStart { ts, key, pos }) => {
            assert_eq!(ts, 1700000000);
            assert_eq!(key, "www-client/falkon-24.08.3");
            assert_eq!(&key[pos..], "24.08.3");
        },
        o => panic!("unexpected {}", o.is_some()),
    }
    match parse("1700000001:  ::: completed emerge (1 of 1) www-client/falkon-24.08.3 to /", &f) {
        Some(h @ Hist::MergeStop { .. }) => {
            assert_eq!(h.ebuild(), "www-client/falkon");
            assert_eq!(h.version(), "24.08.3");
            assert_eq!(h.ts(), 1700000001);
        },
        _ => panic!("expected a merge stop"),
    }
    match parse("1700000002:  === (1 of 1) Merging Binary (www-client/falkon-24.08.3::/var/cache/binpkgs/www-client/falkon-24.08.3.gpkg.tar)", &f) {
        Some(Hist::MergeBin { key, .. }) => assert_eq!(key, "www-client/falkon-24.08.3"),
        _ => panic!("expected a binary merge"),
    }
}

#[test]
fn unmerge_and_sync_lines() {
    let f = FilterStr::True;
    match parse("1700000003:  === Unmerging... (app-portage/getuto-1.13)", &f) {
        Some(Hist::UnmergeStart { key, .. }) => assert_eq!(key, "app-portage/getuto-1.13"),
        _ => panic!("expected an unmerge start"),
    }
    match parse("1700000004:  >>> unmerge success: app-portage/getuto-1.13", &f) {
        Some(Hist::UnmergeStop { key, .. }) => assert_eq!(key, "app-portage/getuto-1.13"),
        _ => panic!("expected an unmerge stop"),
    }
    assert!(matches!(parse("1700000005: >>> Syncing repository 'gentoo' into '/usr/portage'...", &f),
                     Some(Hist::SyncStart { ts: 1700000005 })));
    match parse("1700000006: === Sync completed for gentoo", &f) {
        Some(Hist::SyncStop { repo, .. }) => assert_eq!(repo, "gentoo"),
        _ => panic!("expected a sync stop"),
    }
    match parse("1700000007: === Sync completed with rsync://209.177.148.226/gentoo-portage", &f) {
        Some(Hist::SyncStop { repo, .. }) => assert_eq!(repo, "gentoo-portage"),
        _ => panic!("expected a sync stop"),
    }
    match parse("1700000008:  *** emerge --ask world", &f) {
        Some(Hist::RunStart { args, .. }) => assert_eq!(args, "--ask world"),
        _ => panic!("expected a run start"),
    }
}

#[test]
fn filtered_and_unknown_lines() {
    let f = FilterStr::try_new(&vec![String::from("falkon")], false).unwrap();
    assert!(parse("1700000000:  >>> emerge (1 of 1) www-client/falkon-24.08.3 to /", &f).is_some());
    assert!(parse("1700000000:  >>> emerge (1 of 1) dev-lang/rust-1.80.0 to /", &f).is_none());
    assert!(parse("1700000000:  >>> emerge (1 of 1) dev-lang/rust to /", &FilterStr::True).is_none());
    assert!(parse("1700000000:  Started emerge on: foo", &FilterStr::True).is_none());
    let b = b"1700000000:  >>> emerge (1 of 1) www-client/falkon-24.08.3 to /";
    let none = Show { run: false, pkg: false, tot: false, sync: false, merge: false, unmerge: false };
    assert!(parse_line(b, i64::MIN, i64::MAX, none, &FilterStr::True).is_none());
    assert!(parse_line(b, 1800000000, i64::MAX, all_show(), &FilterStr::True).is_none());
}

#[test]
fn run_start_timestamp() {
    assert_eq!(run_ts(b"1700000008:  *** emerge --ask world\n"), Some(1700000008));
    assert_eq!(run_ts(b"1700000008:  >>> emerge (1 of 1) a/b-1 to /"), None);
}
