use emlop::emerge::{parse_stat, sandbox_of, start_of, stat_fits, EmergeInfo, Proc, ProcKind, TreeRow};

fn mock(procs: &[(ProcKind, &str, i32, i32)]) -> EmergeInfo {
    let mut e = EmergeInfo::empty();
    for &(kind, cmd, pid, ppid) in procs {
        e.add_proc(Proc { kind, cmdline: cmd.to_string(), start: pid as i64, pid, ppid });
    }
    e.reduce_roots();
    e
}

/// Check that get_emerge() finds the expected roots
#[test]
fn proces_get_emerge_roots() {
    let einfo = mock(&[(ProcKind::Emerge, "a", 1, 0),
                       (ProcKind::Other, "a.a", 2, 1),
                       (ProcKind::Emerge, "a.a.b", 3, 2),
                       (ProcKind::Other, "b", 4, 0),
                       (ProcKind::Emerge, "b.a", 5, 6),
                       (ProcKind::Emerge, "b.a", 6, 4),
                       (ProcKind::Other, "b.a.a", 7, 5)]);
    assert_eq!(einfo.roots, vec![1, 6]);
}

/// Check that get_emerge() finds the expected roots
#[test]
fn current_get_emerge_roots() {
    let einfo = mock(&[(ProcKind::Emerge, "a", 1, 0),
                       (ProcKind::Other, "a.a", 2, 1),
                       (ProcKind::Emerge, "a.a.b", 3, 2),
                       (ProcKind::Other, "b", 4, 0),
                       (ProcKind::Emerge, "b.a", 5, 4),
                       (ProcKind::Other, "b.a.a", 6, 5)]);
    assert_eq!(einfo.roots, vec![1, 5]);
}

#[test]
fn oldest_root_start() {
    let e = mock(&[(ProcKind::Other, "x", 1, 0), (ProcKind::Emerge, "e", 7, 1), (ProcKind::Emerge, "f", 3, 1)]);
    assert_eq!(e.start, 3);
    assert_eq!(EmergeInfo::empty().start, i64::MAX);
}

#[test]
fn children() {
    let e = mock(&[(ProcKind::Other, "x", 1, 0),
                   (ProcKind::Other, "y", 5, 1),
                   (ProcKind::Other, "z", 3, 1),
                   (ProcKind::Other, "w", 4, 3)]);
    assert_eq!(e.children_of(1), vec![3, 5]);
    assert_eq!(e.children_of(3), vec![4]);
    assert!(e.children_of(4).is_empty());
}

#[test]
fn sandbox_packages() {
    let p = sandbox_of("[foo/bar-0.1.600] sandbox\0/path/to/ebuild.sh\0unpack\0").unwrap();
    assert_eq!(p.ebuild_version(), "foo/bar-0.1.600");
    assert_eq!(p.version(), "0.1.600");
    assert!(sandbox_of("[foo/bar] sandbox\0blah\0").is_none());
    assert!(sandbox_of("sandbox blah").is_none());
    let e = mock(&[(ProcKind::Sandbox, "[a/b-1] sandbox\0x\0", 2, 1), (ProcKind::Sandbox, "python3", 3, 1)]);
    assert_eq!(e.pkgs.len(), 1);
    assert_eq!(e.pkgs[0].ebuild(), "a/b");
}

#[test]
fn proces_tree_count() {
    let e = mock(&[(ProcKind::Emerge, "a", 1, 0),
                   (ProcKind::Other, "a.a", 2, 1),
                   (ProcKind::Other, "a.b", 3, 1),
                   (ProcKind::Other, "a.a.a", 4, 2)]);
    assert_eq!(e.count(1), 4);
    assert_eq!(e.count(2), 2);
    assert_eq!(e.count(3), 1);
    assert_eq!(e.count(9), 1);
    assert_eq!(e.count(0), 5);
    let mut c = EmergeInfo::empty();
    c.add_proc(Proc { kind: ProcKind::Other, cmdline: "x".into(), start: 1, pid: 5, ppid: 6 });
    c.add_proc(Proc { kind: ProcKind::Other, cmdline: "y".into(), start: 1, pid: 6, ppid: 5 });
    assert_eq!(c.count_checked(5), None);
    assert_eq!(c.count_checked(7), Some(1));
}

#[test]
fn proc_stat_lines() {
    let tail = " S 7 42 42 0 -1 4194560 100 0 0 0 5 1 0 0 20 0 1 0 12345 1000 50";
    let line = |name: &str| format!("42 ({name}){tail}");
    assert_eq!(parse_stat(&line("python3.11")), Some((ProcKind::Sandbox, 7, 12345)));
    assert_eq!(parse_stat(&line("emerge")), Some((ProcKind::Emerge, 7, 12345)));
    assert_eq!(parse_stat(&line("sandbox")), Some((ProcKind::Sandbox, 7, 12345)));
    assert_eq!(parse_stat(&line("bash")), Some((ProcKind::Other, 7, 12345)));
    assert_eq!(parse_stat(&line("a) (b")), Some((ProcKind::Other, 7, 12345)));
    assert_eq!(parse_stat("42 (bash) S 7 42"), None);
    assert_eq!(parse_stat("42 bash S 7"), None);
    assert_eq!(parse_stat("42 (bash) S x 42 42 0 -1 4194560 100 0 0 0 5 1 0 0 20 0 1 0 12345"), None);
    assert!(stat_fits(&line("bash")));
    assert!(!stat_fits(") x ("));
    assert!(stat_fits("no parens"));
    assert_eq!(start_of(100, 250, 100), Some(102));
    assert_eq!(start_of(0, -250, 100), Some(-2));
    assert_eq!(start_of(i64::MAX, 100, 1), None);
}

#[test]
fn proces_tree_rows() {
    let e = mock(&[(ProcKind::Emerge, "a", 1, 0),
                   (ProcKind::Other, "a.a", 2, 1),
                   (ProcKind::Other, "a.b", 3, 1),
                   (ProcKind::Other, "a.a.a", 4, 2)]);
    let all = vec![TreeRow::Proc { pid: 1, depth: 0 },
                   TreeRow::Proc { pid: 2, depth: 1 },
                   TreeRow::Proc { pid: 4, depth: 2 },
                   TreeRow::Proc { pid: 3, depth: 1 }];
    assert_eq!(e.tree_rows(1, 0, 3, true), Ok(all.clone()));
    assert_eq!(e.tree_rows(1, 0, 9, false), Ok(all));
    assert_eq!(e.tree_rows(1, 0, 2, true),
               Ok(vec![TreeRow::Proc { pid: 1, depth: 0 },
                       TreeRow::Proc { pid: 2, depth: 1 },
                       TreeRow::Skip { depth: 1, count: 1 },
                       TreeRow::Proc { pid: 3, depth: 1 }]));
    assert_eq!(e.tree_rows(1, 0, 1, true),
               Ok(vec![TreeRow::Proc { pid: 1, depth: 0 }, TreeRow::Skip { depth: 0, count: 3 }]));
    assert_eq!(e.tree_rows(1, 0, 1, false), Ok(vec![TreeRow::Proc { pid: 1, depth: 0 }]));
    assert_eq!(e.tree_rows(9, 0, 3, true), Ok(vec![]));
    let mut c = EmergeInfo::empty();
    c.add_proc(Proc { kind: ProcKind::Other, cmdline: "x".into(), start: 1, pid: 5, ppid: 6 });
    c.add_proc(Proc { kind: ProcKind::Other, cmdline: "y".into(), start: 1, pid: 6, ppid: 5 });
    assert_eq!(c.tree_rows(5, 0, 1, true), Err(5));
    assert_eq!(c.tree_rows(5, 0, 3, false),
               Ok(vec![TreeRow::Proc { pid: 5, depth: 0 },
                       TreeRow::Proc { pid: 6, depth: 1 },
                       TreeRow::Proc { pid: 5, depth: 2 }]));
}
