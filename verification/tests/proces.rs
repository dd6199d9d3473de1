use emlop::proces::Info;

#[test]
fn format_info() {
    let s = "abcdefghijklmnopqrstuvwxyzABCDEFGHIJKLMNOPQRSTUVWXYZ";
    let t: Vec<(i32, usize, usize, &str)> = vec![(1, 1, 1, "Pid 1: a"),
                                                 (1, 2, 1, "Pid 1: ab"),
                                                 (2, 3, 1, "Pid 2: abc"),
                                                 (3, 4, 1, "Pid 3: ..."),
                                                 (4, 5, 1, "Pid 4: ..."),
                                                 (330, 1, 1, "Pid 330: a"),
                                                 (331, 2, 1, "Pid 331: ab"),
                                                 (332, 3, 1, "Pid 332: abc"),
                                                 (333, 4, 1, "Pid 333: ..."),
                                                 (334, 5, 1, "Pid 334: ..."),
                                                 (1, 1, 12, "Pid 1: a"),
                                                 (1, 2, 12, "Pid 1: ab"),
                                                 (1, 3, 12, "Pid 1: abc"),
                                                 (1, 4, 12, "Pid 1: abcd"),
                                                 (1, 5, 12, "Pid 1: abcde"),
                                                 (12, 4, 12, "Pid 12: abcd"),
                                                 (123, 3, 12, "Pid 123: abc"),
                                                 (1234, 2, 12, "Pid 1234: ab"),
                                                 (1, 6, 12, "Pid 1: ...ef"),
                                                 (1, 7, 12, "Pid 1: ...fg"),
                                                 (1, 8, 12, "Pid 1: ...gh"),
                                                 (22, 9, 12, "Pid 22: ...i"),];
    for (pid, cmdlen, precision, out) in t.into_iter() {
        let i = Info { pid, cmdline: s[..cmdlen].to_string(), start: 0 };
        let f = i.to_string_prec(Some(precision));
        assert!(precision < 10 || f.len() <= precision, "{} <= {}", f.len(), precision);
        assert_eq!(f, out);
    }
}

#[test]
fn format_info_default_width() {
    let i = Info { pid: 7, cmdline: "x".repeat(200), start: 0 };
    let f = i.to_string_prec(None);
    assert_eq!(f.len(), 100);
    assert!(f.starts_with("Pid 7: ..."));
}
