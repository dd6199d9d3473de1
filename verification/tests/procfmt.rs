use emlop::emerge::{Proc, ProcKind};
use emlop::procfmt::FmtProc;

/// FmtProc should try shorten (elipsis at start) the command line when ther is no space
#[test]
fn proces_proc_width() {
    let t: Vec<_> = vec![// Here we have enough space
                         (1, "1", "1 1"),
                         (1, "12", "1 12"),
                         (1, "12345678", "1 12345678"),
                         (12, "1234567", "12 1234567"),
                         (123, "123456", "123 123456"),
                         (1234, "12345", "1234 12345"),
                         // Running out of space, but we can display part of it
                         (1, "1234567890", "1 ...67890"),
                         (12345, "1234567890", "12345 ...0"),
                         // Capacity is way too small, use elipsis starting at 4 chars
                         (1234567, "123", "1234567 ..."),
                         (123456, "123", "123456 123")];
    for (pid, cmd, out) in t.into_iter() {
        let p = Proc { kind: ProcKind::Other, pid, ppid: 1, cmdline: cmd.into(), start: 0 };
        let (s, _) = FmtProc(&p, 0, 10).text("", "");
        assert_eq!(&s, out, "got left expected right {pid} {cmd:?}");
    }
}

/// FmtProc should rewrite commands
#[test]
fn proces_proc_cmdline() {
    let t: Vec<_> =
        vec![("foo\0bar", "1 foo bar"),
             ("foo\0bar\0", "1 foo bar"),
             ("/usr/bin/bash\0toto", "1 bash toto"),
             ("/usr/bin/bash\0toto\0", "1 bash toto"),
             ("/usr/bin/bash\0toto\0--arg", "1 bash toto --arg"),
             ("/usr/bin/bash\0/path/to/toto\0--arg", "1 toto --arg"),
             ("bash\0/usr/lib/portage/python3.12/ebuild.sh\0unpack\0", "1 ebuild.sh unpack"),
             ("[foo/bar-0.1.600] sandbox\0/path/to/ebuild.sh\0unpack\0", "1 ebuild.sh unpack"),
             ("[foo/bar-0.1.600] sandbox\0blah\0", "1 [foo/bar-0.1.600] sandbox blah"),
             ("/bin/foo\0\0", "1 foo")];
    for (cmd, out) in t.into_iter() {
        let p = Proc { kind: ProcKind::Other, pid: 1, ppid: 1, cmdline: cmd.into(), start: 0 };
        let (s, _) = FmtProc(&p, 0, 100).text("", "");
        assert_eq!(&s, out, "got left expected right {cmd:?}");
    }
}

#[test]
fn proc_indent_and_colors() {
    let p = Proc { kind: ProcKind::Other, pid: 42, ppid: 1, cmdline: "emerge\0-av".into(), start: 0 };
    let (s, w) = FmtProc(&p, 2, 100).text("<c>", "<z>");
    assert_eq!(s, "<c>    42<z> emerge -av");
    assert_eq!(w, 6 + 1 + 10);
}
