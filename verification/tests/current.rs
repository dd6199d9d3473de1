use emlop::config::types::ResumeKind;
use emlop::parse::current::{get_resume, try_get_resume, Mtimedb, Pkg, Resume};

fn list(entries: &[(&str, &str)]) -> Resume {
    Resume { mergelist: entries.iter()
                               .map(|(k, p)| vec![k.to_string(), "/".into(), p.to_string(), "merge".into()])
                               .collect() }
}

/// Resume databases as portage writes them, by the name of the test file they stand for.
fn mtimedb(name: &str) -> Option<Mtimedb> {
    let main = [("ebuild", "dev-lang/rust-1.65.0"), ("ebuild", "app-portage/emlop-0.5.0")];
    let bkp = [("ebuild", "app-portage/dummybuild-0.1.600"),
               ("ebuild", "app-portage/dummybuild-0.1.60")];
    let bin = [("ebuild", "sys-devel/clang-19"), ("binary", "www-client/falkon-24.08.3")];
    match name {
        "mtimedb.ok" => Some(Mtimedb { resume: Some(list(&main)),
                                       resume_backup: Some(list(&bkp)),
                                       updates: None }),
        "mtimedb.backuponly" => {
            Some(Mtimedb { resume: None, resume_backup: Some(list(&bkp)), updates: None })
        },
        "mtimedb.empty" => Some(Mtimedb::empty()),
        "mtimedb.mainempty" => Some(Mtimedb { resume: Some(list(&[])),
                                              resume_backup: Some(list(&bkp)),
                                              updates: None }),
        "mtimedb.noresume" => Some(Mtimedb { resume: None, resume_backup: None, updates: Some(vec![]) }),
        "mtimedb.badjson" => None,
        "mtimedb.binaries" => Some(Mtimedb { resume: Some(list(&bin)), resume_backup: None, updates: None }),
        _ => unreachable!(),
    }
}

fn check_resume(kind: ResumeKind, file: &str, expect: Option<&[(&str, bool)]>) {
    let expect_pkg: Option<Vec<Pkg>> =
        expect.map(|o| o.into_iter().map(|(s, b)| Pkg::try_new(s, *b).unwrap()).collect());
    let res = mtimedb(file).and_then(|m| try_get_resume(kind, &m));
    assert_eq!(expect_pkg, res, "Mismatch for {file}");
}

#[test]
fn resume() {
    let main = &[("dev-lang/rust-1.65.0", false), ("app-portage/emlop-0.5.0", false)];
    let bkp =
        &[("app-portage/dummybuild-0.1.600", false), ("app-portage/dummybuild-0.1.60", false)];
    let bin = &[("sys-devel/clang-19", false), ("www-client/falkon-24.08.3", true)];
    check_resume(ResumeKind::Main, "mtimedb.ok", Some(main));
    check_resume(ResumeKind::Backup, "mtimedb.ok", Some(bkp));
    check_resume(ResumeKind::No, "mtimedb.ok", Some(&[]));
    check_resume(ResumeKind::Either, "mtimedb.ok", Some(main));
    check_resume(ResumeKind::Either, "mtimedb.backuponly", Some(bkp));
    check_resume(ResumeKind::Either, "mtimedb.empty", None);
    check_resume(ResumeKind::Either, "mtimedb.mainempty", Some(bkp));
    check_resume(ResumeKind::Either, "mtimedb.noresume", None);
    check_resume(ResumeKind::Either, "mtimedb.badjson", None);
    check_resume(ResumeKind::Either, "mtimedb.binaries", Some(bin));
}

#[test]
fn resume_missing_list_is_empty() {
    assert!(get_resume(ResumeKind::Main, &Mtimedb::empty()).is_empty());
    let db = mtimedb("mtimedb.ok").unwrap();
    assert_eq!(get_resume(ResumeKind::Auto, &db).len(), 2);
}

#[test]
fn pkg_new() {
    let p = Pkg::try_new("foo-1.2", true).unwrap();
    assert_eq!(("foo-1.2", "foo", "1.2", true), (p.ebuild_version(), p.ebuild(), p.version(), p.bin));
    assert_eq!(None, Pkg::try_new("foo1.2", true));
}
