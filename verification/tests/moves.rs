use emlop::parse::current::{Mtimedb, Resume};
use emlop::parse::moves::{cmp_update_files, sort_update_files, update_files, PkgMoves};
use std::cmp::Ordering;

fn load(files: &[&[&str]]) -> PkgMoves {
    let mut m = PkgMoves::empty();
    for f in files {
        for l in f.iter() {
            m.add_line(l);
        }
    }
    m
}

#[test]
fn pkgmoves() {
    // Newest file first, as after sorting update files
    let newest: &[&str] = &["move app-doc/doxygen app-text/doxygen",
                            "move dev-util/lldb llvm-core/lldb",
                            "move dev-debug/lldb llvm-core/lldb",
                            "move duplicate/bar foo/bar",
                            "move conflict/foo foo/2024",
                            "move loop/from loop/final",
                            "move chain/v2 chain/v3"];
    let oldest: &[&str] = &["move x11-libs/libva media-libs/libva",
                            "slotmove dev-haskell/extra 0 1",
                            "move duplicate/bar foo/bar",
                            "move conflict/foo foo/2022",
                            "move loop/final loop/from",
                            "move chain/v1 chain/v2",
                            "garbage"];
    let moves = load(&[newest, oldest]);
    for (have, want, why) in
        [("app-doc/doxygen", "app-text/doxygen", "simple move in 2024"),
         ("x11-libs/libva", "media-libs/libva", "simple move in 2022"),
         ("notmoved", "notmoved", "unknown string should return original string"),
         ("dev-haskell/extra", "dev-haskell/extra", "slotmoves should be ignored"),
         ("dev-util/lldb", "llvm-core/lldb", "1st lldb rename"),
         ("dev-debug/lldb", "llvm-core/lldb", "2nd lldb rename"),
         ("duplicate/bar", "foo/bar", "duplicate update should prefer newest"),
         ("conflict/foo", "foo/2024", "conflicting update should prefer newest"),
         ("loop/from", "loop/final", "loops should prefer newest"),
         ("chain/v2", "chain/v3", "chain from new should be taken as-is"),
         ("chain/v1", "chain/v3", "chain from old should point to new")]
    {
        assert_eq!(moves.get(String::from(have)), String::from(want), "{why}");
        let k = String::from(have);
        assert_eq!(moves.get_ref(&k), &String::from(want), "{why}");
    }
}

#[test]
fn update_files_order() {
    let a = String::from("/var/db/repos/gentoo/profiles/updates/1Q-2022");
    let b = String::from("/var/db/repos/gentoo/profiles/updates/4Q-2024");
    let c = String::from("/other/updates/2Q-2024");
    assert_eq!(cmp_update_files(&a, &b), Ordering::Greater);
    assert_eq!(cmp_update_files(&b, &a), Ordering::Less);
    assert_eq!(cmp_update_files(&a, &a), Ordering::Equal);
    let sorted = sort_update_files(vec![a.clone(), b.clone(), c.clone()]);
    assert_eq!(sorted, vec![b, c, a]);
}

#[test]
fn update_files_other_names() {
    // Names that do not look like "Quarter-Year" compare as they are, newest (largest) first
    let a = String::from("x/2020-01");
    let b = String::from("y/2021-01");
    assert_eq!(cmp_update_files(&a, &b), Ordering::Greater);
    assert_eq!(sort_update_files(vec![a.clone(), b.clone()]), vec![b, a]);
}

#[test]
fn update_files_of_db() {
    let db = Mtimedb::empty();
    assert!(update_files(&db).is_empty());
    let none = PkgMoves::empty();
    assert_eq!(none.get(String::from("a/b")), "a/b");
    let a = String::from("/u/1Q-2022");
    let b = String::from("/u/4Q-2024");
    let db = Mtimedb { resume: None,
                       resume_backup: Some(Resume { mergelist: vec![] }),
                       updates: Some(vec![a.clone(), b.clone()]) };
    assert_eq!(update_files(&db), vec![b, a]);
}
