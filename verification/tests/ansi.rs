use emlop::config::types::ArgError;
use emlop::parse::ansi::Theme;

fn err_text(r: Result<Theme, ArgError>) -> String {
    match r {
        Ok(_) => panic!("expected an error"),
        Err(e) => e.to_string(),
    }
}

#[test]
fn theme_update_ok() {
    let t = Theme::new().update(Some(&String::from("merge:1;31  skip:0")), "t").ok().unwrap();
    assert_eq!(t.merge, "\x1B[1;31m");
    assert_eq!(t.skip, "\x1B[0m");
    assert_eq!(t.unmerge, "\x1B[1;31m");
    assert_eq!(t.sync, "\x1B[1;36m");
    let same = Theme::new().update(None, "t").ok().unwrap();
    assert_eq!(same.merge, "\x1B[1;32m");
}

#[test]
fn theme_update_bad_items() {
    let no_colon = Theme::new().update(Some(&String::from("merge")), "t");
    assert_eq!(err_text(no_colon), ArgError::new("merge", "t").msg("Expected <key>:<SGR>").to_string());
    let bad_sgr = Theme::new().update(Some(&String::from("count:1 merge:1m")), "t");
    assert_eq!(err_text(bad_sgr),
               ArgError::new("merge:1m", "t").msg("Unexpected chars in Ansi SGR sequence").to_string());
    let bad_key = Theme::new().update(Some(&String::from("merg:1")), "t");
    assert_eq!(err_text(bad_key),
               ArgError::new("merg:1", "t").msg("Unexpected key")
                                           .pos("merge binmerge unmerge sync duration count qmark skip")
                                           .to_string());
}
