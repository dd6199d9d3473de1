use emlop::table::{Align, Table};

fn cells(vals: &[&str]) -> Vec<Vec<String>> {
    vals.iter().map(|v| vec![v.to_string()]).collect()
}

fn check<const N: usize>(t: Table<N>, expect: &str) {
    assert_eq!(expect, String::from_utf8(t.render()).unwrap());
}

#[test]
fn last() {
    // No limit
    let mut t = Table::<1>::new("", false);
    for i in 1..10 {
        t.row(cells(&[&format!("{i}")]));
    }
    check(t, "1\n2\n3\n4\n5\n6\n7\n8\n9\n");

    // 5 max
    let mut t = Table::<1>::new("", false).last(5);
    for i in 1..10 {
        t.row(cells(&[&format!("{i}")]));
    }
    check(t, "5\n6\n7\n8\n9\n");

    // 5 max ignoring header
    let mut t = Table::<1>::new("", false).last(5);
    t.header(true, vec!["h"]);
    for i in 1..10 {
        t.row(cells(&[&format!("{i}")]));
    }
    check(t, "h\n5\n6\n7\n8\n9\n");
}

#[test]
fn columns_are_aligned() {
    let mut t = Table::<2>::new("", false).align(0, Align::Left);
    t.row(cells(&["a", "1"]));
    t.row(cells(&["bcd", "123"]));
    check(t, "a      1\nbcd  123\n");
}

#[test]
fn tabs_separate_cells() {
    let mut t = Table::<2>::new("", true).align(0, Align::Left);
    t.row(cells(&["a", "1"]));
    t.row(cells(&["bcd", "123"]));
    check(t, "a\t1\nbcd\t123\n");
}

#[test]
fn color_codes_take_no_width() {
    let mut t = Table::<2>::new("", false);
    t.row(vec![vec!["\x1B[1m".to_string(), "ab".to_string()], vec!["x".to_string()]]);
    t.row(vec![vec!["abc".to_string()], vec!["y".to_string()]]);
    check(t, " \x1B[1mab  x\nabc  y\n");
}

#[test]
fn header_only_when_enabled() {
    let mut t = Table::<1>::new("", false);
    t.header(false, vec!["h"]);
    t.row(cells(&["1"]));
    check(t, "1\n");
}

#[test]
fn empty_table_renders_nothing() {
    let t = Table::<1>::new("", false);
    check(t, "");
}
