use emlop::commands::Times;
use emlop::config::types::Average::{Arith, Median, WeightedArith, WeightedMedian};

#[test]
fn averages() {
    for (a, m, wa, wm, lim, vals) in
        [(-1, -1, -1, -1, 10, vec![]),
         (1, 1, 1, 1, 10, vec![1]),
         (12 / 2, 6, 21 / 3, 10, 10, vec![2, 10]),
         (12 / 2, 6, 14 / 3, 2, 10, vec![10, 2]),
         (15 / 3, 4, (1 + 20 + 12) / (1 + 2 + 3), 4, 10, vec![1, 10, 4]),
         (15 / 4, 2, (1 + 20 + 9 + 4) / (1 + 2 + 3 + 4), 2, 10, vec![1, 10, 3, 1]),
         (15 / 4, 2, (1 + 20 + 9 + 4) / (1 + 2 + 3 + 4), 2, 4, vec![999, 1, 10, 3, 1])]
    {
        let mut t = Times::new();
        for &v in vals.iter() {
            t.insert(v);
        }
        assert_eq!(a, t.pred(lim, Arith), "arith {lim} {vals:?}");
        assert_eq!(m, t.pred(lim, Median), "median {lim} {vals:?}");
        assert_eq!(wa, t.pred(lim, WeightedArith), "weighted arith {lim} {vals:?}");
        assert_eq!(wm, t.pred(lim, WeightedMedian), "weighted median {lim} {vals:?}");
    }
}

#[test]
fn times_keep_positive_only() {
    let mut t = Times::new();
    t.insert(5);
    t.insert(0);
    t.insert(-3);
    t.insert(7);
    assert_eq!(t.count(), 4);
    assert_eq!(t.tot(), 12);
    assert_eq!(t.pred(10, Arith), 6);
    assert_eq!(t.pred(1, Arith), 7);
}

#[test]
fn pred_between_window_bounds() {
    let mut t = Times::new();
    for x in [1000, 5, 50, 7, 12] {
        t.insert(x);
    }
    for avg in [Arith, Median, WeightedArith, WeightedMedian] {
        let p = t.pred(4, avg);
        assert!(5 <= p && p <= 50, "{p}");
    }
}
