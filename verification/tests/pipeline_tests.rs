use lang_const_empirical::filename::{run_name, sanitize_for_filename};
use lang_const_empirical::pending::pending_b1_values;
use lang_const_empirical::prompt::prompt_reply;
use lang_const_empirical::point::{height, Point};
use lang_const_empirical::regimes::{group_regimes, Regime};
use std::collections::HashSet;

#[test]
fn pending_skips_zero_and_completed() {
    let mut done = HashSet::new();
    done.insert(-2i64);
    done.insert(3i64);
    assert_eq!(pending_b1_values(-3, 4, &done), vec![-3, -1, 1, 2, 4]);
    assert_eq!(pending_b1_values(1, 5, &HashSet::new()), vec![1, 2, 3, 4, 5]);
}

#[test]
fn pending_of_empty_and_edge_ranges() {
    assert!(pending_b1_values(5, 4, &HashSet::new()).is_empty());
    assert!(pending_b1_values(0, 0, &HashSet::new()).is_empty());
    assert_eq!(pending_b1_values(i64::MAX - 1, i64::MAX, &HashSet::new()), vec![i64::MAX - 1, i64::MAX]);
    assert_eq!(pending_b1_values(i64::MIN, i64::MIN, &HashSet::new()), vec![i64::MIN]);
}

fn pt(b1: i64, b2: i64) -> Point {
    Point { b1, b2, b_max: height(b1, b2), lambda_key: 1 }
}

#[test]
fn regimes_group_runs_of_one_point() {
    let pareto = vec![pt(1, -1), pt(2, -3), pt(7, -10)];
    let winners = vec![2, 2, 1, 1, 1, 0, 0];
    let r = group_regimes(&winners, &pareto, true);
    assert_eq!(
        r,
        vec![
            Regime { first: 0, last: 1, point: pareto[2] },
            Regime { first: 2, last: 4, point: pareto[1] },
            Regime { first: 5, last: 6, point: pareto[0] },
        ]
    );
    let d = group_regimes(&winners, &pareto, false);
    assert_eq!(d, vec![r[2], r[1], r[0]]);
}

#[test]
fn regimes_merge_points_with_equal_coefficients() {
    let pareto = vec![pt(1, -1), pt(2, -3), pt(1, -1)];
    let winners = vec![0, 1, 2, 1];
    let r = group_regimes(&winners, &pareto, true);
    assert_eq!(
        r,
        vec![Regime { first: 0, last: 2, point: pareto[0] }, Regime { first: 1, last: 3, point: pareto[1] }]
    );
    assert!(group_regimes(&Vec::new(), &pareto, true).is_empty());
}

#[test]
fn file_names_replace_slashes_and_white_space() {
    assert_eq!(sanitize_for_filename("(sqrt(2)+1)/2"), "(sqrt(2)+1)\u{2215}2");
    assert_eq!(sanitize_for_filename("a b\tc\\d"), "a_b_c\u{2215}d");
    assert_eq!(sanitize_for_filename("x\u{3000}y\u{00a0}z\u{200b}"), "x_y_z\u{200b}");
    assert_eq!(sanitize_for_filename(""), "");
}

#[test]
fn run_name_as_the_readme_shows() {
    assert_eq!(
        run_name("(sqrt(2)+1)/2", "(1+sqrt(3))/2", 1, 10000000),
        "a1_(sqrt(2)+1)\u{2215}2_a2_(1+sqrt(3))\u{2215}2_b1_1_to_10000000"
    );
}

#[test]
fn run_name_with_negative_and_extreme_bounds() {
    assert_eq!(run_name("a b", "c", -15, 0), "a1_a_b_a2_c_b1_-15_to_0");
    assert_eq!(
        run_name("x", "y", i64::MIN, i64::MAX),
        format!("a1_x_a2_y_b1_{}_to_{}", i64::MIN, i64::MAX)
    );
    assert_eq!(run_name("", "", 9, 10), "a1__a2__b1_9_to_10");
}

#[test]
fn each_eps_lies_in_one_regime() {
    let pareto = vec![pt(1, -1), pt(2, -3), pt(3, -4), pt(1, -1)];
    let winners = vec![3, 1, 1, 0, 2, 2, 1, 3];
    let r = group_regimes(&winners, &pareto, true);
    for (i, &w) in winners.iter().enumerate() {
        let key = (pareto[w].b1, pareto[w].b2);
        let holders: Vec<&Regime> = r.iter().filter(|g| (g.point.b1, g.point.b2) == key).collect();
        assert_eq!(holders.len(), 1);
        assert!(holders[0].first <= i && i <= holders[0].last);
    }
    assert_eq!(r.len(), 3);
    assert_eq!(r[0], Regime { first: 0, last: 7, point: pareto[3] });
}

#[test]
fn prompt_replies_trim_white_space() {
    assert_eq!(prompt_reply("  (sqrt(3)-1)/2 \n"), Some("(sqrt(3)-1)/2".to_string()));
    assert_eq!(prompt_reply("\t 42\r\n"), Some("42".to_string()));
    assert_eq!(prompt_reply(" a b \n"), Some("a b".to_string()));
    assert_eq!(prompt_reply("   \n"), None);
    assert_eq!(prompt_reply(""), None);
    assert_eq!(prompt_reply("\u{3000}x\u{2028}"), Some("x".to_string()));
}
