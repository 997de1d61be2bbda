use market_snapshot::rank::{fixed_count, log_count, rank, score_le_exec, select_extremes, Score};

fn s(num: u64, den: u64) -> Score {
    Score { num, den }
}

#[test]
fn rank_orders_by_exact_ratio() {
    // 3/2 = 1.5, 1/1 = 1, 5/4 = 1.25, 2/2 = 1 (ties with position 1)
    let scores = vec![s(3, 2), s(1, 1), s(5, 4), s(2, 2)];
    assert_eq!(rank(&scores), vec![1, 3, 2, 0]);
}

#[test]
fn rank_of_nothing_is_empty() {
    assert_eq!(rank(&Vec::new()), Vec::<usize>::new());
}

#[test]
fn rank_keeps_equal_scores_in_input_order() {
    let scores = vec![s(2, 4), s(1, 2), s(3, 6), s(1, 3)];
    assert_eq!(rank(&scores), vec![3, 0, 1, 2]);
}

#[test]
fn score_comparison_is_exact_on_large_values() {
    let a = s(u64::MAX - 1, u64::MAX);
    let b = s(u64::MAX, u64::MAX);
    assert!(score_le_exec(&a, &b));
    assert!(!score_le_exec(&b, &a));
}

#[test]
fn log_count_rounds_natural_log() {
    let cases: Vec<(usize, usize)> = vec![
        (0, 0),
        (1, 0),
        (2, 1),
        (4, 1),
        (5, 2),
        (12, 2),
        (13, 3),
        (33, 3),
        (34, 4),
        (100, 5),
        (300, 6),
        (1000, 7),
    ];
    for (n, want) in cases {
        assert_eq!(log_count(n), want, "n = {}", n);
    }
}

#[test]
fn log_count_agrees_with_float_rounding() {
    for n in 1..5000usize {
        let want = (n as f64).ln().round() as usize;
        assert_eq!(log_count(n), want, "n = {}", n);
    }
}

#[test]
fn log_selection_is_disjoint() {
    let scores: Vec<Score> = (0..20u64).map(|k| s((k * 7) % 20 + 1, 1)).collect();
    let order = rank(&scores);
    let c = log_count(order.len());
    assert_eq!(c, 3);
    let (lowest, highest) = select_extremes(&order, c);
    assert_eq!(lowest.len(), 3);
    assert_eq!(highest.len(), 3);
    for l in &lowest {
        assert!(!highest.contains(l));
    }
    // lowest scores are 1, 2, 3; highest 20, 19, 18
    let low_scores: Vec<u64> = lowest.iter().map(|&p| scores[p].num).collect();
    let high_scores: Vec<u64> = highest.iter().map(|&p| scores[p].num).collect();
    assert_eq!(low_scores, vec![1, 2, 3]);
    assert_eq!(high_scores, vec![20, 19, 18]);
}

#[test]
fn fixed_count_caps_at_half() {
    assert_eq!(fixed_count(25, 10), 10);
    assert_eq!(fixed_count(20, 10), 10);
    assert_eq!(fixed_count(19, 10), 9);
    assert_eq!(fixed_count(7, 10), 3);
    assert_eq!(fixed_count(1, 10), 0);
    assert_eq!(fixed_count(0, 10), 0);
}
