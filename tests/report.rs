use market_snapshot::lsr::{format_report, lsr_entries, InsufficientDataForRow, LsrEntry, SortedLsrs};

fn entry(p: &str, ppm: u64) -> LsrEntry {
    LsrEntry { pair: p.to_string(), long_ppm: ppm, cell: format!("{p:<6}{ppm:>7}") }
}

fn names(v: &[(String, String)]) -> Vec<(&str, &str)> {
    v.iter().map(|(a, b)| (a.as_str(), b.as_str())).collect()
}

#[test]
fn build_sorts_by_long_share() {
    let s = SortedLsrs::build(vec![entry("X", 600_000), entry("Y", 200_000), entry("Z", 400_000), entry("W", 900_000)]);
    assert_eq!(s.len(), 4);
    assert_eq!(names(&s.extreme_pairs(10)), vec![("Y", "W"), ("Z", "X")]);
}

#[test]
fn row_pairs_lowest_with_highest() {
    let s = SortedLsrs::build(vec![entry("X", 600_000), entry("Y", 200_000), entry("Z", 400_000)]);
    assert_eq!(s.display_most_shorted_longed_row(0), Ok(format!("{}{}", entry("Y", 200_000).cell, entry("X", 600_000).cell)));
    assert_eq!(s.display_most_shorted_longed_row(1), Ok(format!("{}{}", entry("Z", 400_000).cell, entry("Z", 400_000).cell)));
    assert_eq!(s.display_most_shorted_longed_row(2), Err(InsufficientDataForRow { row: 2, available: 3 }));
}

#[test]
fn row_of_empty_list_is_reported() {
    let s = SortedLsrs::build(Vec::new());
    assert_eq!(s.display_most_shorted_longed_row(0), Err(InsufficientDataForRow { row: 0, available: 0 }));
}

#[test]
fn fixed_count_selector_sizes() {
    let many: Vec<LsrEntry> = (0..25u64).map(|k| entry(&format!("P{k}"), k * 1_000)).collect();
    let s = SortedLsrs::build(many);
    let pairs = s.extreme_pairs(10);
    assert_eq!(pairs.len(), 10);
    assert_eq!(pairs[0], ("P0".to_string(), "P24".to_string()));
    assert_eq!(pairs[9], ("P9".to_string(), "P15".to_string()));
    let few: Vec<LsrEntry> = (0..7u64).map(|k| entry(&format!("Q{k}"), k * 1_000)).collect();
    let s = SortedLsrs::build(few);
    assert_eq!(s.extreme_pairs(10).len(), 3);
    for i in 0..3 {
        assert!(s.display_most_shorted_longed_row(i).is_ok());
    }
}

#[test]
fn average_to_two_decimals() {
    let s = SortedLsrs::build(vec![entry("A", 500_000), entry("B", 560_000)]);
    assert_eq!(s.average(), "0.53");
    let s = SortedLsrs::build(vec![entry("A", 1_000_000)]);
    assert_eq!(s.average(), "1.00");
    let s = SortedLsrs::build(vec![entry("A", 4_999)]);
    assert_eq!(s.average(), "0.00");
    let s = SortedLsrs::build(vec![entry("A", 5_000)]);
    assert_eq!(s.average(), "0.01");
    assert_eq!(SortedLsrs::build(Vec::new()).average(), "NaN");
}

#[test]
fn whole_report_text() {
    let a = LsrEntry { pair: "AUSDT".to_string(), long_ppm: 500_000, cell: "A 50%".to_string() };
    let b = LsrEntry { pair: "BUSDT".to_string(), long_ppm: 560_000, cell: "B 56%".to_string() };
    let s = SortedLsrs::build(vec![b, a]);
    let r = format_report(&s, 5, "Binance/Futures", 24);
    assert_eq!(
        r,
        "Most Shorted (% longs)  Most Longed (% longs)   A 50%B 56%\n\
         ------------------------\n\
         Average: 0.53\n\
         Collected for 2/5 pairs on Binance/Futures"
    );
}

#[test]
fn report_with_too_few_entries_has_no_rows() {
    let s = SortedLsrs::build(vec![entry("A", 1)]);
    let r = format_report(&s, 1, "M", 3);
    assert_eq!(r, "\n---\nAverage: 0.00\nCollected for 1/1 pairs on M");
}

#[test]
fn entries_take_the_latest_share() {
    let series = vec![("A".to_string(), vec![100u64, 400_000]), ("B".to_string(), vec![900_000u64])];
    let cells = vec!["a".to_string(), "b".to_string()];
    let e = lsr_entries(&series, &cells);
    assert_eq!(e.len(), 2);
    assert_eq!((e[0].pair.as_str(), e[0].long_ppm, e[0].cell.as_str()), ("A", 400_000, "a"));
    assert_eq!((e[1].pair.as_str(), e[1].long_ppm, e[1].cell.as_str()), ("B", 900_000, "b"));
}
