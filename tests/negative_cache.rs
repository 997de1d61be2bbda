use market_snapshot::cache::{join_store, parse_store, NegativeCache, DAY_SECS, TTL_SECS};

fn strs(v: &[&str]) -> Vec<String> {
    v.iter().map(|s| s.to_string()).collect()
}

const T: u64 = 1_700_000_000;

#[test]
fn parse_store_skips_empty_lines() {
    assert_eq!(parse_store("A\n\nB\n"), strs(&["A", "B"]));
    assert_eq!(parse_store(""), Vec::<String>::new());
    assert_eq!(parse_store("\n\n"), Vec::<String>::new());
    assert_eq!(parse_store("XUSDT"), strs(&["XUSDT"]));
}

#[test]
fn join_store_writes_one_per_line() {
    assert_eq!(join_store(&strs(&["A", "B", "C"])), "A\nB\nC");
    assert_eq!(join_store(&Vec::new()), "");
}

#[test]
fn entry_honored_after_29_days() {
    let cache = NegativeCache::load(Some("D".to_string()), T, T + 29 * DAY_SECS);
    assert_eq!(cache.entries, strs(&["D"]));
    assert_eq!(cache.filter(&strs(&["A", "D"])), strs(&["A"]));
}

#[test]
fn entry_ignored_after_31_days() {
    let cache = NegativeCache::load(Some("D".to_string()), T, T + 31 * DAY_SECS);
    assert!(cache.entries.is_empty());
    assert_eq!(cache.filter(&strs(&["A", "D"])), strs(&["A", "D"]));
}

#[test]
fn entry_ignored_at_exactly_the_ttl() {
    let cache = NegativeCache::load(Some("D".to_string()), T, T + TTL_SECS);
    assert!(cache.entries.is_empty());
    let cache = NegativeCache::load(Some("D".to_string()), T, T + TTL_SECS - 1);
    assert_eq!(cache.entries, strs(&["D"]));
}

#[test]
fn unreadable_store_is_empty() {
    let cache = NegativeCache::load(None, T, T);
    assert!(cache.entries.is_empty());
    assert_eq!(cache.loaded_at, T);
}

#[test]
fn stale_cache_file_is_ignored() {
    let cache = NegativeCache::load(Some("X".to_string()), T, T + 40 * DAY_SECS);
    assert_eq!(cache.filter(&strs(&["X", "Y"])), strs(&["X", "Y"]));
}

#[test]
fn persist_round_trip_keeps_the_set() {
    let cache = NegativeCache::load(Some("B\nA".to_string()), T, T + DAY_SECS);
    let written = cache.persist_plan(&strs(&["C"])).expect("new negatives are written");
    assert_eq!(written, "B\nA\nC");
    let reloaded = NegativeCache::load(Some(written), T + DAY_SECS, T + 2 * DAY_SECS);
    let mut got = reloaded.entries.clone();
    got.sort();
    assert_eq!(got, strs(&["A", "B", "C"]));
}

#[test]
fn nothing_new_leaves_store_untouched() {
    let cache = NegativeCache::load(Some("A".to_string()), T, T);
    assert_eq!(cache.persist_plan(&Vec::new()), None);
}

#[test]
fn stale_store_is_replaced_by_new_negatives_only() {
    let cache = NegativeCache::load(Some("OLD".to_string()), T, T + 31 * DAY_SECS);
    assert_eq!(cache.persist_plan(&strs(&["NEW"])), Some("NEW".to_string()));
}

#[test]
fn parse_store_drops_carriage_returns() {
    assert_eq!(parse_store("A\r\nB\r\n\r\nC"), strs(&["A", "B", "C"]));
    assert_eq!(parse_store("A\r"), strs(&["A"]));
    assert_eq!(parse_store("\r\r\n"), Vec::<String>::new());
}
