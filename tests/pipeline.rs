use market_snapshot::batch::{collect_batch, FetchOutcome, Kline, RelevantHistoricalData, RunError};
use market_snapshot::cache::NegativeCache;
use market_snapshot::chart::{plotly_closes, TraceStyle};
use market_snapshot::lsr::{LsrEntry, SortedLsrs};
use market_snapshot::normalize::{align, collect_data, normalize, NormalizedSeries};

const FIVE_MIN: i64 = 300_000;
const START: i64 = 1_704_067_200_000; // 2024-01-01T00:00:00Z

fn bars(closes: &[u64]) -> Vec<Kline> {
    closes
        .iter()
        .enumerate()
        .map(|(k, &c)| Kline {
            open_time: START + FIVE_MIN * k as i64,
            open: c,
            high: c,
            low: c,
            close: c,
            volume_quote: 10 * c,
        })
        .collect()
}

fn name(s: &str) -> String {
    s.to_string()
}

#[test]
fn batch_keeps_data_records_empties_and_drops_failures() {
    let outcomes = vec![
        (name("A"), FetchOutcome::Fetched(vec![1u64, 2])),
        (name("B"), FetchOutcome::Failed),
        (name("C"), FetchOutcome::Fetched(Vec::new())),
        (name("D"), FetchOutcome::Fetched(vec![3u64])),
    ];
    let batch = collect_batch(outcomes);
    assert_eq!(batch.series, vec![(name("A"), vec![1, 2]), (name("D"), vec![3])]);
    assert_eq!(batch.new_negatives, vec![name("C")]);
}

#[test]
fn klines_split_into_columns() {
    let k = bars(&[5, 7]);
    let cols = RelevantHistoricalData::from_klines(&k);
    assert_eq!(cols.col_open_times, vec![START, START + FIVE_MIN]);
    assert_eq!(cols.col_closes, vec![5, 7]);
    assert_eq!(cols.col_opens, vec![5, 7]);
    assert_eq!(cols.col_highs, vec![5, 7]);
    assert_eq!(cols.col_lows, vec![5, 7]);
    assert_eq!(cols.col_volumes, vec![50, 70]);
}

#[test]
fn normalization_starts_at_zero_and_drops_unusable_series() {
    let raw = vec![
        (name("A"), vec![100u64, 50, 200]),
        (name("E"), Vec::new()),
        (name("Z"), vec![0u64, 5]),
        (name("B"), vec![7u64]),
    ];
    let n = normalize(&raw);
    assert_eq!(n.len(), 2);
    assert_eq!(n[0].0, "A");
    assert_eq!(n[0].1.base, 100);
    assert_eq!(n[0].1.values, vec![100, 50, 200]);
    assert_eq!(n[0].1.values[0], n[0].1.base);
    assert_eq!(n[1].0, "B");
    assert_eq!(n[1].1.values[0], n[1].1.base);
}

#[test]
fn alignment_keeps_only_reference_length() {
    let mk = |len: usize| NormalizedSeries { base: 1, values: vec![1; len] };
    let n = vec![(name("A"), mk(3)), (name("B"), mk(2)), (name("C"), mk(3)), (name("D"), mk(4))];
    assert_eq!(align(&n, 3), vec![0, 2]);
    assert_eq!(align(&n, 5), Vec::<usize>::new());
}

#[test]
fn missing_reference_aborts_the_run() {
    let batch = collect_batch(vec![(name("B"), FetchOutcome::Fetched(bars(&[1, 2])))]);
    assert!(matches!(collect_data(&batch, &name("A")), Err(RunError::ReferenceUnavailable)));
}

#[test]
fn reference_supplies_the_time_index() {
    let batch = collect_batch(vec![
        (name("B"), FetchOutcome::Fetched(bars(&[1, 2]))),
        (name("A"), FetchOutcome::Fetched(bars(&[4, 5, 6]))),
    ]);
    let (normalized, dt) = collect_data(&batch, &name("A")).expect("reference present");
    assert_eq!(dt, vec![START, START + FIVE_MIN, START + 2 * FIVE_MIN]);
    assert_eq!(normalized.len(), 2);
    assert_eq!(align(&normalized, dt.len()), vec![1]);
}

#[test]
fn four_instrument_scenario() {
    let universe: Vec<String> = ["A", "B", "C", "D"].iter().map(|s| s.to_string()).collect();
    let cache = NegativeCache::load(None, 0, 1_700_000_000);
    let candidates = cache.filter(&universe);
    assert_eq!(candidates, universe);

    let series = |n: &str| -> Vec<Kline> {
        match n {
            "A" => bars(&[100, 101, 102, 103, 104]),
            "B" => bars(&[100, 99, 98, 97, 90]),
            "C" => bars(&[100, 110, 120, 130, 150]),
            _ => Vec::new(),
        }
    };
    let outcomes = candidates.iter().map(|p| (p.clone(), FetchOutcome::Fetched(series(p)))).collect();
    let batch = collect_batch(outcomes);
    assert_eq!(batch.new_negatives, vec![name("D")]);
    assert_eq!(cache.persist_plan(&batch.new_negatives), Some(name("D")));

    let (normalized, dt) = collect_data(&batch, &name("A")).expect("reference present");
    let aligned = align(&normalized, dt.len());
    let aligned_names: Vec<&str> = aligned.iter().map(|&k| normalized[k].0.as_str()).collect();
    assert_eq!(aligned_names, vec!["A", "B", "C"]);

    let plan = plotly_closes(&normalized, &aligned, &dt, FIVE_MIN as u64, "Binance/Futures", 4, &name("A"));
    let drawn: Vec<(&str, TraceStyle)> =
        plan.traces.iter().map(|t| (normalized[t.series].0.as_str(), t.style)).collect();
    assert_eq!(
        drawn,
        vec![("C", TraceStyle::Extreme), ("A", TraceStyle::Reference), ("B", TraceStyle::Extreme)]
    );

    // text policy with K = 10 and N = 3: exactly one pair
    let entry = |p: &str, ppm: u64| LsrEntry { pair: name(p), long_ppm: ppm, cell: format!("[{p}]") };
    let sorted = SortedLsrs::build(vec![entry("A", 500_000), entry("B", 300_000), entry("C", 700_000)]);
    assert_eq!(sorted.extreme_pairs(10), vec![(name("B"), name("C"))]);
}
