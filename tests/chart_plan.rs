use market_snapshot::batch::{collect_batch, FetchOutcome, Kline, RunError};
use market_snapshot::chart::{plan_traces, plotly_closes, symbol, try_build, TraceStyle};
use market_snapshot::normalize::NormalizedSeries;

const HOUR: i64 = 3_600_000;
const FIVE_MIN: i64 = 300_000;
const START: i64 = 1_704_067_200_000; // 2024-01-01T00:00:00Z

fn series(base: u64, last: u64, len: usize) -> NormalizedSeries {
    let mut values = vec![base; len];
    values[len - 1] = last;
    NormalizedSeries { base, values }
}

#[test]
fn symbol_strips_quote_and_multiplier() {
    assert_eq!(symbol(&"BTCUSDT".to_string()), "BTC");
    assert_eq!(symbol(&"1000PEPEUSDT".to_string()), "PEPE");
    assert_eq!(symbol(&"ABC".to_string()), "ABC");
}

#[test]
fn x_axis_and_title() {
    let dt: Vec<i64> = (0..289).map(|k| START + FIVE_MIN * k).collect();
    let normalized = vec![("BTCUSDT".to_string(), series(10, 11, 289))];
    let plan = plotly_closes(&normalized, &vec![0], &dt, FIVE_MIN as u64, "Binance/Futures", 7, &"BTCUSDT".to_string());
    assert_eq!(plan.title, "Last 24h of 1/7 pairs on Binance/Futures");
    assert_eq!(plan.x_labels.len(), 289);
    assert_eq!(plan.x_labels[0], "2024-01-01T00:00:00+00:00");
    assert_eq!(plan.x_labels[12], "2024-01-01T01:00:00+00:00");
    assert_eq!(plan.traces.len(), 1);
    assert_eq!(plan.traces[0].style, TraceStyle::Reference);
    assert_eq!(plan.traces[0].label.as_deref(), Some("~BTC~"));
}

#[test]
fn extremes_labeled_rest_for_context() {
    // 13 aligned series: round(ln(13)) = 3 extremes on each side
    let mut normalized = Vec::new();
    for k in 0..13u64 {
        normalized.push((format!("S{k}USDT"), series(100, 50 + 10 * k, 2)));
    }
    normalized.push(("BTCUSDT".to_string(), series(100, 105, 2)));
    normalized.push(("LONGUSDT".to_string(), series(100, 1, 3)));
    let aligned: Vec<usize> = (0..14).collect();
    let dt = vec![START, START + HOUR];
    let plan = plotly_closes(&normalized, &aligned, &dt, HOUR as u64, "M", 20, &"BTCUSDT".to_string());
    let drawn: Vec<(usize, TraceStyle, Option<String>)> =
        plan.traces.iter().map(|t| (t.series, t.style, t.label.clone())).collect();
    // ascending scores: S0..S5 (50..100), BTC (105), S6..S12 (110..170); 14 aligned -> 3 each side
    let ctx: Vec<usize> = drawn.iter().filter(|d| d.1 == TraceStyle::Context).map(|d| d.0).collect();
    assert_eq!(ctx, vec![3, 4, 5, 6, 7, 8, 9]);
    let rest: Vec<(usize, TraceStyle, Option<String>)> = drawn.into_iter().skip(7).collect();
    assert_eq!(
        rest,
        vec![
            (12, TraceStyle::Extreme, Some("S12".to_string())),
            (11, TraceStyle::Extreme, Some("S11".to_string())),
            (10, TraceStyle::Extreme, Some("S10".to_string())),
            (13, TraceStyle::Reference, Some("~BTC~".to_string())),
            (2, TraceStyle::Extreme, Some("S2".to_string())),
            (1, TraceStyle::Extreme, Some("S1".to_string())),
            (0, TraceStyle::Extreme, Some("S0".to_string())),
        ]
    );
    assert_eq!(plan.title, "Last 2h of 15/20 pairs on M");
}

fn bars(closes: &[u64]) -> Vec<Kline> {
    closes
        .iter()
        .enumerate()
        .map(|(k, &c)| Kline { open_time: START + FIVE_MIN * k as i64, open: c, high: c, low: c, close: c, volume_quote: c })
        .collect()
}

#[test]
fn try_build_skips_misaligned_series() {
    let batch = collect_batch(vec![
        ("BTCUSDT".to_string(), FetchOutcome::Fetched(bars(&[10, 11, 12]))),
        ("SHORTUSDT".to_string(), FetchOutcome::Fetched(bars(&[10, 11]))),
        ("ETHUSDT".to_string(), FetchOutcome::Fetched(bars(&[10, 9, 8]))),
    ]);
    let (normalized, plan) = try_build(&batch, &"BTCUSDT".to_string(), 3, FIVE_MIN as u64, "M").expect("reference present");
    assert_eq!(normalized.len(), 3);
    assert!(plan.traces.iter().all(|t| t.series != 1));
    // BTC is the highest and the reference: drawn once, as the reference
    let drawn: Vec<(usize, TraceStyle)> = plan.traces.iter().map(|t| (t.series, t.style)).collect();
    assert_eq!(drawn, vec![(0, TraceStyle::Reference), (2, TraceStyle::Extreme)]);
    assert_eq!(plan.title, "Last 0h of 3/3 pairs on M");
}

#[test]
fn try_build_without_reference_fails() {
    let batch = collect_batch(vec![("ETHUSDT".to_string(), FetchOutcome::Fetched(bars(&[1])))]);
    assert!(matches!(try_build(&batch, &"BTCUSDT".to_string(), 1, 1, "M"), Err(RunError::ReferenceUnavailable)));
}

#[test]
fn reference_among_extremes_is_drawn_once() {
    let normalized = vec![
        ("BTCUSDT".to_string(), series(100, 300, 2)),
        ("AUSDT".to_string(), series(100, 50, 2)),
        ("BUSDT".to_string(), series(100, 120, 2)),
        ("CUSDT".to_string(), series(100, 130, 2)),
        ("DUSDT".to_string(), series(100, 110, 2)),
    ];
    let aligned: Vec<usize> = (0..5).collect();
    let dt = vec![START, START + HOUR];
    let plan = plotly_closes(&normalized, &aligned, &dt, HOUR as u64, "M", 5, &"BTCUSDT".to_string());
    // round(ln(5)) = 2 each side: highest BTC and C, lowest A and D
    let drawn: Vec<(usize, TraceStyle, Option<String>)> =
        plan.traces.iter().map(|t| (t.series, t.style, t.label.clone())).collect();
    assert_eq!(
        drawn,
        vec![
            (2, TraceStyle::Context, None),
            (3, TraceStyle::Extreme, Some("C".to_string())),
            (0, TraceStyle::Reference, Some("~BTC~".to_string())),
            (4, TraceStyle::Extreme, Some("D".to_string())),
            (1, TraceStyle::Extreme, Some("A".to_string())),
        ]
    );
    let mut series_drawn: Vec<usize> = plan.traces.iter().map(|t| t.series).collect();
    series_drawn.sort();
    assert_eq!(series_drawn, aligned);
}

#[test]
fn symbol_removes_every_multiplier() {
    assert_eq!(symbol(&"1000X1000USDT".to_string()), "X");
    assert_eq!(symbol(&"10000SATSUSDT".to_string()), "0SATS");
    assert_eq!(symbol(&"100USDT".to_string()), "100");
}

#[test]
fn traces_without_a_time_axis() {
    let normalized = vec![
        ("AUSDT".to_string(), series(100, 90, 2)),
        ("BTCUSDT".to_string(), series(100, 100, 2)),
        ("CUSDT".to_string(), series(100, 110, 2)),
    ];
    let traces = plan_traces(&normalized, &vec![0, 1, 2], &"BTCUSDT".to_string());
    let drawn: Vec<(usize, TraceStyle)> = traces.iter().map(|t| (t.series, t.style)).collect();
    assert_eq!(drawn, vec![(2, TraceStyle::Extreme), (1, TraceStyle::Reference), (0, TraceStyle::Extreme)]);
}
