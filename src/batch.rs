use vstd::prelude::*;

verus! {

/// Conditions that abort a run; everything else is absorbed per instrument.
#[derive(Clone, Copy, Debug, PartialEq, Eq, Structural)]
pub enum RunError {
    /// The exchange could not list the instruments of the market.
    UniverseUnavailable,
    /// The reference instrument returned no data.
    ReferenceUnavailable,
}

/// What one instrument's request produced.
pub enum FetchOutcome<T> {
    /// The request succeeded; the series may be empty.
    Fetched(Vec<T>),
    /// Transport, timeout or decoding failure.
    Failed,
}

/// The joined results of one fan-out: the instruments that produced data, in
/// the order of the outcomes, and those that answered with nothing.
pub struct Batch<T> {
    pub series: Vec<(String, Vec<T>)>,
    pub new_negatives: Vec<String>,
}

/// The views of the series that contribute to a batch.
pub open spec fn contributed<T>(outs: Seq<(String, FetchOutcome<T>)>) -> Seq<(Seq<char>, Seq<T>)>
    decreases outs.len(),
{
    if outs.len() == 0 {
        seq![]
    } else {
        let rest = contributed(outs.drop_first());
        match outs[0].1 {
            FetchOutcome::Fetched(v) => if v@.len() > 0 {
                seq![(outs[0].0@, v@)] + rest
            } else {
                rest
            },
            FetchOutcome::Failed => rest,
        }
    }
}

/// The instruments whose request succeeded with an empty series.
pub open spec fn empties<T>(outs: Seq<(String, FetchOutcome<T>)>) -> Seq<Seq<char>>
    decreases outs.len(),
{
    if outs.len() == 0 {
        seq![]
    } else {
        let rest = empties(outs.drop_first());
        match outs[0].1 {
            FetchOutcome::Fetched(v) => if v@.len() == 0 {
                seq![outs[0].0@] + rest
            } else {
                rest
            },
            FetchOutcome::Failed => rest,
        }
    }
}

impl<T> Batch<T> {
    /// Every kept series holds at least one observation, and no instrument
    /// has two.
    pub open spec fn well_formed(&self) -> bool {
        &&& forall|k: int| 0 <= k < self.series@.len() ==> (#[trigger] self.series@[k]).1@.len() > 0
        &&& forall|a: int, b: int|
            0 <= a < b < self.series@.len() ==> (#[trigger] self.series@[a]).0@ != (
            #[trigger] self.series@[b]).0@
    }
}

/// No instrument is named twice among the outcomes.
pub open spec fn distinct_names<T>(outs: Seq<(String, FetchOutcome<T>)>) -> bool {
    forall|a: int, b: int| 0 <= a < b < outs.len() ==> (#[trigger] outs[a]).0@ != (#[trigger] outs[b]).0@
}

pub open spec fn series_view<T>(s: Seq<(String, Vec<T>)>) -> Seq<(Seq<char>, Seq<T>)> {
    s.map_values(|e: (String, Vec<T>)| (e.0@, e.1@))
}

pub open spec fn names_of(s: Seq<String>) -> Seq<Seq<char>> {
    s.map_values(|e: String| e@)
}

/// Joins the per-instrument outcomes: non-empty series are kept, empty
/// successful answers become new negatives, failures contribute nothing.
pub fn collect_batch<T>(outcomes: Vec<(String, FetchOutcome<T>)>) -> (b: Batch<T>)
    requires
        distinct_names(outcomes@),
    ensures
        series_view(b.series@) == contributed(outcomes@),
        names_of(b.new_negatives@) == empties(outcomes@),
        b.well_formed(),
{
    let ghost all = outcomes@;
    let mut rest = outcomes;
    let mut series: Vec<(String, Vec<T>)> = Vec::new();
    let mut negatives: Vec<String> = Vec::new();
    while rest.len() > 0
        invariant
            rest@ == all.take(rest@.len() as int),
            rest@.len() <= all.len(),
            series_view(series@) == contributed(all.skip(rest@.len() as int)),
            names_of(negatives@) == empties(all.skip(rest@.len() as int)),
            forall|j: int| 0 <= j < series@.len() ==> (#[trigger] series@[j]).1@.len() > 0,
            distinct_names(all),
            forall|j: int|
                0 <= j < series@.len() ==> exists|i: int|
                    rest@.len() <= i < all.len() && (#[trigger] series@[j]).0@ == all[i].0@,
            forall|a: int, b: int|
                0 <= a < b < series@.len() ==> (#[trigger] series@[a]).0@ != (#[trigger] series@[b]).0@,
        decreases rest@.len(),
    {
        let ghost k = rest@.len() as int;
        let (name, outcome) = rest.pop().unwrap();
        assert(all.skip(k - 1).drop_first() =~= all.skip(k));
        assert(all.skip(k - 1)[0] == all[k - 1]);
        assert(rest@ =~= all.take(k - 1));
        match outcome {
            FetchOutcome::Fetched(v) => {
                if v.len() > 0 {
                    let ghost before = series@;
                    let ghost entry = (name@, v@);
                    series.insert(0, (name, v));
                    assert(series_view(series@) =~= seq![entry] + series_view(before));
                    assert forall|j: int| 0 <= j < series@.len() implies (#[trigger] series@[j]).1@.len() > 0 by {
                        if j > 0 {
                            assert(series@[j] == before[j - 1]);
                        }
                    }
                    assert(series@[0].0@ == all[k - 1].0@);
                    assert forall|j: int| 0 <= j < series@.len() implies exists|i: int|
                        k - 1 <= i < all.len() && (#[trigger] series@[j]).0@ == all[i].0@ by {
                        if j > 0 {
                            assert(series@[j] == before[j - 1]);
                        } else {
                            assert(series@[j].0@ == all[k - 1].0@);
                        }
                    }
                    assert forall|a: int, b: int|
                        0 <= a < b < series@.len() implies (#[trigger] series@[a]).0@ != (
                        #[trigger] series@[b]).0@ by {
                        assert(series@[b] == before[b - 1]);
                        if a > 0 {
                            assert(series@[a] == before[a - 1]);
                        } else {
                            let i = choose|i: int| k <= i < all.len() && before[b - 1].0@ == all[i].0@;
                            assert(all[k - 1].0@ != all[i].0@);
                        }
                    }
                } else {
                    let ghost before = negatives@;
                    let ghost nv = name@;
                    negatives.insert(0, name);
                    assert(names_of(negatives@) =~= seq![nv] + names_of(before));
                }
            },
            FetchOutcome::Failed => {},
        }
    }
    assert(all.skip(0) =~= all);
    Batch { series, new_negatives: negatives }
}

/// Position of `name` among the batch's series, if it is there.
pub fn find_series<T>(series: &Vec<(String, Vec<T>)>, name: &String) -> (r: Option<usize>)
    ensures
        match r {
            Some(k) => k < series@.len() && series@[k as int].0@ == name@ && forall|j: int|
                0 <= j < k ==> (#[trigger] series@[j]).0@ != name@,
            None => forall|j: int| 0 <= j < series@.len() ==> (#[trigger] series@[j]).0@ != name@,
        },
{
    let mut i: usize = 0;
    while i < series.len()
        invariant
            i <= series@.len(),
            forall|j: int| 0 <= j < i ==> (#[trigger] series@[j]).0@ != name@,
        decreases series@.len() - i,
    {
        if series[i].0 == *name {
            return Some(i);
        }
        i = i + 1;
    }
    None
}

/// One price bar, prices and volume in fixed-point ticks, time in
/// milliseconds since the epoch.
#[derive(Clone, Copy, Debug, PartialEq, Eq, Structural)]
pub struct Kline {
    pub open_time: i64,
    pub open: u64,
    pub high: u64,
    pub low: u64,
    pub close: u64,
    pub volume_quote: u64,
}

/// A series of bars split into columns.
pub struct RelevantHistoricalData {
    pub col_open_times: Vec<i64>,
    pub col_opens: Vec<u64>,
    pub col_highs: Vec<u64>,
    pub col_lows: Vec<u64>,
    pub col_closes: Vec<u64>,
    pub col_volumes: Vec<u64>,
}

impl RelevantHistoricalData {
    /// Splits bars into one column per field, in the bars' order.
    pub fn from_klines(klines: &Vec<Kline>) -> (r: RelevantHistoricalData)
        ensures
            r.col_open_times@ == klines@.map_values(|k: Kline| k.open_time),
            r.col_opens@ == klines@.map_values(|k: Kline| k.open),
            r.col_highs@ == klines@.map_values(|k: Kline| k.high),
            r.col_lows@ == klines@.map_values(|k: Kline| k.low),
            r.col_closes@ == klines@.map_values(|k: Kline| k.close),
            r.col_volumes@ == klines@.map_values(|k: Kline| k.volume_quote),
    {
        let mut r = RelevantHistoricalData {
            col_open_times: Vec::new(),
            col_opens: Vec::new(),
            col_highs: Vec::new(),
            col_lows: Vec::new(),
            col_closes: Vec::new(),
            col_volumes: Vec::new(),
        };
        let mut i: usize = 0;
        while i < klines.len()
            invariant
                i <= klines@.len(),
                r.col_open_times@ == klines@.take(i as int).map_values(|k: Kline| k.open_time),
                r.col_opens@ == klines@.take(i as int).map_values(|k: Kline| k.open),
                r.col_highs@ == klines@.take(i as int).map_values(|k: Kline| k.high),
                r.col_lows@ == klines@.take(i as int).map_values(|k: Kline| k.low),
                r.col_closes@ == klines@.take(i as int).map_values(|k: Kline| k.close),
                r.col_volumes@ == klines@.take(i as int).map_values(|k: Kline| k.volume_quote),
            decreases klines@.len() - i,
        {
            let k = klines[i];
            r.col_open_times.push(k.open_time);
            r.col_opens.push(k.open);
            r.col_highs.push(k.high);
            r.col_lows.push(k.low);
            r.col_closes.push(k.close);
            r.col_volumes.push(k.volume_quote);
            assert(r.col_open_times@ =~= klines@.take(i + 1).map_values(|k: Kline| k.open_time));
            assert(r.col_opens@ =~= klines@.take(i + 1).map_values(|k: Kline| k.open));
            assert(r.col_highs@ =~= klines@.take(i + 1).map_values(|k: Kline| k.high));
            assert(r.col_lows@ =~= klines@.take(i + 1).map_values(|k: Kline| k.low));
            assert(r.col_closes@ =~= klines@.take(i + 1).map_values(|k: Kline| k.close));
            assert(r.col_volumes@ =~= klines@.take(i + 1).map_values(
                |k: Kline| k.volume_quote,
            ));
            i = i + 1;
        }
        assert(klines@.take(klines@.len() as int) =~= klines@);
        r
    }
}

} // verus!
