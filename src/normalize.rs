use vstd::prelude::*;
use crate::batch::{Batch, Kline, RelevantHistoricalData, RunError, find_series, series_view};

verus! {

/// A price series relative to its first observation: the log-ratio of point
/// `k` is `ln(values[k] / base)`, kept as the exact ratio it is taken of.
pub struct NormalizedSeries {
    pub base: u64,
    pub values: Vec<u64>,
}

/// Point `k` of `s` has log-ratio exactly zero: its ratio to the base is one.
pub open spec fn log_ratio_is_zero(base: u64, values: Seq<u64>, k: int) -> bool {
    values[k] == base
}

/// The normalized form of each raw series that has a usable first
/// observation (present and positive), in the raw order.
pub open spec fn normalized(raw: Seq<(Seq<char>, Seq<u64>)>) -> Seq<(Seq<char>, u64, Seq<u64>)>
    decreases raw.len(),
{
    if raw.len() == 0 {
        seq![]
    } else {
        let rest = normalized(raw.drop_last());
        let (name, v) = raw.last();
        if v.len() > 0 && v[0] > 0 {
            rest.push((name, v[0], v))
        } else {
            rest
        }
    }
}

pub open spec fn norm_view(s: Seq<(String, NormalizedSeries)>) -> Seq<(Seq<char>, u64, Seq<u64>)> {
    s.map_values(|e: (String, NormalizedSeries)| (e.0@, e.1.base, e.1.values@))
}

pub open spec fn raw_view(s: Seq<(String, Vec<u64>)>) -> Seq<(Seq<char>, Seq<u64>)> {
    s.map_values(|e: (String, Vec<u64>)| (e.0@, e.1@))
}

/// Every normalized series is non-empty, has a positive base, and starts at
/// log-ratio zero.
pub open spec fn well_formed(s: Seq<(String, NormalizedSeries)>) -> bool {
    forall|k: int|
        0 <= k < s.len() ==> {
            let e = #[trigger] s[k];
            &&& e.1.values@.len() > 0
            &&& e.1.base > 0
            &&& log_ratio_is_zero(e.1.base, e.1.values@, 0)
        }
}

fn copy_values(v: &Vec<u64>) -> (r: Vec<u64>)
    ensures
        r@ == v@,
{
    let mut r: Vec<u64> = Vec::new();
    let mut i: usize = 0;
    while i < v.len()
        invariant
            i <= v@.len(),
            r@ == v@.take(i as int),
        decreases v@.len() - i,
    {
        r.push(v[i]);
        assert(r@ =~= v@.take(i + 1));
        i = i + 1;
    }
    assert(v@.take(v@.len() as int) =~= v@);
    r
}

/// Turns each raw series into its ratio-to-first form; a series that is empty
/// or whose first observation is zero is left out.
pub fn normalize(raw: &Vec<(String, Vec<u64>)>) -> (r: Vec<(String, NormalizedSeries)>)
    ensures
        norm_view(r@) == normalized(raw_view(raw@)),
        well_formed(r@),
{
    let mut r: Vec<(String, NormalizedSeries)> = Vec::new();
    let mut i: usize = 0;
    while i < raw.len()
        invariant
            i <= raw@.len(),
            norm_view(r@) == normalized(raw_view(raw@).take(i as int)),
            well_formed(r@),
        decreases raw@.len() - i,
    {
        let ghost rv = raw_view(raw@);
        assert(rv.take(i + 1).drop_last() =~= rv.take(i as int));
        assert(rv.take(i + 1).last() == (raw@[i as int].0@, raw@[i as int].1@));
        let v = &raw[i].1;
        if v.len() > 0 && v[0] > 0 {
            let name = raw[i].0.clone();
            let values = copy_values(v);
            let ghost before = r@;
            r.push((name, NormalizedSeries { base: v[0], values }));
            assert(norm_view(r@) =~= norm_view(before).push((raw@[i as int].0@, v@[0], v@)));
            assert forall|k: int| 0 <= k < r@.len() implies {
                let e = #[trigger] r@[k];
                &&& e.1.values@.len() > 0
                &&& e.1.base > 0
                &&& log_ratio_is_zero(e.1.base, e.1.values@, 0)
            } by {
                if k < before.len() {
                    assert(r@[k] == before[k]);
                }
            }
        }
        i = i + 1;
    }
    assert(raw_view(raw@).take(raw@.len() as int) =~= raw_view(raw@));
    r
}

/// `a` lists, in increasing order, exactly the positions of `normalized`
/// whose series has length `ref_len`.
pub open spec fn is_alignment(
    normalized: Seq<(String, NormalizedSeries)>,
    ref_len: nat,
    a: Seq<usize>,
) -> bool {
    &&& forall|k: int| 0 <= k < a.len() ==> (#[trigger] a[k]) < normalized.len()
    &&& forall|k: int| 0 <= k < a.len() ==> normalized[#[trigger] a[k] as int].1.values@.len() == ref_len
    &&& forall|x: int, y: int| 0 <= x < y < a.len() ==> #[trigger] a[x] < #[trigger] a[y]
    &&& forall|j: int|
        0 <= j < normalized.len() && normalized[j].1.values@.len() == ref_len ==> a.contains(j as usize)
}

/// The positions of the normalized series whose length equals the reference
/// index's: the ones that can be drawn against the shared time axis.
pub fn align(normalized: &Vec<(String, NormalizedSeries)>, ref_len: usize) -> (r: Vec<usize>)
    ensures
        is_alignment(normalized@, ref_len as nat, r@),
{
    let mut r: Vec<usize> = Vec::new();
    let mut i: usize = 0;
    while i < normalized.len()
        invariant
            i <= normalized@.len(),
            forall|k: int| 0 <= k < r@.len() ==> (#[trigger] r@[k]) < i,
            forall|k: int|
                0 <= k < r@.len() ==> normalized@[#[trigger] r@[k] as int].1.values@.len()
                    == ref_len,
            forall|a: int, b: int| 0 <= a < b < r@.len() ==> #[trigger] r@[a] < #[trigger] r@[b],
            forall|j: int|
                0 <= j < i && normalized@[j].1.values@.len() == ref_len ==> r@.contains(j as usize),
        decreases normalized@.len() - i,
    {
        if normalized[i].1.values.len() == ref_len {
            let ghost before = r@;
            r.push(i);
            assert forall|j: int|
                0 <= j < i + 1 && normalized@[j].1.values@.len() == ref_len implies r@.contains(
                j as usize,
            ) by {
                if j < i {
                    let k = choose|k: int| 0 <= k < before.len() && before[k] == j as usize;
                    assert(r@[k] == j as usize);
                } else {
                    assert(r@[before.len() as int] == i);
                }
            }
        }
        i = i + 1;
    }
    r
}

/// The closing prices of each series of a batch.
pub open spec fn closes_view(s: Seq<(Seq<char>, Seq<Kline>)>) -> Seq<(Seq<char>, Seq<u64>)> {
    s.map_values(|e: (Seq<char>, Seq<Kline>)| (e.0, e.1.map_values(|k: Kline| k.close)))
}

/// Whether the reference instrument is among a batch's series.
pub open spec fn has_series(s: Seq<(Seq<char>, Seq<Kline>)>, name: Seq<char>) -> bool {
    exists|j: int| 0 <= j < s.len() && (#[trigger] s[j]).0 == name
}

/// Normalizes the closes of a batch of bars, and takes the open times of the
/// reference instrument's bars as the reference time index.
pub fn collect_data(batch: &Batch<Kline>, reference: &String) -> (r: Result<
    (Vec<(String, NormalizedSeries)>, Vec<i64>),
    RunError,
>)
    requires
        batch.well_formed(),
    ensures
        r is Err <==> !has_series(series_view(batch.series@), reference@),
        r is Err ==> r == Err::<(Vec<(String, NormalizedSeries)>, Vec<i64>), RunError>(
            RunError::ReferenceUnavailable,
        ),
        r matches Ok((n, dt)) ==> {
            &&& norm_view(n@) == normalized(closes_view(series_view(batch.series@)))
            &&& well_formed(n@)
            &&& dt@.len() > 0
            &&& exists|j: int|
                0 <= j < batch.series@.len() && (#[trigger] batch.series@[j]).0@ == reference@
                    && dt@ == batch.series@[j].1@.map_values(|k: Kline| k.open_time)
        },
{
    let series = &batch.series;
    let mut raw: Vec<(String, Vec<u64>)> = Vec::new();
    let mut i: usize = 0;
    while i < series.len()
        invariant
            i <= series@.len(),
            raw_view(raw@) == closes_view(series_view(series@)).take(i as int),
        decreases series@.len() - i,
    {
        let cols = RelevantHistoricalData::from_klines(&series[i].1);
        let ghost before = raw@;
        let name = series[i].0.clone();
        assert(name@ == series@[i as int].0@);
        let ghost entry = (name@, cols.col_closes@);
        raw.push((name, cols.col_closes));
        assert(raw_view(raw@) =~= raw_view(before).push(entry));
        assert(closes_view(series_view(series@))[i as int] == entry);
        assert(raw_view(raw@) =~= closes_view(series_view(series@)).take(i + 1));
        i = i + 1;
    }
    assert(closes_view(series_view(series@)).take(series@.len() as int) =~= closes_view(
        series_view(series@),
    ));
    match find_series(series, reference) {
        None => {
            assert(!has_series(series_view(series@), reference@)) by {
                if has_series(series_view(series@), reference@) {
                    let j = choose|j: int|
                        0 <= j < series_view(series@).len() && (#[trigger] series_view(
                            series@,
                        )[j]).0 == reference@;
                    assert(series@[j].0@ == reference@);
                }
            }
            Err(RunError::ReferenceUnavailable)
        },
        Some(j) => {
            let cols = RelevantHistoricalData::from_klines(&series[j].1);
            let dt = cols.col_open_times;
            if dt.len() == 0 {
                assert(series_view(series@)[j as int].0 == reference@);
                return Err(RunError::ReferenceUnavailable);
            }
            assert(series_view(series@)[j as int].0 == reference@);
            let n = normalize(&raw);
            Ok((n, dt))
        },
    }
}

} // verus!
