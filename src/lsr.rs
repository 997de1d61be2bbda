use vstd::prelude::*;
use crate::rank::{Score, score_le, is_ranking, rank, fixed_count, fixed_count_spec};
use crate::text::{dec, digit_char, digit_str, repeat, pad_right, decimal, append_repeat, pad_right_exec};

verus! {

/// Number of extremes shown on each side of the text report.
pub const SLICE_SIZE: usize = 10;

/// Parts per million: a long share of one.
pub const PPM: u64 = 1_000_000;

/// One instrument's long/short summary: its latest long share, in parts per
/// million, and its ready-formatted report cell.
pub struct LsrEntry {
    pub pair: String,
    pub long_ppm: u64,
    pub cell: String,
}

/// The ranking key of an entry: its long share.
pub open spec fn long_score(e: LsrEntry) -> Score {
    Score { num: e.long_ppm, den: PPM }
}

pub open spec fn long_scores(v: Seq<LsrEntry>) -> Seq<Score> {
    v.map_values(|e: LsrEntry| long_score(e))
}

/// Every long share is at most one.
pub open spec fn shares_valid(v: Seq<LsrEntry>) -> bool {
    forall|k: int| 0 <= k < v.len() ==> (#[trigger] v[k]).long_ppm <= PPM
}

/// Error of a report row for which there is no pair of extremes.
#[derive(Clone, Copy, Debug, PartialEq, Eq, Structural)]
pub struct InsufficientDataForRow {
    pub row: usize,
    pub available: usize,
}

/// Row `i` has no pair of extremes among `n` entries.
pub open spec fn row_unavailable(n: nat, i: nat) -> bool {
    n < 2 * i || i >= n
}

/// Row `i`: the `i`-th lowest entry's cell, then the `i`-th highest's.
pub open spec fn row_text(e: Seq<LsrEntry>, i: int) -> Seq<char> {
    e[i].cell@ + e[e.len() - 1 - i].cell@
}

pub open spec fn header_text(width: nat) -> Seq<char> {
    pad_right("Most Shorted (% longs)"@, width) + pad_right("Most Longed (% longs)"@, width)
}

/// The header and the first `k` rows, one per line.
pub open spec fn rows_text(e: Seq<LsrEntry>, k: nat, width: nat) -> Seq<char>
    decreases k,
{
    if k == 0 {
        seq![]
    } else if k == 1 {
        header_text(width) + row_text(e, 0)
    } else {
        rows_text(e, (k - 1) as nat, width) + "\n"@ + row_text(e, k - 1)
    }
}

pub open spec fn sum_ppm(e: Seq<LsrEntry>) -> nat
    decreases e.len(),
{
    if e.len() == 0 {
        0
    } else {
        (sum_ppm(e.drop_last()) + e.last().long_ppm) as nat
    }
}

/// The mean long share in hundredths, rounded half up.
pub open spec fn mean_hundredths(e: Seq<LsrEntry>) -> nat {
    ((sum_ppm(e) + e.len() * 5_000) / (e.len() * 10_000)) as nat
}

/// The mean long share to two decimals; `NaN` when there is nothing to average.
pub open spec fn average_text(e: Seq<LsrEntry>) -> Seq<char> {
    if e.len() == 0 {
        "NaN"@
    } else {
        let h = mean_hundredths(e);
        dec(h / 100) + "."@ + seq![digit_char((h % 100) / 10), digit_char(h % 10)]
    }
}

/// The whole text report over ranked entries.
pub open spec fn report_text(e: Seq<LsrEntry>, pairs_len: nat, market: Seq<char>, width: nat) -> Seq<
    char,
> {
    rows_text(e, fixed_count_spec(e.len(), SLICE_SIZE as nat), width) + "\n"@ + repeat('-', width)
        + "\nAverage: "@ + average_text(e) + "\nCollected for "@ + dec(e.len()) + "/"@ + dec(
        pairs_len,
    ) + " pairs on "@ + market
}

fn copy_entry(e: &LsrEntry) -> (r: LsrEntry)
    ensures
        r == *e,
{
    LsrEntry { pair: e.pair.clone(), long_ppm: e.long_ppm, cell: e.cell.clone() }
}

proof fn lemma_same_den_le(a: u64, b: u64)
    ensures
        score_le(Score { num: a, den: PPM }, Score { num: b, den: PPM }) <==> a <= b,
{
    assert(a as int * PPM as int <= b as int * PPM as int <==> a <= b) by (nonlinear_arith);
}

/// Entries ranked ascending by long share; ties keep their input order.
pub struct SortedLsrs {
    v: Vec<LsrEntry>,
}

impl SortedLsrs {
    pub closed spec fn entries(&self) -> Seq<LsrEntry> {
        self.v@
    }

    #[verifier::type_invariant]
    spec fn inv(self) -> bool {
        &&& shares_valid(self.v@)
        &&& forall|a: int, b: int|
            0 <= a < b < self.v@.len() ==> (#[trigger] self.v@[a]).long_ppm
                <= (#[trigger] self.v@[b]).long_ppm
    }

    /// Ranks the entries by long share.
    pub fn build(v: Vec<LsrEntry>) -> (r: SortedLsrs)
        requires
            shares_valid(v@),
        ensures
            r.entries().len() == v@.len(),
            exists|o: Seq<usize>|
                is_ranking(long_scores(v@), o) && forall|k: int|
                    0 <= k < o.len() ==> #[trigger] r.entries()[k] == v@[o[k] as int],
    {
        let mut scores: Vec<Score> = Vec::new();
        let mut i: usize = 0;
        while i < v.len()
            invariant
                i <= v@.len(),
                scores@ == long_scores(v@).take(i as int),
            decreases v@.len() - i,
        {
            scores.push(Score { num: v[i].long_ppm, den: PPM });
            assert(scores@ =~= long_scores(v@).take(i + 1));
            i = i + 1;
        }
        assert(long_scores(v@).take(v@.len() as int) =~= long_scores(v@));
        let order = rank(&scores);
        let mut out: Vec<LsrEntry> = Vec::new();
        let mut j: usize = 0;
        while j < order.len()
            invariant
                is_ranking(long_scores(v@), order@),
                order@.len() == v@.len(),
                shares_valid(v@),
                j <= order@.len(),
                out@.len() == j,
                forall|k: int| 0 <= k < j ==> #[trigger] out@[k] == v@[order@[k] as int],
            decreases order@.len() - j,
        {
            out.push(copy_entry(&v[order[j]]));
            j = j + 1;
        }
        proof {
            assert forall|a: int, b: int| 0 <= a < b < out@.len() implies (#[trigger] out@[a]).long_ppm
                <= (#[trigger] out@[b]).long_ppm by {
                let (x, y) = (v@[order@[a] as int], v@[order@[b] as int]);
                assert(score_le(long_scores(v@)[order@[a] as int], long_scores(v@)[order@[b] as int]));
                lemma_same_den_le(x.long_ppm, y.long_ppm);
            }
            assert forall|k: int| 0 <= k < out@.len() implies (#[trigger] out@[k]).long_ppm <= PPM by {
                assert(v@[order@[k] as int].long_ppm <= PPM);
            }
        }
        SortedLsrs { v: out }
    }

    pub fn len(&self) -> (r: usize)
        ensures
            r == self.entries().len(),
    {
        self.v.len()
    }

    fn row(&self, i: usize) -> (r: String)
        requires
            !row_unavailable(self.entries().len(), i as nat),
        ensures
            r@ == row_text(self.entries(), i as int),
    {
        let n = self.v.len();
        let mut s = self.v[i].cell.clone();
        s.append(self.v[n - i - 1].cell.as_str());
        s
    }

    /// The `i`-th most shorted and `i`-th most longed cells side by side.
    pub fn display_most_shorted_longed_row(&self, i: usize) -> (r: Result<String, InsufficientDataForRow>)
        ensures
            r is Err <==> row_unavailable(self.entries().len(), i as nat),
            r matches Ok(s) ==> s@ == row_text(self.entries(), i as int),
            r matches Err(e) ==> e == (InsufficientDataForRow { row: i, available: self.entries().len() as usize }),
    {
        let n = self.v.len();
        if n / 2 < i || i >= n {
            return Err(InsufficientDataForRow { row: i, available: n });
        }
        Ok(self.row(i))
    }

    /// The `min(k, n / 2)` (lowest, highest) pairs of instruments, from the
    /// outermost inwards.
    pub fn extreme_pairs(&self, k: usize) -> (r: Vec<(String, String)>)
        ensures
            r@.len() == fixed_count_spec(self.entries().len(), k as nat),
            forall|i: int|
                0 <= i < r@.len() ==> (#[trigger] r@[i]).0@ == self.entries()[i].pair@ && r@[i].1@
                    == self.entries()[self.entries().len() - 1 - i].pair@,
    {
        let n = self.v.len();
        let c = fixed_count(n, k);
        let mut r: Vec<(String, String)> = Vec::new();
        let mut i: usize = 0;
        while i < c
            invariant
                n == self.v@.len(),
                2 * c <= n,
                c == fixed_count_spec(n as nat, k as nat),
                i <= c,
                r@.len() == i,
                forall|j: int|
                    0 <= j < i ==> (#[trigger] r@[j]).0@ == self.v@[j].pair@ && r@[j].1@
                        == self.v@[n - 1 - j].pair@,
            decreases c - i,
        {
            r.push((self.v[i].pair.clone(), self.v[n - 1 - i].pair.clone()));
            i = i + 1;
        }
        r
    }

    /// The mean long share, to two decimals.
    pub fn average(&self) -> (r: String)
        ensures
            r@ == average_text(self.entries()),
    {
        proof {
            use_type_invariant(self);
            reveal_strlit("NaN");
            reveal_strlit(".");
        }
        let n = self.v.len();
        if n == 0 {
            return String::from_str("NaN");
        }
        let mut sum: u128 = 0;
        let mut i: usize = 0;
        while i < n
            invariant
                n == self.v@.len(),
                shares_valid(self.v@),
                i <= n,
                sum == sum_ppm(self.v@.take(i as int)),
                sum <= i * PPM,
            decreases n - i,
        {
            assert(self.v@.take(i + 1).drop_last() =~= self.v@.take(i as int));
            assert(self.v@[i as int].long_ppm <= PPM);
            proof {
                assert((i + 1) * PPM <= n * PPM) by (nonlinear_arith)
                    requires
                        i + 1 <= n,
                ;
                assert(n * PPM <= u64::MAX as int * 1_000_000) by (nonlinear_arith)
                    requires
                        n <= u64::MAX,
                ;
            }
            sum = sum + self.v[i].long_ppm as u128;
            i = i + 1;
        }
        assert(self.v@.take(n as int) =~= self.v@);
        let h: u128 = (sum + (n as u128) * 5_000) / ((n as u128) * 10_000);
        let mut s = decimal(h / 100);
        s.append(".");
        s.append(digit_str(((h % 100) / 10) as u64));
        s.append(digit_str((h % 10) as u64));
        s
    }
}

/// The text report: header, up to `SLICE_SIZE` rows of extremes, a rule, the
/// mean long share and how many of the market's `pairs_len` instruments were
/// collected.
pub fn format_report(sorted: &SortedLsrs, pairs_len: usize, market: &str, width: usize) -> (r: String)
    ensures
        r@ == report_text(sorted.entries(), pairs_len as nat, market@, width as nat),
{
    let n = sorted.len();
    let rows = fixed_count(n, SLICE_SIZE);
    let mut s = String::new();
    let mut i: usize = 0;
    while i < rows
        invariant
            n == sorted.entries().len(),
            rows == fixed_count_spec(n as nat, SLICE_SIZE as nat),
            2 * rows <= n,
            i <= rows,
            s@ == rows_text(sorted.entries(), i as nat, width as nat),
        decreases rows - i,
    {
        if i == 0 {
            let h1 = pad_right_exec("Most Shorted (% longs)", width);
            let h2 = pad_right_exec("Most Longed (% longs)", width);
            s.append(h1.as_str());
            s.append(h2.as_str());
        } else {
            s.append("\n");
        }
        let row = sorted.row(i);
        s.append(row.as_str());
        proof {
            if i == 0 {
                assert(s@ =~= rows_text(sorted.entries(), 1, width as nat));
            } else {
                assert(s@ =~= rows_text(sorted.entries(), (i + 1) as nat, width as nat));
            }
        }
        i = i + 1;
    }
    s.append("\n");
    proof {
        reveal_strlit("-");
    }
    append_repeat(&mut s, "-", width);
    s.append("\nAverage: ");
    let avg = sorted.average();
    s.append(avg.as_str());
    s.append("\nCollected for ");
    let c = decimal(n as u128);
    s.append(c.as_str());
    s.append("/");
    let t = decimal(pairs_len as u128);
    s.append(t.as_str());
    s.append(" pairs on ");
    s.append(market);
    assert(s@ =~= report_text(sorted.entries(), pairs_len as nat, market@, width as nat));
    s
}

/// Report entries from the series of a batch: each instrument's latest long
/// share, with the cell formatted for it (`cells[k]` for `series[k]`).
pub fn lsr_entries(series: &Vec<(String, Vec<u64>)>, cells: &Vec<String>) -> (r: Vec<LsrEntry>)
    requires
        cells@.len() == series@.len(),
        forall|k: int| 0 <= k < series@.len() ==> (#[trigger] series@[k]).1@.len() > 0,
        forall|k: int, j: int|
            0 <= k < series@.len() && 0 <= j < series@[k].1@.len() ==> #[trigger] series@[k].1@[j]
                <= PPM,
    ensures
        r@.len() == series@.len(),
        shares_valid(r@),
        forall|k: int|
            0 <= k < r@.len() ==> {
                let e = #[trigger] r@[k];
                &&& e.pair@ == series@[k].0@
                &&& e.long_ppm == series@[k].1@.last()
                &&& e.cell@ == cells@[k]@
            },
{
    let mut r: Vec<LsrEntry> = Vec::new();
    let mut i: usize = 0;
    while i < series.len()
        invariant
            i <= series@.len(),
            cells@.len() == series@.len(),
            forall|k: int| 0 <= k < series@.len() ==> (#[trigger] series@[k]).1@.len() > 0,
            forall|k: int, j: int|
                0 <= k < series@.len() && 0 <= j < series@[k].1@.len() ==> #[trigger] series@[k].1@[j]
                    <= PPM,
            r@.len() == i,
            shares_valid(r@),
            forall|k: int|
                0 <= k < i ==> {
                    let e = #[trigger] r@[k];
                    &&& e.pair@ == series@[k].0@
                    &&& e.long_ppm == series@[k].1@.last()
                    &&& e.cell@ == cells@[k]@
                },
        decreases series@.len() - i,
    {
        let samples = &series[i].1;
        let last = samples[samples.len() - 1];
        assert(series@[i as int].1@[samples@.len() - 1] <= PPM);
        r.push(LsrEntry { pair: series[i].0.clone(), long_ppm: last, cell: cells[i].clone() });
        i = i + 1;
    }
    r
}

/// Every row index below `min(k, n / 2)` has its pair of extremes among `n`
/// entries: the fixed-count selection never reaches past either end.
pub proof fn lemma_fixed_rows_available(n: nat, k: nat, i: nat)
    requires
        i < fixed_count_spec(n, k),
    ensures
        !row_unavailable(n, i),
        i < n,
        n - 1 - i < n,
        i <= n - 1 - i,
{
}

} // verus!
