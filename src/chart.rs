use vstd::prelude::*;
use crate::batch::{Batch, Kline, RunError, series_view};
use crate::normalize::{
    NormalizedSeries, align, closes_view, collect_data, is_alignment, norm_view, normalized,
    well_formed,
};
use crate::rank::{Score, is_ranking, rank, log_count, rounds_ln_to, select_extremes};
use crate::text::{dec, decimal};

verus! {

/// Milliseconds in an hour.
pub const HOUR_MS: i64 = 3_600_000;

/// Largest timestamp magnitude (milliseconds) that the chart accepts: about
/// 253,000 years either side of 1970, inside the calendar's range.
pub const MAX_MS: i64 = 8_000_000_000_000_000;

/// The RFC 3339 rendering of a UTC instant given in milliseconds.
pub uninterp spec fn rfc3339_of(ms: int) -> Seq<char>;

/// Relies on chrono's `DateTime::<Utc>::to_rfc3339`, reached through
/// `DateTime::from_timestamp_millis`, which is `Some` for every instant within
/// chrono's years of +-262,142.
#[verifier::external_body]
fn rfc3339(ms: i64) -> (r: Option<String>)
    ensures
        r matches Some(s) ==> s@ == rfc3339_of(ms as int),
        -MAX_MS <= ms <= MAX_MS ==> r is Some,
{
    chrono::DateTime::<chrono::Utc>::from_timestamp_millis(ms).map(|d| d.to_rfc3339())
}

/// `s` with every occurrence of `pat` removed, matching left to right
/// without overlap.
pub open spec fn remove_all(s: Seq<char>, pat: Seq<char>) -> Seq<char>
    decreases s.len(),
{
    if pat.len() == 0 || s.len() < pat.len() {
        s
    } else if s.take(pat.len() as int) == pat {
        remove_all(s.skip(pat.len() as int), pat)
    } else {
        seq![s[0]] + remove_all(s.skip(1), pat)
    }
}

fn matches_at(s: &str, i: usize, pat: &str) -> (r: bool)
    requires
        i + pat@.len() <= s@.len(),
    ensures
        r == (s@.skip(i as int).take(pat@.len() as int) == pat@),
{
    let n = s.unicode_len();
    let m = pat.unicode_len();
    let mut j: usize = 0;
    while j < m
        invariant
            n == s@.len(),
            m == pat@.len(),
            i + m <= s@.len(),
            j <= m,
            forall|k: int| 0 <= k < j ==> s@[i + k] == pat@[k],
        decreases m - j,
    {
        if s.get_char(i + j) != pat.get_char(j) {
            assert(s@.skip(i as int).take(m as int)[j as int] != pat@[j as int]);
            return false;
        }
        j = j + 1;
    }
    assert(s@.skip(i as int).take(m as int) =~= pat@);
    true
}

/// Removes every occurrence of `pat` from `s`.
pub fn remove_all_exec(s: &str, pat: &str) -> (r: String)
    ensures
        r@ == remove_all(s@, pat@),
{
    let n = s.unicode_len();
    let m = pat.unicode_len();
    if m == 0 {
        return String::from_str(s);
    }
    let mut out = String::new();
    let mut i: usize = 0;
    assert(s@.skip(0) =~= s@);
    while i < n
        invariant
            n == s@.len(),
            m == pat@.len(),
            m > 0,
            i <= n,
            out@ + remove_all(s@.skip(i as int), pat@) == remove_all(s@, pat@),
        decreases n - i,
    {
        let ghost rest = s@.skip(i as int);
        if n - i < m {
            out.append(s.substring_char(i, n));
            assert(s@.subrange(i as int, n as int) =~= rest);
            assert(s@.skip(n as int) =~= seq![]);
            i = n;
        } else if matches_at(s, i, pat) {
            assert(rest.skip(m as int) =~= s@.skip(i + m));
            i = i + m;
        } else {
            let ghost before = out@;
            out.append(s.substring_char(i, i + 1));
            assert(s@.subrange(i as int, i + 1) =~= seq![rest[0]]);
            assert(rest.skip(1) =~= s@.skip(i + 1));
            assert(out@ + remove_all(s@.skip(i + 1), pat@) =~= before + remove_all(rest, pat@));
            i = i + 1;
        }
    }
    assert(s@.skip(n as int) =~= seq![]);
    assert(out@ + remove_all(s@.skip(n as int), pat@) =~= out@);
    out
}

/// How a trace is drawn.
#[derive(Clone, Copy, Debug, PartialEq, Eq, Structural)]
pub enum TraceStyle {
    /// Thin, neutral, unlabeled: shown for context only.
    Context,
    /// Thicker and labeled in the legend: one of the extremes.
    Extreme,
    /// The reference instrument, in its own color.
    Reference,
}

/// One line of the chart: which normalized series, how, and its legend symbol.
pub struct TracePlan {
    pub series: usize,
    pub style: TraceStyle,
    pub label: Option<String>,
}

/// What the chart shows.
pub struct ChartPlan {
    pub title: String,
    pub x_labels: Vec<String>,
    pub traces: Vec<TracePlan>,
}

/// The instrument's symbol: its name without the four-character quote
/// currency, and without any `1000` multiplier prefix.
pub open spec fn symbol_spec(name: Seq<char>) -> Seq<char> {
    remove_all(
        if name.len() >= 4 {
            name.take(name.len() - 4)
        } else {
            name
        },
        "1000"@,
    )
}

pub open spec fn label_for(style: TraceStyle, name: Seq<char>) -> Option<Seq<char>> {
    match style {
        TraceStyle::Context => None,
        TraceStyle::Extreme => Some(symbol_spec(name)),
        TraceStyle::Reference => Some("~"@ + symbol_spec(name) + "~"@),
    }
}

pub open spec fn opt_view(l: Option<String>) -> Option<Seq<char>> {
    match l {
        Some(s) => Some(s@),
        None => None,
    }
}

/// Each trace names a series of `normalized` and carries the label its style calls for.
pub open spec fn labels_ok(t: Seq<TracePlan>, normalized: Seq<(String, NormalizedSeries)>) -> bool {
    forall|k: int|
        0 <= k < t.len() ==> (#[trigger] t[k]).series < normalized.len() && opt_view(t[k].label)
            == label_for(t[k].style, normalized[t[k].series as int].0@)
}

pub open spec fn plan_view(t: Seq<TracePlan>) -> Seq<(usize, TraceStyle)> {
    t.map_values(|p: TracePlan| (p.series, p.style))
}

pub open spec fn positions(n: nat) -> Seq<usize> {
    Seq::new(n, |p: int| p as usize)
}

/// The aligned positions drawn for context: neither the reference nor an extreme.
pub open spec fn context_positions(
    names: Seq<Seq<char>>,
    reference: Seq<char>,
    lowest: Seq<usize>,
    highest: Seq<usize>,
) -> Seq<usize> {
    positions(names.len()).filter(context_pred(names, reference, lowest, highest))
}

pub open spec fn context_pred(
    names: Seq<Seq<char>>,
    reference: Seq<char>,
    lowest: Seq<usize>,
    highest: Seq<usize>,
) -> spec_fn(usize) -> bool {
    |p: usize| names[p as int] != reference && !lowest.contains(p) && !highest.contains(p)
}

pub open spec fn is_reference(names: Seq<Seq<char>>, reference: Seq<char>) -> spec_fn(usize) -> bool {
    |p: usize| names[p as int] == reference
}

pub open spec fn not_reference(names: Seq<Seq<char>>, reference: Seq<char>) -> spec_fn(usize) -> bool {
    |p: usize| names[p as int] != reference
}

/// The aligned positions that hold the reference instrument.
pub open spec fn reference_positions(names: Seq<Seq<char>>, reference: Seq<char>) -> Seq<usize> {
    positions(names.len()).filter(is_reference(names, reference))
}

pub open spec fn styled(ps: Seq<usize>, aligned: Seq<usize>, style: TraceStyle) -> Seq<(usize, TraceStyle)> {
    ps.map_values(|p: usize| (aligned[p as int], style))
}

pub open spec fn reversed(s: Seq<usize>) -> Seq<usize> {
    Seq::new(s.len(), |k: int| s[s.len() - 1 - k])
}

/// The extremes among `s` that are drawn as such: the reference instrument,
/// when it is one of them, is drawn once, in its own style.
pub open spec fn shown(names: Seq<Seq<char>>, reference: Seq<char>, s: Seq<usize>) -> Seq<usize> {
    s.filter(not_reference(names, reference))
}

/// The aligned positions in drawing order: context, the highest from the top
/// down, the reference, then the lowest from the innermost out.
pub open spec fn planned_positions(
    names: Seq<Seq<char>>,
    reference: Seq<char>,
    lowest: Seq<usize>,
    highest: Seq<usize>,
) -> Seq<usize> {
    context_positions(names, reference, lowest, highest) + shown(names, reference, highest)
        + reference_positions(names, reference) + reversed(shown(names, reference, lowest))
}

/// The traces in drawing order, with their styles.
pub open spec fn planned(
    aligned: Seq<usize>,
    names: Seq<Seq<char>>,
    reference: Seq<char>,
    lowest: Seq<usize>,
    highest: Seq<usize>,
) -> Seq<(usize, TraceStyle)> {
    styled(context_positions(names, reference, lowest, highest), aligned, TraceStyle::Context)
        + styled(shown(names, reference, highest), aligned, TraceStyle::Extreme) + styled(
        reference_positions(names, reference),
        aligned,
        TraceStyle::Reference,
    ) + styled(reversed(shown(names, reference, lowest)), aligned, TraceStyle::Extreme)
}

pub open spec fn series_of(t: Seq<TracePlan>) -> Seq<usize> {
    t.map_values(|p: TracePlan| p.series)
}

/// Every aligned series is drawn by exactly one trace, and nothing else is drawn.
pub open spec fn each_once(t: Seq<TracePlan>, aligned: Seq<usize>) -> bool {
    &&& forall|k: int| 0 <= k < t.len() ==> aligned.contains(#[trigger] t[k].series)
    &&& forall|p: int| 0 <= p < aligned.len() ==> series_of(t).contains(#[trigger] aligned[p])
    &&& forall|k1: int, k2: int|
        0 <= k1 < k2 < t.len() ==> #[trigger] t[k1].series != #[trigger] t[k2].series
}

proof fn lemma_concat_distinct(a: Seq<usize>, b: Seq<usize>)
    requires
        a.no_duplicates(),
        b.no_duplicates(),
        forall|x: usize| a.contains(x) ==> !b.contains(x),
    ensures
        (a + b).no_duplicates(),
        forall|x: usize| (a + b).contains(x) <==> a.contains(x) || b.contains(x),
{
    let ab = a + b;
    assert forall|i: int, j: int| 0 <= i < ab.len() && 0 <= j < ab.len() && i != j implies ab[i]
        != ab[j] by {
        if i < a.len() && j >= a.len() {
            assert(a.contains(ab[i]));
            assert(b[j - a.len()] == ab[j]);
        } else if j < a.len() && i >= a.len() {
            assert(a.contains(ab[j]));
            assert(b[i - a.len()] == ab[i]);
        } else if i >= a.len() {
            assert(ab[i] == b[i - a.len()] && ab[j] == b[j - a.len()]);
        }
    }
    assert forall|x: usize| ab.contains(x) <==> a.contains(x) || b.contains(x) by {
        if ab.contains(x) {
            let i = choose|i: int| 0 <= i < ab.len() && ab[i] == x;
            if i >= a.len() {
                assert(b[i - a.len()] == x);
            }
        }
        if a.contains(x) {
            let i = choose|i: int| 0 <= i < a.len() && a[i] == x;
            assert(ab[i] == x);
        }
        if b.contains(x) {
            let i = choose|i: int| 0 <= i < b.len() && b[i] == x;
            assert(ab[i + a.len()] == x);
        }
    }
}

proof fn lemma_reversed(s: Seq<usize>)
    ensures
        s.no_duplicates() ==> reversed(s).no_duplicates(),
        forall|x: usize| reversed(s).contains(x) <==> s.contains(x),
{
    let r = reversed(s);
    assert forall|x: usize| r.contains(x) <==> s.contains(x) by {
        if r.contains(x) {
            let i = choose|i: int| 0 <= i < r.len() && r[i] == x;
            assert(s[s.len() - 1 - i] == x);
        }
        if s.contains(x) {
            let i = choose|i: int| 0 <= i < s.len() && s[i] == x;
            assert(r[s.len() - 1 - i] == x);
        }
    }
}

proof fn lemma_increasing_distinct(s: Seq<usize>)
    requires
        forall|a: int, b: int| 0 <= a < b < s.len() ==> #[trigger] s[a] < #[trigger] s[b],
    ensures
        s.no_duplicates(),
{
    assert forall|i: int, j: int| 0 <= i < s.len() && 0 <= j < s.len() && i != j implies s[i]
        != s[j] by {
        if i < j {
            assert(s[i] < s[j]);
        } else {
            assert(s[j] < s[i]);
        }
    }
}

/// The planned positions list every aligned position exactly once.
proof fn lemma_each_position_once(
    names: Seq<Seq<char>>,
    reference: Seq<char>,
    lowest: Seq<usize>,
    highest: Seq<usize>,
)
    requires
        lowest.no_duplicates(),
        highest.no_duplicates(),
        forall|x: usize| lowest.contains(x) ==> !highest.contains(x),
        forall|k: int| 0 <= k < lowest.len() ==> (#[trigger] lowest[k]) < names.len(),
        forall|k: int| 0 <= k < highest.len() ==> (#[trigger] highest[k]) < names.len(),
        context_positions(names, reference, lowest, highest).no_duplicates(),
        reference_positions(names, reference).no_duplicates(),
        shown(names, reference, lowest).no_duplicates(),
        shown(names, reference, highest).no_duplicates(),
    ensures
        planned_positions(names, reference, lowest, highest).no_duplicates(),
        forall|k: int|
            0 <= k < planned_positions(names, reference, lowest, highest).len() ==> (
            #[trigger] planned_positions(names, reference, lowest, highest)[k]) < names.len(),
        forall|p: usize|
            p < names.len() ==> #[trigger] planned_positions(names, reference, lowest, highest).contains(p),
{
    let n = names.len();
    let all = positions(n);
    let ctx = context_positions(names, reference, lowest, highest);
    let refs = reference_positions(names, reference);
    let hi = shown(names, reference, highest);
    let lo = shown(names, reference, lowest);
    // what each part holds
    assert forall|x: usize| ctx.contains(x) implies x < n && names[x as int] != reference && !lowest.contains(x) && !highest.contains(x) by {
        let i = choose|i: int| 0 <= i < ctx.len() && ctx[i] == x;
        all.lemma_filter_pred(context_pred(names, reference, lowest, highest), i);
        all.lemma_filter_contains_rev(context_pred(names, reference, lowest, highest), x);
    }
    assert forall|x: usize| refs.contains(x) implies x < n && names[x as int] == reference by {
        let i = choose|i: int| 0 <= i < refs.len() && refs[i] == x;
        all.lemma_filter_pred(is_reference(names, reference), i);
        all.lemma_filter_contains_rev(is_reference(names, reference), x);
    }
    assert forall|x: usize| hi.contains(x) implies highest.contains(x) && names[x as int] != reference by {
        let i = choose|i: int| 0 <= i < hi.len() && hi[i] == x;
        highest.lemma_filter_pred(not_reference(names, reference), i);
        highest.lemma_filter_contains_rev(not_reference(names, reference), x);
    }
    assert forall|x: usize| lo.contains(x) implies lowest.contains(x) && names[x as int] != reference by {
        let i = choose|i: int| 0 <= i < lo.len() && lo[i] == x;
        lowest.lemma_filter_pred(not_reference(names, reference), i);
        lowest.lemma_filter_contains_rev(not_reference(names, reference), x);
    }
    lemma_reversed(lo);
    let rlo = reversed(lo);
    lemma_concat_distinct(ctx, hi);
    lemma_concat_distinct(ctx + hi, refs);
    lemma_concat_distinct(ctx + hi + refs, rlo);
    assert(planned_positions(names, reference, lowest, highest) == ctx + hi + refs + rlo);
    let ps = ctx + hi + refs + rlo;
    assert forall|k: int| 0 <= k < ps.len() implies (#[trigger] ps[k]) < n by {
        assert(ps.contains(ps[k]));
        let x = ps[k];
        if hi.contains(x) {
            let i = choose|i: int| 0 <= i < highest.len() && highest[i] == x;
        } else if rlo.contains(x) {
            let i = choose|i: int| 0 <= i < lowest.len() && lowest[i] == x;
        }
    }
    assert forall|x: usize| x < n implies #[trigger] ps.contains(x) by {
        let p = x as int;
        assert(all[p] == x);
        if names[p] == reference {
            all.lemma_filter_contains(is_reference(names, reference), p);
        } else if lowest.contains(x) {
            let i = choose|i: int| 0 <= i < lowest.len() && lowest[i] == x;
            lowest.lemma_filter_contains(not_reference(names, reference), i);
        } else if highest.contains(x) {
            let i = choose|i: int| 0 <= i < highest.len() && highest[i] == x;
            highest.lemma_filter_contains(not_reference(names, reference), i);
        } else {
            all.lemma_filter_contains(context_pred(names, reference, lowest, highest), p);
        }
    }
}

/// The score of a normalized series: its last value over its base.
pub open spec fn series_score(s: NormalizedSeries) -> Score {
    Score { num: s.values@.last(), den: s.base }
}

pub open spec fn aligned_scores(
    normalized: Seq<(String, NormalizedSeries)>,
    aligned: Seq<usize>,
) -> Seq<Score> {
    aligned.map_values(|j: usize| series_score(normalized[j as int].1))
}

pub open spec fn aligned_names(
    normalized: Seq<(String, NormalizedSeries)>,
    aligned: Seq<usize>,
) -> Seq<Seq<char>> {
    aligned.map_values(|j: usize| normalized[j as int].0@)
}

pub open spec fn abs(x: int) -> int {
    if x < 0 {
        -x
    } else {
        x
    }
}

/// Whole hours covered by the reference bars: their span plus one bar.
pub open spec fn window_hours(first: int, last: int, tf_ms: int) -> int {
    (abs(last - first) + tf_ms) / HOUR_MS as int
}

pub open spec fn title_text(hours: nat, collected: nat, universe: nat, market: Seq<char>) -> Seq<char> {
    "Last "@ + dec(hours) + "h of "@ + dec(collected) + "/"@ + dec(universe) + " pairs on "@ + market
}

pub open spec fn in_range(dt: Seq<i64>) -> bool {
    forall|k: int| 0 <= k < dt.len() ==> -MAX_MS <= #[trigger] dt[k] <= MAX_MS
}

/// `r` charts the aligned positions `aligned` of `normalized` against the
/// time index `dt`: titled with the window and the share of the universe
/// collected, one x label per instant, and traces in `planned` order, whose
/// extremes are the `round(ln(n))` lowest and highest of the `n` aligned scores.
pub open spec fn is_plan_of(
    r: ChartPlan,
    normalized: Seq<(String, NormalizedSeries)>,
    aligned: Seq<usize>,
    dt: Seq<i64>,
    tf_ms: int,
    market: Seq<char>,
    universe_len: nat,
    reference: Seq<char>,
) -> bool {
    &&& r.title@ == title_text(
        window_hours(dt[0] as int, dt.last() as int, tf_ms) as nat,
        normalized.len(),
        universe_len,
        market,
    )
    &&& r.x_labels@.len() == dt.len()
    &&& forall|k: int| 0 <= k < dt.len() ==> (#[trigger] r.x_labels@[k])@ == rfc3339_of(dt[k] as int)
    &&& traces_planned(r.traces@, normalized, aligned, reference)
}

/// `t` draws every aligned series once, labeled as its style calls for, in
/// `planned` order; the extremes are the `round(ln(n))` lowest and the
/// `round(ln(n))` highest of the `n` aligned scores.
pub open spec fn traces_planned(
    t: Seq<TracePlan>,
    normalized: Seq<(String, NormalizedSeries)>,
    aligned: Seq<usize>,
    reference: Seq<char>,
) -> bool {
    &&& labels_ok(t, normalized)
    &&& each_once(t, aligned)
    &&& exists|o: Seq<usize>, c: nat|
        is_ranking(aligned_scores(normalized, aligned), o) && rounds_ln_to(aligned.len(), c)
            && plan_view(t) == planned(
            aligned,
            aligned_names(normalized, aligned),
            reference,
            o.take(c as int),
            Seq::new(c, |k: int| o[o.len() - 1 - k]),
        )
}

/// The legend symbol of an instrument.
pub fn symbol(name: &String) -> (r: String)
    ensures
        r@ == symbol_spec(name@),
{
    let s = name.as_str();
    let n = s.unicode_len();
    if n >= 4 {
        remove_all_exec(s.substring_char(0, n - 4), "1000")
    } else {
        remove_all_exec(s, "1000")
    }
}

fn label_exec(style: TraceStyle, name: &String) -> (r: Option<String>)
    ensures
        opt_view(r) == label_for(style, name@),
{
    match style {
        TraceStyle::Context => None,
        TraceStyle::Extreme => Some(symbol(name)),
        TraceStyle::Reference => {
            let mut l = String::from_str("~");
            let sym = symbol(name);
            l.append(sym.as_str());
            l.append("~");
            Some(l)
        },
    }
}

fn contains_pos(v: &Vec<usize>, p: usize) -> (r: bool)
    ensures
        r == v@.contains(p),
{
    let mut i: usize = 0;
    while i < v.len()
        invariant
            i <= v@.len(),
            forall|k: int| 0 <= k < i ==> v@[k] != p,
        decreases v@.len() - i,
    {
        if v[i] == p {
            return true;
        }
        i = i + 1;
    }
    false
}

fn shown_exec(
    v: &Vec<usize>,
    aligned: &Vec<usize>,
    normalized: &Vec<(String, NormalizedSeries)>,
    reference: &String,
) -> (r: Vec<usize>)
    requires
        forall|k: int| 0 <= k < v@.len() ==> (#[trigger] v@[k]) < aligned@.len(),
        forall|k: int| 0 <= k < aligned@.len() ==> (#[trigger] aligned@[k]) < normalized@.len(),
    ensures
        r@ == shown(aligned_names(normalized@, aligned@), reference@, v@),
        v@.no_duplicates() ==> r@.no_duplicates(),
{
    let ghost names = aligned_names(normalized@, aligned@);
    let mut r: Vec<usize> = Vec::new();
    let mut i: usize = 0;
    while i < v.len()
        invariant
            i <= v@.len(),
            names == aligned_names(normalized@, aligned@),
            forall|k: int| 0 <= k < v@.len() ==> (#[trigger] v@[k]) < aligned@.len(),
            forall|k: int| 0 <= k < aligned@.len() ==> (#[trigger] aligned@[k]) < normalized@.len(),
            r@ == shown(names, reference@, v@.take(i as int)),
            v@.no_duplicates() ==> r@.no_duplicates(),
        decreases v@.len() - i,
    {
        proof {
            reveal(Seq::filter);
            assert(v@.take(i + 1).drop_last() =~= v@.take(i as int));
            assert(v@.take(i + 1).last() == v@[i as int]);
        }
        let q = v[i];
        assert(names[q as int] == normalized@[aligned@[q as int] as int].0@);
        if !(normalized[aligned[q]].0 == *reference) {
            proof {
                if v@.no_duplicates() && r@.contains(q) {
                    v@.take(i as int).lemma_filter_contains_rev(
                        not_reference(names, reference@),
                        q,
                    );
                    let j = choose|j: int| 0 <= j < i && v@.take(i as int)[j] == q;
                    assert(v@[j] == v@[i as int]);
                }
            }
            let ghost before = r@;
            r.push(q);
            proof {
                if v@.no_duplicates() {
                    assert forall|x: int, y: int|
                        0 <= x < r@.len() && 0 <= y < r@.len() && x != y implies r@[x] != r@[y] by {
                        if x < before.len() && y < before.len() {
                            assert(before[x] != before[y]);
                        } else if x < before.len() {
                            assert(before.contains(r@[x]));
                        } else {
                            assert(before.contains(r@[y]));
                        }
                    }
                }
            }
        }
        i = i + 1;
    }
    assert(v@.take(v@.len() as int) =~= v@);
    r
}

fn push_traces(
    traces: &mut Vec<TracePlan>,
    ps: &Vec<usize>,
    aligned: &Vec<usize>,
    normalized: &Vec<(String, NormalizedSeries)>,
    style: TraceStyle,
)
    requires
        labels_ok(old(traces)@, normalized@),
        forall|k: int| 0 <= k < ps@.len() ==> (#[trigger] ps@[k]) < aligned@.len(),
        forall|k: int| 0 <= k < aligned@.len() ==> (#[trigger] aligned@[k]) < normalized@.len(),
    ensures
        labels_ok(final(traces)@, normalized@),
        plan_view(final(traces)@) == plan_view(old(traces)@) + styled(ps@, aligned@, style),
        series_of(final(traces)@) == series_of(old(traces)@) + ps@.map_values(
            |p: usize| aligned@[p as int],
        ),
{
    let mut i: usize = 0;
    while i < ps.len()
        invariant
            i <= ps@.len(),
            labels_ok(traces@, normalized@),
            forall|k: int| 0 <= k < ps@.len() ==> (#[trigger] ps@[k]) < aligned@.len(),
            forall|k: int| 0 <= k < aligned@.len() ==> (#[trigger] aligned@[k]) < normalized@.len(),
            plan_view(traces@) == plan_view(old(traces)@) + styled(ps@.take(i as int), aligned@, style),
            series_of(traces@) == series_of(old(traces)@) + ps@.take(i as int).map_values(
                |p: usize| aligned@[p as int],
            ),
        decreases ps@.len() - i,
    {
        let j = aligned[ps[i]];
        let label = label_exec(style, &normalized[j].0);
        let ghost before = traces@;
        traces.push(TracePlan { series: j, style, label });
        assert(plan_view(traces@) =~= plan_view(before).push((j, style)));
        assert(series_of(traces@) =~= series_of(before).push(j));
        assert(ps@.take(i + 1) =~= ps@.take(i as int).push(ps@[i as int]));
        assert(styled(ps@.take(i + 1), aligned@, style) =~= styled(ps@.take(i as int), aligned@, style).push((j, style)));
        assert(ps@.take(i + 1).map_values(|p: usize| aligned@[p as int]) =~= ps@.take(
            i as int,
        ).map_values(|p: usize| aligned@[p as int]).push(j));
        assert forall|k: int| 0 <= k < traces@.len() implies (#[trigger] traces@[k]).series < normalized@.len() && opt_view(traces@[k].label)
            == label_for(traces@[k].style, normalized@[traces@[k].series as int].0@) by {
            if k < before.len() {
                assert(traces@[k] == before[k]);
            }
        }
        i = i + 1;
    }
    assert(ps@.take(ps@.len() as int) =~= ps@);
}

/// Plans the traces of the aligned normalized series: the extremes are the
/// `round(ln(n))` lowest and highest scores among the `n` aligned series, and
/// every aligned series is drawn once.
pub fn plan_traces(
    normalized: &Vec<(String, NormalizedSeries)>,
    aligned: &Vec<usize>,
    reference: &String,
) -> (traces: Vec<TracePlan>)
    requires
        well_formed(normalized@),
        forall|k: int| 0 <= k < aligned@.len() ==> (#[trigger] aligned@[k]) < normalized@.len(),
        aligned@.no_duplicates(),
    ensures
        traces_planned(traces@, normalized@, aligned@, reference@),
{
    let n = aligned.len();
    let ghost nv = normalized@;
    let ghost names = aligned_names(nv, aligned@);
    // scores of the aligned series
    let mut scores: Vec<Score> = Vec::new();
    let mut i: usize = 0;
    while i < n
        invariant
            n == aligned@.len(),
            i <= n,
            well_formed(nv),
            nv == normalized@,
            forall|k: int| 0 <= k < aligned@.len() ==> (#[trigger] aligned@[k]) < nv.len(),
            scores@ == aligned_scores(nv, aligned@).take(i as int),
        decreases n - i,
    {
        let s = &normalized[aligned[i]].1;
        assert(s.values@.len() > 0 && s.base > 0) by {
            assert(nv[aligned@[i as int] as int] == normalized@[aligned@[i as int] as int]);
        }
        scores.push(Score { num: s.values[s.values.len() - 1], den: s.base });
        assert(scores@ =~= aligned_scores(nv, aligned@).take(i + 1));
        i = i + 1;
    }
    assert(aligned_scores(nv, aligned@).take(n as int) =~= aligned_scores(nv, aligned@));
    assert forall|k: int| 0 <= k < scores@.len() implies (#[trigger] scores@[k]).valid() by {
        assert(nv[aligned@[k] as int].1.base > 0);
    }
    let order = rank(&scores);
    let c = log_count(n);
    let (lowest, highest) = select_extremes(&order, c);
    let ghost hi = Seq::new(c as nat, |k: int| order@[order@.len() - 1 - k]);
    assert(highest@ =~= hi);
    // context and reference positions
    let mut ctx: Vec<usize> = Vec::new();
    let mut refs: Vec<usize> = Vec::new();
    let mut p: usize = 0;
    while p < n
        invariant
            n == aligned@.len(),
            names == aligned_names(nv, aligned@),
            nv == normalized@,
            forall|k: int| 0 <= k < aligned@.len() ==> (#[trigger] aligned@[k]) < nv.len(),
            p <= n,
            ctx@ == positions(p as nat).filter(context_pred(names, reference@, lowest@, highest@)),
            refs@ == positions(p as nat).filter(is_reference(names, reference@)),
            forall|k: int| 0 <= k < ctx@.len() ==> (#[trigger] ctx@[k]) < p,
            forall|k: int| 0 <= k < refs@.len() ==> (#[trigger] refs@[k]) < p,
            forall|a: int, b: int| 0 <= a < b < ctx@.len() ==> #[trigger] ctx@[a] < #[trigger] ctx@[b],
            forall|a: int, b: int| 0 <= a < b < refs@.len() ==> #[trigger] refs@[a] < #[trigger] refs@[b],
        decreases n - p,
    {
        proof {
            reveal(Seq::filter);
            assert(positions((p + 1) as nat).drop_last() =~= positions(p as nat));
            assert(positions((p + 1) as nat).last() == p);
        }
        assert(names[p as int] == normalized@[aligned@[p as int] as int].0@);
        if normalized[aligned[p]].0 == *reference {
            refs.push(p);
        } else if !contains_pos(&lowest, p) && !contains_pos(&highest, p) {
            ctx.push(p);
        }
        p = p + 1;
    }
    assert(positions(n as nat) =~= positions(names.len()));
    let mut traces: Vec<TracePlan> = Vec::new();
    assert forall|k: int| 0 <= k < lowest@.len() implies (#[trigger] lowest@[k]) < aligned@.len() by {
        assert(lowest@[k] == order@[k]);
    }
    assert forall|k: int| 0 <= k < highest@.len() implies (#[trigger] highest@[k]) < aligned@.len() by {
        assert(highest@[k] == order@[order@.len() - 1 - k]);
    }
    let hi_shown = shown_exec(&highest, aligned, normalized, reference);
    let lo_shown = shown_exec(&lowest, aligned, normalized, reference);
    proof {
        lemma_increasing_distinct(ctx@);
        lemma_increasing_distinct(refs@);
        assert(order@.no_duplicates());
        assert forall|x: usize| lowest@.contains(x) implies !highest@.contains(x) by {
            if lowest@.contains(x) && highest@.contains(x) {
                let a = choose|a: int| 0 <= a < lowest@.len() && lowest@[a] == x;
                let b = choose|b: int| 0 <= b < highest@.len() && highest@[b] == x;
                assert(lowest@[a] != highest@[b]);
            }
        }
        assert forall|a: int, b: int| 0 <= a < lowest@.len() && 0 <= b < lowest@.len() && a != b implies lowest@[a] != lowest@[b] by {
            assert(lowest@[a] == order@[a] && lowest@[b] == order@[b]);
        }
        assert forall|a: int, b: int| 0 <= a < highest@.len() && 0 <= b < highest@.len() && a != b implies highest@[a] != highest@[b] by {
            assert(highest@[a] == order@[order@.len() - 1 - a] && highest@[b] == order@[order@.len() - 1 - b]);
        }
        lemma_each_position_once(names, reference@, lowest@, highest@);
        lemma_reversed(lo_shown@);
    }
    let mut traces: Vec<TracePlan> = Vec::new();
    assert(plan_view(traces@) =~= seq![]);
    assert(series_of(traces@) =~= seq![]);
    push_traces(&mut traces, &ctx, aligned, normalized, TraceStyle::Context);
    proof {
        assert forall|k: int| 0 <= k < hi_shown@.len() implies (#[trigger] hi_shown@[k]) < aligned@.len() by {
            assert(hi_shown@.contains(hi_shown@[k]));
            highest@.lemma_filter_contains_rev(not_reference(names, reference@), hi_shown@[k]);
        }
        assert forall|k: int| 0 <= k < lo_shown@.len() implies (#[trigger] lo_shown@[k]) < aligned@.len() by {
            assert(lo_shown@.contains(lo_shown@[k]));
            lowest@.lemma_filter_contains_rev(not_reference(names, reference@), lo_shown@[k]);
        }
    }
    push_traces(&mut traces, &hi_shown, aligned, normalized, TraceStyle::Extreme);
    push_traces(&mut traces, &refs, aligned, normalized, TraceStyle::Reference);
    let c2 = lo_shown.len();
    let mut low_rev: Vec<usize> = Vec::new();
    let mut k: usize = 0;
    while k < c2
        invariant
            c2 == lo_shown@.len(),
            k <= c2,
            forall|j: int| 0 <= j < lo_shown@.len() ==> (#[trigger] lo_shown@[j]) < aligned@.len(),
            low_rev@ == reversed(lo_shown@).take(k as int),
        decreases c2 - k,
    {
        low_rev.push(lo_shown[c2 - 1 - k]);
        assert(low_rev@ =~= reversed(lo_shown@).take(k + 1));
        k = k + 1;
    }
    assert(low_rev@ =~= reversed(lo_shown@));
    push_traces(&mut traces, &low_rev, aligned, normalized, TraceStyle::Extreme);
    assert(plan_view(traces@) =~= planned(aligned@, names, reference@, lowest@, highest@));
    proof {
        let ps = planned_positions(names, reference@, lowest@, highest@);
        let st = series_of(traces@);
        assert(st =~= ps.map_values(|p: usize| aligned@[p as int]));
        assert forall|q: int| 0 <= q < traces@.len() implies aligned@.contains(#[trigger] traces@[q].series) by {
            assert(st[q] == traces@[q].series);
            assert(ps[q] < n);
            assert(aligned@[ps[q] as int] == traces@[q].series);
        }
        assert forall|q: int| 0 <= q < aligned@.len() implies st.contains(#[trigger] aligned@[q]) by {
            assert(ps.contains(q as usize));
            let j = choose|j: int| 0 <= j < ps.len() && ps[j] == q as usize;
            assert(st[j] == aligned@[q]);
        }
        assert forall|k1: int, k2: int| 0 <= k1 < k2 < traces@.len() implies #[trigger] traces@[k1].series != #[trigger] traces@[k2].series by {
            assert(st[k1] == traces@[k1].series && st[k2] == traces@[k2].series);
            assert(ps[k1] != ps[k2]);
            assert(ps[k1] < n && ps[k2] < n);
        }
    }
    traces
}

/// Plans the chart of the aligned normalized series against the reference
/// time index: the extremes are the `round(ln(n))` lowest and highest scores
/// among the `n` aligned series.
pub fn plotly_closes(
    normalized: &Vec<(String, NormalizedSeries)>,
    aligned: &Vec<usize>,
    dt_index: &Vec<i64>,
    tf_ms: u64,
    market: &str,
    universe_len: usize,
    reference: &String,
) -> (r: ChartPlan)
    requires
        well_formed(normalized@),
        forall|k: int| 0 <= k < aligned@.len() ==> (#[trigger] aligned@[k]) < normalized@.len(),
        aligned@.no_duplicates(),
        dt_index@.len() > 0,
        in_range(dt_index@),
        tf_ms <= MAX_MS,
    ensures
        is_plan_of(r, normalized@, aligned@, dt_index@, tf_ms as int, market@, universe_len as nat, reference@),
{
    let traces = plan_traces(normalized, aligned, reference);
    // x axis
    let mut x_labels: Vec<String> = Vec::new();
    let mut t: usize = 0;
    while t < dt_index.len()
        invariant
            t <= dt_index@.len(),
            in_range(dt_index@),
            x_labels@.len() == t,
            forall|j: int| 0 <= j < t ==> (#[trigger] x_labels@[j])@ == rfc3339_of(dt_index@[j] as int),
        decreases dt_index@.len() - t,
    {
        let ms = dt_index[t];
        assert(-MAX_MS <= dt_index@[t as int] <= MAX_MS);
        let label = match rfc3339(ms) {
            Some(s) => s,
            None => String::new(),
        };
        x_labels.push(label);
        t = t + 1;
    }
    // title
    let first = dt_index[0];
    let last = dt_index[dt_index.len() - 1];
    let span: i64 = if last >= first { last - first } else { first - last };
    let hours: i64 = (span + tf_ms as i64) / HOUR_MS;
    let mut title = String::from_str("Last ");
    let h = decimal(hours as u128);
    title.append(h.as_str());
    title.append("h of ");
    let cnt = decimal(normalized.len() as u128);
    title.append(cnt.as_str());
    title.append("/");
    let tot = decimal(universe_len as u128);
    title.append(tot.as_str());
    title.append(" pairs on ");
    title.append(market);
    assert(title@ =~= title_text(
        window_hours(dt_index@[0] as int, dt_index@.last() as int, tf_ms as int) as nat,
        normalized@.len(),
        universe_len as nat,
        market@,
    ));
    ChartPlan { title, x_labels, traces }
}

/// Plans the chart of one run from the batch of bars it fetched: the closes
/// are normalized, aligned on the reference instrument's open times, and
/// ranked. Returns the normalized series with the plan whose traces index
/// them. Fails when the reference instrument has no data.
pub fn try_build(
    batch: &Batch<Kline>,
    reference: &String,
    universe_len: usize,
    tf_ms: u64,
    market: &str,
) -> (r: Result<(Vec<(String, NormalizedSeries)>, ChartPlan), RunError>)
    requires
        batch.well_formed(),
        forall|k: int, j: int|
            0 <= k < batch.series@.len() && 0 <= j < batch.series@[k].1@.len() ==> -MAX_MS
                <= #[trigger] batch.series@[k].1@[j].open_time <= MAX_MS,
        tf_ms <= MAX_MS,
    ensures
        r is Err <==> !crate::normalize::has_series(series_view(batch.series@), reference@),
        r is Err ==> r == Err::<(Vec<(String, NormalizedSeries)>, ChartPlan), RunError>(
            RunError::ReferenceUnavailable,
        ),
        r matches Ok((n, plan)) ==> {
            &&& norm_view(n@) == normalized(closes_view(series_view(batch.series@)))
            &&& exists|j: int, a: Seq<usize>|
                0 <= j < batch.series@.len() && batch.series@[j].0@ == reference@
                    && #[trigger] is_alignment(n@, batch.series@[j].1@.len(), a) && is_plan_of(
                    plan,
                    n@,
                    a,
                    batch.series@[j].1@.map_values(|k: Kline| k.open_time),
                    tf_ms as int,
                    market@,
                    universe_len as nat,
                    reference@,
                )
        },
{
    match collect_data(batch, reference) {
        Err(e) => Err(e),
        Ok((norm, dt_index)) => {
            assert(in_range(dt_index@)) by {
                let j = choose|j: int|
                    0 <= j < batch.series@.len() && (#[trigger] batch.series@[j]).0@ == reference@
                        && dt_index@ == batch.series@[j].1@.map_values(|k: Kline| k.open_time);
                assert forall|k: int| 0 <= k < dt_index@.len() implies -MAX_MS <= #[trigger] dt_index@[k]
                    <= MAX_MS by {
                    assert(dt_index@[k] == batch.series@[j].1@[k].open_time);
                }
            }
            let aligned = align(&norm, dt_index.len());
            let plan = plotly_closes(&norm, &aligned, &dt_index, tf_ms, market, universe_len, reference);
            proof {
                let j = choose|j: int|
                    0 <= j < batch.series@.len() && (#[trigger] batch.series@[j]).0@ == reference@
                        && dt_index@ == batch.series@[j].1@.map_values(|k: Kline| k.open_time);
                assert(batch.series@[j].1@.len() == dt_index@.len());
                assert(is_alignment(norm@, batch.series@[j].1@.len(), aligned@));
                assert(is_plan_of(plan, norm@, aligned@, batch.series@[j].1@.map_values(|k: Kline| k.open_time), tf_ms as int, market@, universe_len as nat, reference@));
                assert(norm_view(norm@) == normalized(closes_view(series_view(batch.series@))));
                assert(exists|j: int, a: Seq<usize>|
                0 <= j < batch.series@.len() && batch.series@[j].0@ == reference@
                    && #[trigger] is_alignment(norm@, batch.series@[j].1@.len(), a) && is_plan_of(
                    plan,
                    norm@,
                    a,
                    batch.series@[j].1@.map_values(|k: Kline| k.open_time),
                    tf_ms as int,
                    market@,
                    universe_len as nat,
                    reference@,
                ));
            }
            Ok((norm, plan))
        },
    }
}

} // verus!
