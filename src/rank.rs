use vstd::prelude::*;

verus! {

/// A performance score held as the exact ratio `num / den`.
///
/// For a price series this is `last / first`, whose logarithm is the total
/// log return over the window; for a long/short sample it is the long share.
/// Both orders agree with the order of the logarithm, since `ln` is increasing.
#[derive(Clone, Copy, Debug, PartialEq, Eq, Structural)]
pub struct Score {
    pub num: u64,
    pub den: u64,
}

impl Score {
    pub open spec fn valid(self) -> bool {
        self.den > 0
    }
}

/// `a <= b` as rationals (both denominators positive).
pub open spec fn score_le(a: Score, b: Score) -> bool {
    a.num as int * b.den as int <= b.num as int * a.den as int
}

pub open spec fn all_valid(s: Seq<Score>) -> bool {
    forall|k: int| 0 <= k < s.len() ==> (#[trigger] s[k]).valid()
}

/// `o` lists every position of `s` once, in ascending order of score; equal
/// scores keep their positions' order, so the ranking is deterministic.
pub open spec fn is_ranking(s: Seq<Score>, o: Seq<usize>) -> bool {
    &&& o.len() == s.len()
    &&& o.no_duplicates()
    &&& forall|k: int| 0 <= k < o.len() ==> (#[trigger] o[k]) < s.len()
    &&& forall|a: int, b: int|
        0 <= a < b < o.len() ==> score_le(s[#[trigger] o[a] as int], s[#[trigger] o[b] as int]) && (
        score_le(s[o[b] as int], s[o[a] as int]) ==> o[a] < o[b])
}

proof fn lemma_score_le_trans(a: Score, b: Score, c: Score)
    requires
        a.valid(),
        b.valid(),
        c.valid(),
        score_le(a, b),
        score_le(b, c),
    ensures
        score_le(a, c),
{
    let (an, ad, bn, bd, cn, cd) = (
        a.num as int,
        a.den as int,
        b.num as int,
        b.den as int,
        c.num as int,
        c.den as int,
    );
    assert(an * bd * cd <= bn * ad * cd) by (nonlinear_arith)
        requires
            an * bd <= bn * ad,
            cd > 0,
    ;
    assert(bn * cd * ad <= cn * bd * ad) by (nonlinear_arith)
        requires
            bn * cd <= cn * bd,
            ad > 0,
    ;
    assert(an * cd <= cn * ad) by (nonlinear_arith)
        requires
            an * bd * cd <= bn * ad * cd,
            bn * cd * ad <= cn * bd * ad,
            bd > 0,
    ;
}

proof fn lemma_u64_product_fits(x: u64, y: u64)
    ensures
        x as int * y as int <= u128::MAX,
{
    assert(x as int * y as int <= u64::MAX as int * u64::MAX as int) by (nonlinear_arith)
        requires
            0 <= x <= u64::MAX,
            0 <= y <= u64::MAX,
    ;
}

/// Decides `score_le` exactly.
pub fn score_le_exec(a: &Score, b: &Score) -> (r: bool)
    ensures
        r == score_le(*a, *b),
{
    proof {
        lemma_u64_product_fits(a.num, b.den);
        lemma_u64_product_fits(b.num, a.den);
    }
    let l: u128 = (a.num as u128) * (b.den as u128);
    let r: u128 = (b.num as u128) * (a.den as u128);
    l <= r
}

/// Orders the positions of `scores` ascending by score, ties in position order.
pub fn rank(scores: &Vec<Score>) -> (order: Vec<usize>)
    requires
        all_valid(scores@),
    ensures
        is_ranking(scores@, order@),
{
    let n = scores.len();
    let mut order: Vec<usize> = Vec::new();
    let mut i: usize = 0;
    while i < n
        invariant
            n == scores@.len(),
            all_valid(scores@),
            i <= n,
            order@.len() == i,
            order@.no_duplicates(),
            forall|k: int| 0 <= k < order@.len() ==> (#[trigger] order@[k]) < i,
            forall|a: int, b: int|
                0 <= a < b < order@.len() ==> score_le(
                    scores@[#[trigger] order@[a] as int],
                    scores@[#[trigger] order@[b] as int],
                ) && (score_le(scores@[order@[b] as int], scores@[order@[a] as int]) ==> order@[a]
                    < order@[b]),
        decreases n - i,
    {
        let mut j: usize = order.len();
        while j > 0 && !score_le_exec(&scores[order[j - 1]], &scores[i])
            invariant
                n == scores@.len(),
                i < n,
                j <= order@.len(),
                order@.len() == i,
                forall|k: int| 0 <= k < order@.len() ==> (#[trigger] order@[k]) < i,
                forall|k: int|
                    j <= k < order@.len() ==> !score_le(
                        scores@[#[trigger] order@[k] as int],
                        scores@[i as int],
                    ),
            decreases j,
        {
            j = j - 1;
        }
        let ghost old_order = order@;
        order.insert(j, i);
        proof {
            assert(order@ == old_order.insert(j as int, i));
            assert forall|a: int, b: int| 0 <= a < b < order@.len() implies score_le(
                scores@[#[trigger] order@[a] as int],
                scores@[#[trigger] order@[b] as int],
            ) && (score_le(scores@[order@[b] as int], scores@[order@[a] as int]) ==> order@[a]
                < order@[b]) by {
                let si = scores@[i as int];
                assert(si.valid());
                if a < j && b == j {
                    let sa = scores@[old_order[a] as int];
                    let sl = scores@[old_order[j - 1] as int];
                    assert(sa.valid() && sl.valid());
                    if a < j - 1 {
                        assert(score_le(sa, sl));
                    }
                    lemma_score_le_trans(sa, sl, si);
                } else if a == j && b > j {
                    assert(!score_le(scores@[old_order[b - 1] as int], si));
                } else if a < j && b > j {
                    assert(order@[b] == old_order[b - 1]);
                } else if a > j {
                    assert(order@[a] == old_order[a - 1]);
                }
            }
            assert forall|x: int, y: int|
                0 <= x < order@.len() && 0 <= y < order@.len() && x != y implies order@[x]
                != order@[y] by {
                if x != j as int && y != j as int {
                    let ox = if x < j { x } else { x - 1 };
                    let oy = if y < j { y } else { y - 1 };
                    assert(old_order[ox] != old_order[oy]);
                }
            }
        }
        i = i + 1;
    }
    order
}

/// `min(k, n / 2)`.
pub open spec fn fixed_count_spec(n: nat, k: nat) -> nat {
    if k <= n / 2 {
        k
    } else {
        n / 2
    }
}

/// How many (lowest, highest) pairs the text report shows: `min(k, n / 2)`.
pub fn fixed_count(n: usize, k: usize) -> (r: usize)
    ensures
        r == fixed_count_spec(n as nat, k as nat),
        2 * r <= n,
{
    if k <= n / 2 {
        k
    } else {
        n / 2
    }
}

/// The least integer `t` with `ln(t) >= m - 1/2`, i.e. `ceil(e^(m - 1/2))`;
/// zero for `m == 0`. `round(ln(n)) == m` exactly when
/// `ln_threshold(m) <= n < ln_threshold(m + 1)`.
pub open spec fn ln_threshold(m: nat) -> nat {
    if m == 0 {
        0
    } else if m == 1 {
        2
    } else if m == 2 {
        5
    } else if m == 3 {
        13
    } else if m == 4 {
        34
    } else if m == 5 {
        91
    } else if m == 6 {
        245
    } else if m == 7 {
        666
    } else if m == 8 {
        1809
    } else if m == 9 {
        4915
    } else if m == 10 {
        13360
    } else if m == 11 {
        36316
    } else if m == 12 {
        98716
    } else if m == 13 {
        268338
    } else if m == 14 {
        729417
    } else if m == 15 {
        1982760
    } else if m == 16 {
        5389699
    } else if m == 17 {
        14650720
    } else if m == 18 {
        39824785
    } else if m == 19 {
        108254988
    } else if m == 20 {
        294267567
    } else if m == 21 {
        799902178
    } else if m == 22 {
        2174359554
    } else if m == 23 {
        5910522064
    } else if m == 24 {
        16066464721
    } else if m == 25 {
        43673179098
    } else if m == 26 {
        118716009133
    } else if m == 27 {
        322703570372
    } else if m == 28 {
        877199251319
    } else if m == 29 {
        2384474784798
    } else if m == 30 {
        6481674477935
    } else if m == 31 {
        17619017951356
    } else if m == 32 {
        47893456332464
    } else if m == 33 {
        130187912050633
    } else if m == 34 {
        353887435612260
    } else if m == 35 {
        961965785544777
    } else if m == 36 {
        2614894114445697
    } else if m == 37 {
        7108019154642245
    } else if m == 38 {
        19321599304402837
    } else if m == 39 {
        52521552285925159
    } else if m == 40 {
        142768381181291986
    } else if m == 41 {
        388084696243620325
    } else if m == 42 {
        1054923577702081419
    } else if m == 43 {
        2867579591680571560
    } else if m == 44 {
        7794889495725306400
    } else if m == 45 {
        21188706471076390949
    } else {
        0
    }
}

/// `round(ln(n))` is `m` (with `round(ln(0))` taken as `0`).
pub open spec fn rounds_ln_to(n: nat, m: nat) -> bool {
    ln_threshold(m) <= n < ln_threshold(m + 1) && 1 <= m + 1 <= 45
}

fn ln_threshold_exec(m: usize) -> (t: u64)
    requires
        1 <= m <= 44,
    ensures
        t == ln_threshold(m as nat),
{
    match m {
        1 => 2,
        2 => 5,
        3 => 13,
        4 => 34,
        5 => 91,
        6 => 245,
        7 => 666,
        8 => 1809,
        9 => 4915,
        10 => 13360,
        11 => 36316,
        12 => 98716,
        13 => 268338,
        14 => 729417,
        15 => 1982760,
        16 => 5389699,
        17 => 14650720,
        18 => 39824785,
        19 => 108254988,
        20 => 294267567,
        21 => 799902178,
        22 => 2174359554,
        23 => 5910522064,
        24 => 16066464721,
        25 => 43673179098,
        26 => 118716009133,
        27 => 322703570372,
        28 => 877199251319,
        29 => 2384474784798,
        30 => 6481674477935,
        31 => 17619017951356,
        32 => 47893456332464,
        33 => 130187912050633,
        34 => 353887435612260,
        35 => 961965785544777,
        36 => 2614894114445697,
        37 => 7108019154642245,
        38 => 19321599304402837,
        39 => 52521552285925159,
        40 => 142768381181291986,
        41 => 388084696243620325,
        42 => 1054923577702081419,
        43 => 2867579591680571560,
        44 => 7794889495725306400,
        _ => 7794889495725306400,
    }
}

/// How many extremes the chart labels on each side: `round(ln(n))`.
pub fn log_count(n: usize) -> (r: usize)
    ensures
        rounds_ln_to(n as nat, r as nat),
        2 * r <= n,
{
    let mut m: usize = 0;
    while m < 44 && ln_threshold_exec(m + 1) <= n as u64
        invariant
            m <= 44,
            ln_threshold(m as nat) <= n,
        decreases 44 - m,
    {
        m = m + 1;
    }
    proof {
        lemma_double_below_threshold(m as nat);
        assert(n < ln_threshold(m as nat + 1)) by {
            if m == 44 {
                assert(n as int <= u64::MAX);
            }
        }
    }
    m
}

/// The `c` lowest and the `c` highest positions of a ranking, the highest
/// listed from the top down.
pub fn select_extremes(order: &Vec<usize>, c: usize) -> (r: (Vec<usize>, Vec<usize>))
    requires
        2 * c <= order@.len(),
    ensures
        r.0@ == order@.take(c as int),
        r.1@.len() == c,
        forall|k: int| 0 <= k < c ==> #[trigger] r.1@[k] == order@[order@.len() - 1 - k],
        order@.no_duplicates() ==> forall|a: int, b: int|
            0 <= a < c && 0 <= b < c ==> #[trigger] r.0@[a] != #[trigger] r.1@[b],
{
    let n = order.len();
    let mut lowest: Vec<usize> = Vec::new();
    let mut highest: Vec<usize> = Vec::new();
    let mut k: usize = 0;
    while k < c
        invariant
            2 * c <= n,
            n == order@.len(),
            k <= c,
            lowest@ == order@.take(k as int),
            highest@.len() == k,
            forall|j: int| 0 <= j < k ==> #[trigger] highest@[j] == order@[n - 1 - j],
        decreases c - k,
    {
        lowest.push(order[k]);
        highest.push(order[n - 1 - k]);
        assert(lowest@ =~= order@.take(k + 1));
        k = k + 1;
    }
    (lowest, highest)
}

/// Of any ranking of `n` scores, the `round(ln(n))` lowest positions and the
/// `round(ln(n))` highest positions are that many each and never overlap.
pub proof fn lemma_log_extremes_disjoint(order: Seq<usize>, m: nat)
    requires
        order.no_duplicates(),
        rounds_ln_to(order.len(), m),
    ensures
        2 * m <= order.len(),
        forall|a: int, b: int|
            0 <= a < m && 0 <= b < m ==> #[trigger] order[a] != #[trigger] order[order.len() - 1 - b],
{
    lemma_double_below_threshold(m);
}

proof fn lemma_double_below_threshold(m: nat)
    requires
        m <= 45,
    ensures
        2 * m <= ln_threshold(m),
{
}

} // verus!
