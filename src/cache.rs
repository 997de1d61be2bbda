use vstd::prelude::*;

verus! {

/// How long a stored list of negative results stays usable: 30 days.
pub const TTL_SECS: u64 = 30 * 24 * 60 * 60;

/// One day in seconds.
pub const DAY_SECS: u64 = 24 * 60 * 60;

/// The character views of a list of identifiers.
pub open spec fn names(v: Seq<String>) -> Seq<Seq<char>> {
    v.map_values(|s: String| s@)
}

/// `x` without its trailing carriage returns (a `\r\n` line ending).
pub open spec fn strip_cr(x: Seq<char>) -> Seq<char>
    decreases x.len(),
{
    if x.len() > 0 && x.last() == '\r' {
        strip_cr(x.drop_last())
    } else {
        x
    }
}

/// Appends the line being read, without its carriage returns, unless that
/// leaves it empty.
pub open spec fn push_line(done: Seq<Seq<char>>, cur: Seq<char>) -> Seq<Seq<char>> {
    if strip_cr(cur).len() == 0 {
        done
    } else {
        done.push(strip_cr(cur))
    }
}

/// The complete lines of `s` read so far, and the line still open.
pub open spec fn scan(s: Seq<char>) -> (Seq<Seq<char>>, Seq<char>)
    decreases s.len(),
{
    if s.len() == 0 {
        (seq![], seq![])
    } else {
        let (done, cur) = scan(s.drop_last());
        if s.last() == '\n' {
            (push_line(done, cur), seq![])
        } else {
            (done, cur.push(s.last()))
        }
    }
}

/// The non-empty lines of a stored list, one identifier per line.
pub open spec fn parse_lines(s: Seq<char>) -> Seq<Seq<char>> {
    push_line(scan(s).0, scan(s).1)
}

/// The identifiers joined by line breaks, with no trailing break.
pub open spec fn join_lines(xs: Seq<Seq<char>>) -> Seq<char>
    decreases xs.len(),
{
    if xs.len() == 0 {
        seq![]
    } else if xs.len() == 1 {
        xs[0]
    } else {
        join_lines(xs.drop_last()) + seq!['\n'] + xs.last()
    }
}

/// An identifier that a line of the store can hold.
pub open spec fn storable(x: Seq<char>) -> bool {
    x.len() > 0 && !x.contains('\n') && x.last() != '\r'
}

proof fn lemma_strip_cr(x: Seq<char>)
    ensures
        strip_cr(x).len() <= x.len(),
        strip_cr(x) == x.take(strip_cr(x).len() as int),
        strip_cr(x).len() > 0 ==> strip_cr(x).last() != '\r',
    decreases x.len(),
{
    if x.len() > 0 && x.last() == '\r' {
        lemma_strip_cr(x.drop_last());
        assert(x.drop_last().take(strip_cr(x).len() as int) =~= x.take(strip_cr(x).len() as int));
    } else {
        assert(x.take(x.len() as int) =~= x);
    }
}

proof fn lemma_scan_storable(s: Seq<char>)
    ensures
        forall|k: int| 0 <= k < scan(s).0.len() ==> storable(#[trigger] scan(s).0[k]),
        !scan(s).1.contains('\n'),
    decreases s.len(),
{
    if s.len() > 0 {
        lemma_scan_storable(s.drop_last());
        let (done, cur) = scan(s.drop_last());
        if s.last() == '\n' {
            lemma_line_storable(done, cur);
        } else {
            assert forall|i: int| 0 <= i < cur.push(s.last()).len() implies cur.push(s.last())[i]
                != '\n' by {
                if i < cur.len() {
                    assert(cur[i] != '\n') by {
                        if cur[i] == '\n' {
                            assert(cur.contains('\n'));
                        }
                    }
                }
            }
        }
    }
}

proof fn lemma_line_storable(done: Seq<Seq<char>>, cur: Seq<char>)
    requires
        forall|k: int| 0 <= k < done.len() ==> storable(#[trigger] done[k]),
        !cur.contains('\n'),
    ensures
        forall|k: int| 0 <= k < push_line(done, cur).len() ==> storable(#[trigger] push_line(done, cur)[k]),
{
    lemma_strip_cr(cur);
    let l = strip_cr(cur);
    if l.len() > 0 {
        assert(!l.contains('\n')) by {
            if l.contains('\n') {
                let i = choose|i: int| 0 <= i < l.len() && l[i] == '\n';
                assert(cur[i] == '\n');
                assert(cur.contains('\n'));
            }
        }
        assert forall|k: int| 0 <= k < push_line(done, cur).len() implies storable(
            #[trigger] push_line(done, cur)[k],
        ) by {
            if k < done.len() {
                assert(push_line(done, cur)[k] == done[k]);
            }
        }
    }
}

/// Every identifier read from a store fits on a line of the store: reading,
/// writing and reading again gives it back.
pub proof fn lemma_parse_lines_storable(s: Seq<char>)
    ensures
        forall|k: int| 0 <= k < parse_lines(s).len() ==> storable(#[trigger] parse_lines(s)[k]),
{
    lemma_scan_storable(s);
    lemma_line_storable(scan(s).0, scan(s).1);
}

/// A store written at `written_at` is still honored at `now`.
pub open spec fn fresh(written_at: int, now: int) -> bool {
    now < written_at + TTL_SECS
}

/// The identifiers that a load yields.
pub open spec fn loaded(contents: Option<Seq<char>>, written_at: int, now: int) -> Seq<Seq<char>> {
    match contents {
        Some(c) => if fresh(written_at, now) {
            parse_lines(c)
        } else {
            seq![]
        },
        None => seq![],
    }
}

/// The universe without the cached negatives, in the universe's order.
pub open spec fn without(universe: Seq<Seq<char>>, cached: Seq<Seq<char>>) -> Seq<Seq<char>> {
    universe.filter(|x: Seq<char>| !cached.contains(x))
}

proof fn lemma_scan_segment(s: Seq<char>, x: Seq<char>)
    requires
        !x.contains('\n'),
    ensures
        scan(s + x) == (scan(s).0, scan(s).1 + x),
    decreases x.len(),
{
    if x.len() == 0 {
        assert(s + x =~= s);
        assert(scan(s).1 + x =~= scan(s).1);
    } else {
        let y = x.drop_last();
        assert(!y.contains('\n')) by {
            if y.contains('\n') {
                let k = choose|k: int| 0 <= k < y.len() && y[k] == '\n';
                assert(x[k] == '\n');
            }
        }
        lemma_scan_segment(s, y);
        assert((s + x).drop_last() =~= s + y);
        assert((s + x).last() == x.last());
        assert(x.last() != '\n') by {
            assert(x[x.len() - 1] == x.last());
        }
        assert((scan(s).1 + y).push(x.last()) =~= scan(s).1 + x);
    }
}

proof fn lemma_scan_newline(s: Seq<char>)
    ensures
        scan(s + seq!['\n']) == (push_line(scan(s).0, scan(s).1), Seq::<char>::empty()),
{
    assert((s + seq!['\n']).drop_last() =~= s);
    assert((s + seq!['\n']).last() == '\n');
}

proof fn lemma_scan_join(xs: Seq<Seq<char>>)
    requires
        xs.len() >= 1,
        forall|k: int| 0 <= k < xs.len() ==> storable(#[trigger] xs[k]),
    ensures
        scan(join_lines(xs)) == (xs.drop_last(), xs.last()),
    decreases xs.len(),
{
    if xs.len() == 1 {
        assert(storable(xs[0]));
        lemma_scan_segment(seq![], xs[0]);
        assert(Seq::<char>::empty() + xs[0] =~= xs[0]);
        assert(xs.drop_last() =~= seq![]);
    } else {
        let prev = xs.drop_last();
        assert forall|k: int| 0 <= k < prev.len() implies storable(#[trigger] prev[k]) by {
            assert(storable(xs[k]));
        }
        lemma_scan_join(prev);
        lemma_scan_newline(join_lines(prev));
        assert(storable(prev[prev.len() - 1]));
        assert(strip_cr(prev.last()) == prev.last());
        assert(prev.drop_last().push(prev.last()) =~= prev);
        assert(storable(xs[xs.len() - 1]));
        lemma_scan_segment(join_lines(prev) + seq!['\n'], xs.last());
        assert(Seq::<char>::empty() + xs.last() =~= xs.last());
    }
}

/// Writing identifiers one per line and reading the store back yields the
/// same identifiers, in the same order.
pub proof fn lemma_store_round_trip(xs: Seq<Seq<char>>)
    requires
        forall|k: int| 0 <= k < xs.len() ==> storable(#[trigger] xs[k]),
    ensures
        parse_lines(join_lines(xs)) == xs,
        parse_lines(join_lines(xs)).to_set() == xs.to_set(),
{
    if xs.len() == 0 {
        assert(scan(seq![]) == (Seq::<Seq<char>>::empty(), Seq::<char>::empty()));
    } else {
        lemma_scan_join(xs);
        assert(storable(xs[xs.len() - 1]));
        assert(strip_cr(xs.last()) == xs.last());
        assert(xs.drop_last().push(xs.last()) =~= xs);
    }
}

/// What a run persists is what the next run loads while the store is fresh:
/// the previously loaded entries and the new ones, as a set their union.
pub proof fn lemma_persist_then_load(
    previous: Seq<Seq<char>>,
    new: Seq<Seq<char>>,
    written_at: int,
    now: int,
)
    requires
        forall|k: int| 0 <= k < previous.len() ==> storable(#[trigger] previous[k]),
        forall|k: int| 0 <= k < new.len() ==> storable(#[trigger] new[k]),
        fresh(written_at, now),
    ensures
        loaded(Some(join_lines(previous + new)), written_at, now) == previous + new,
        loaded(Some(join_lines(previous + new)), written_at, now).to_set() == previous.to_set()
            + new.to_set(),
{
    let all = previous + new;
    assert forall|k: int| 0 <= k < all.len() implies storable(#[trigger] all[k]) by {
        if k < previous.len() {
            assert(all[k] == previous[k]);
        } else {
            assert(all[k] == new[k - previous.len()]);
        }
    }
    lemma_store_round_trip(all);
    assert(all.to_set() =~= previous.to_set() + new.to_set()) by {
        assert forall|x: Seq<char>| all.to_set().contains(x) == (previous.to_set() + new.to_set()).contains(x) by {
            if all.contains(x) {
                let k = choose|k: int| 0 <= k < all.len() && all[k] == x;
                if k < previous.len() {
                    assert(previous.contains(x));
                } else {
                    assert(new[k - previous.len()] == x);
                    assert(new.contains(x));
                }
            }
            if previous.contains(x) {
                let k = choose|k: int| 0 <= k < previous.len() && previous[k] == x;
                assert(all[k] == x);
            }
            if new.contains(x) {
                let k = choose|k: int| 0 <= k < new.len() && new[k] == x;
                assert(all[k + previous.len()] == x);
            }
        }
    }
}

proof fn lemma_without_nothing(universe: Seq<Seq<char>>)
    ensures
        without(universe, seq![]) == universe,
    decreases universe.len(),
{
    reveal(Seq::filter);
    if universe.len() > 0 {
        lemma_without_nothing(universe.drop_last());
        assert(universe.drop_last().push(universe.last()) =~= universe);
    }
}

/// An entry stored at `written_at` keeps its instrument out of a run 29 days
/// later, and no longer keeps anything out 31 days later.
pub proof fn lemma_negative_result_ttl(
    contents: Seq<char>,
    written_at: int,
    x: Seq<char>,
    universe: Seq<Seq<char>>,
)
    requires
        parse_lines(contents).contains(x),
    ensures
        !without(universe, loaded(Some(contents), written_at, written_at + 29 * DAY_SECS)).contains(x),
        without(universe, loaded(Some(contents), written_at, written_at + 31 * DAY_SECS)) == universe,
{
    let cached = parse_lines(contents);
    assert(loaded(Some(contents), written_at, written_at + 29 * DAY_SECS) == cached);
    let kept = without(universe, cached);
    if kept.contains(x) {
        let k = choose|k: int| 0 <= k < kept.len() && kept[k] == x;
        universe.lemma_filter_pred(|y: Seq<char>| !cached.contains(y), k);
    }
    assert(loaded(Some(contents), written_at, written_at + 31 * DAY_SECS) == Seq::<Seq<char>>::empty());
    lemma_without_nothing(universe);
}

/// Instruments known to return no data, as loaded at the start of a run.
pub struct NegativeCache {
    pub entries: Vec<String>,
    /// When the store was last written (seconds since the epoch).
    pub written_at: u64,
    /// When it was loaded (seconds since the epoch).
    pub loaded_at: u64,
}

impl NegativeCache {
    /// Builds the cache from the store's contents (`None` where it could not be
    /// read) and its last-modified time; a store `TTL_SECS` old or older is
    /// ignored as a whole.
    pub fn load(contents: Option<String>, written_at: u64, now: u64) -> (r: NegativeCache)
        ensures
            names(r.entries@) == loaded(
                match contents {
                    Some(c) => Some(c@),
                    None => None,
                },
                written_at as int,
                now as int,
            ),
            r.written_at == written_at,
            r.loaded_at == now,
            forall|k: int| 0 <= k < r.entries@.len() ==> storable(#[trigger] r.entries@[k]@),
    {
        let entries = match &contents {
            Some(c) => if now < written_at || now - written_at < TTL_SECS {
                parse_store(c.as_str())
            } else {
                Vec::new()
            },
            None => Vec::new(),
        };
        proof {
            if entries@.len() == 0 {
                assert(names(entries@) =~= seq![]);
            }
            if let Some(c) = contents {
                lemma_parse_lines_storable(c@);
            }
            assert forall|k: int| 0 <= k < entries@.len() implies storable(#[trigger] entries@[k]@) by {
                assert(names(entries@)[k] == entries@[k]@);
            }
        }
        NegativeCache { entries, written_at, loaded_at: now }
    }

    /// The universe minus the cached negatives.
    pub fn filter(&self, universe: &Vec<String>) -> (r: Vec<String>)
        ensures
            names(r@) == without(names(universe@), names(self.entries@)),
    {
        let mut r: Vec<String> = Vec::new();
        let mut i: usize = 0;
        while i < universe.len()
            invariant
                i <= universe@.len(),
                names(r@) == without(names(universe@).take(i as int), names(self.entries@)),
            decreases universe@.len() - i,
        {
            let ghost us = names(universe@);
            let ghost cached = names(self.entries@);
            assert(us.take(i + 1).drop_last() =~= us.take(i as int));
            assert(us.take(i + 1).last() == universe@[i as int]@);
            proof {
                reveal(Seq::filter);
            }
            if !contains_name(&self.entries, &universe[i]) {
                let x = universe[i].clone();
                assert(x@ == universe@[i as int]@);
                r.push(x);
                assert(names(r@) =~= without(us.take(i as int), cached).push(universe@[i as int]@));
            }
            i = i + 1;
        }
        assert(names(universe@).take(universe@.len() as int) =~= names(universe@));
        r
    }

    /// What to write back after a run: nothing when the run found no new
    /// negatives (so the store keeps its age), else the loaded entries
    /// followed by the new ones.
    pub fn persist_plan(&self, new: &Vec<String>) -> (r: Option<String>)
        ensures
            new@.len() == 0 ==> r is None,
            new@.len() > 0 ==> (r matches Some(s) && s@ == join_lines(
                names(self.entries@) + names(new@),
            )),
    {
        if new.len() == 0 {
            return None;
        }
        let mut all: Vec<String> = Vec::new();
        let mut i: usize = 0;
        while i < self.entries.len()
            invariant
                i <= self.entries@.len(),
                names(all@) == names(self.entries@).take(i as int),
            decreases self.entries@.len() - i,
        {
            let x = self.entries[i].clone();
            assert(x@ == self.entries@[i as int]@);
            let ghost before = all@;
            all.push(x);
            assert(names(all@) =~= names(before).push(x@));
            assert(names(all@) =~= names(self.entries@).take(i + 1));
            i = i + 1;
        }
        let mut j: usize = 0;
        while j < new.len()
            invariant
                j <= new@.len(),
                names(all@) == names(self.entries@) + names(new@).take(j as int),
            decreases new@.len() - j,
        {
            let x = new[j].clone();
            assert(x@ == new@[j as int]@);
            let ghost before = all@;
            all.push(x);
            assert(names(all@) =~= names(before).push(x@));
            assert(names(all@) =~= names(self.entries@) + names(new@).take(j + 1));
            j = j + 1;
        }
        assert(names(self.entries@) =~= names(self.entries@).take(self.entries@.len() as int));
        assert(names(new@) =~= names(new@).take(new@.len() as int));
        Some(join_store(&all))
    }
}

/// Whether `x` is one of `v`.
pub fn contains_name(v: &Vec<String>, x: &String) -> (r: bool)
    ensures
        r == names(v@).contains(x@),
{
    let mut i: usize = 0;
    while i < v.len()
        invariant
            i <= v@.len(),
            forall|k: int| 0 <= k < i ==> v@[k]@ != x@,
        decreases v@.len() - i,
    {
        if v[i] == *x {
            assert(names(v@)[i as int] == x@);
            return true;
        }
        i = i + 1;
    }
    assert forall|k: int| 0 <= k < names(v@).len() implies names(v@)[k] != x@ by {
        assert(v@[k]@ != x@);
    }
    false
}

/// Reads the non-empty lines of a stored list.
pub fn parse_store(s: &str) -> (r: Vec<String>)
    ensures
        names(r@) == parse_lines(s@),
{
    let n = s.unicode_len();
    let mut lines: Vec<String> = Vec::new();
    let mut start: usize = 0;
    let mut i: usize = 0;
    while i < n
        invariant
            n == s@.len(),
            start <= i <= n,
            scan(s@.take(i as int)) == (names(lines@), s@.subrange(start as int, i as int)),
        decreases n - i,
    {
        let c = s.get_char(i);
        assert(s@.take(i + 1).drop_last() =~= s@.take(i as int));
        assert(s@.take(i + 1).last() == c);
        if c == '\n' {
            let e = line_end(s, start, i);
            if start < e {
                let line = String::from_str(s.substring_char(start, e));
                lines.push(line);
                assert(names(lines@) =~= push_line(
                    scan(s@.take(i as int)).0,
                    scan(s@.take(i as int)).1,
                ));
            }
            start = i + 1;
            assert(s@.subrange(start as int, i + 1) =~= seq![]);
        } else {
            assert(s@.subrange(start as int, i + 1) =~= s@.subrange(start as int, i as int).push(c));
        }
        i = i + 1;
    }
    assert(s@.take(n as int) =~= s@);
    let e = line_end(s, start, n);
    if start < e {
        let line = String::from_str(s.substring_char(start, e));
        lines.push(line);
        assert(names(lines@) =~= parse_lines(s@));
    } else {
        assert(s@.subrange(start as int, e as int) =~= seq![]);
    }
    lines
}

/// Where the line `s[start..end]` ends once its carriage returns are dropped.
fn line_end(s: &str, start: usize, end: usize) -> (e: usize)
    requires
        start <= end <= s@.len(),
    ensures
        start <= e <= end,
        s@.subrange(start as int, e as int) == strip_cr(s@.subrange(start as int, end as int)),
{
    let mut e = end;
    while e > start && s.get_char(e - 1) == '\r'
        invariant
            start <= e <= end <= s@.len(),
            strip_cr(s@.subrange(start as int, e as int)) == strip_cr(
                s@.subrange(start as int, end as int),
            ),
        decreases e,
    {
        assert(s@.subrange(start as int, e as int).drop_last() =~= s@.subrange(
            start as int,
            e - 1,
        ));
        e = e - 1;
    }
    if e > start {
        assert(s@.subrange(start as int, e as int).last() == s@[e - 1]);
    } else {
        assert(s@.subrange(start as int, e as int) =~= seq![]);
    }
    e
}

/// Writes identifiers one per line.
pub fn join_store(xs: &Vec<String>) -> (r: String)
    ensures
        r@ == join_lines(names(xs@)),
{
    let mut out = String::new();
    let mut k: usize = 0;
    while k < xs.len()
        invariant
            k <= xs@.len(),
            out@ == join_lines(names(xs@).take(k as int)),
        decreases xs@.len() - k,
    {
        let ghost prev = names(xs@).take(k as int);
        assert(names(xs@).take(k + 1).drop_last() =~= prev);
        if k > 0 {
            out.append("\n");
        }
        out.append(xs[k].as_str());
        proof {
            reveal_strlit("\n");
            if k == 0 {
                assert(out@ =~= join_lines(names(xs@).take(1)));
            } else {
                assert(out@ =~= join_lines(names(xs@).take(k + 1)));
            }
        }
        k = k + 1;
    }
    assert(names(xs@).take(xs@.len() as int) =~= names(xs@));
    out
}

} // verus!
