//! Run-length encoding of the stretches of a contig that no read covers.

use vstd::prelude::*;

verus! {

/// A closed-open interval `[start, end)` of positions on a contig.
#[derive(Clone, Copy, Debug, PartialEq, Eq, Structural)]
pub struct Interval {
    pub start: usize,
    pub end: usize,
}

impl Interval {
    /// Whether position `p` lies in the interval.
    pub open spec fn contains(self, p: int) -> bool {
        self.start <= p < self.end
    }

    /// The number of positions in the interval.
    pub open spec fn span(self) -> int {
        self.end - self.start
    }

    /// The number of positions in the interval.
    pub fn len(&self) -> (n: usize)
        requires
            self.start <= self.end,
        ensures
            n == self.span(),
    {
        self.end - self.start
    }
}

/// The coverage counters as mathematical numbers.
pub open spec fn counts(coverage: Seq<u32>) -> Seq<nat> {
    Seq::new(coverage.len(), |p: int| coverage[p] as nat)
}

/// Whether `run` is a maximal stretch of zero coverage: it is not empty,
/// every position in it has coverage 0, and it cannot be extended on
/// either side.
pub open spec fn is_zero_run(coverage: Seq<nat>, run: Interval) -> bool {
    &&& run.start < run.end <= coverage.len()
    &&& forall|p: int| run.start <= p < run.end ==> #[trigger] coverage[p] == 0
    &&& run.start > 0 ==> coverage[run.start - 1] > 0
    &&& run.end < coverage.len() ==> coverage[run.end as int] > 0
}

/// Whether one of `runs` holds position `p`.
pub open spec fn in_some_run(runs: Seq<Interval>, p: int) -> bool {
    exists|k: int| 0 <= k < runs.len() && #[trigger] runs[k].contains(p)
}

/// Whether `runs` are the zero-coverage intervals of `coverage`: each is a
/// maximal stretch of zero coverage, they come in ascending order without
/// overlap, and together they hold every position of coverage 0.
pub open spec fn tiles_zero_coverage(coverage: Seq<nat>, runs: Seq<Interval>) -> bool {
    &&& forall|k: int| 0 <= k < runs.len() ==> is_zero_run(coverage, #[trigger] runs[k])
    &&& forall|k: int, l: int|
        0 <= k < l < runs.len() ==> (#[trigger] runs[k]).end <= (#[trigger] runs[l]).start
    &&& forall|p: int|
        0 <= p < coverage.len() && coverage[p] == 0 ==> #[trigger] in_some_run(runs, p)
}

/// The summed length of the first `n` of `runs`.
pub open spec fn total_span(runs: Seq<Interval>, n: int) -> int
    decreases n,
{
    if n <= 0 {
        0
    } else {
        total_span(runs, n - 1) + runs[n - 1].span()
    }
}

/// How many of the first `n` positions have coverage above 0.
pub open spec fn covered_count(coverage: Seq<nat>, n: int) -> int
    decreases n,
{
    if n <= 0 {
        0
    } else {
        covered_count(coverage, n - 1) + if coverage[n - 1] > 0 {
            1int
        } else {
            0int
        }
    }
}

/// The zero-coverage intervals of a coverage array, in ascending order.
///
/// A contig covered everywhere gives no interval, one covered nowhere gives
/// the single interval over all of it. The lengths of the intervals and the
/// number of covered positions add up to the contig length.
pub fn zero_intervals(coverage: &[u32]) -> (runs: Vec<Interval>)
    ensures
        tiles_zero_coverage(counts(coverage@), runs@),
        total_span(runs@, runs@.len() as int) + covered_count(
            counts(coverage@),
            coverage@.len() as int,
        ) == coverage@.len(),
{
    let ghost cov = counts(coverage@);
    let mut runs: Vec<Interval> = Vec::new();
    let mut in_window = false;
    let mut window_start: usize = 0;
    let mut pos: usize = 0;
    while pos < coverage.len()
        invariant
            cov == counts(coverage@),
            pos <= coverage.len(),
            in_window ==> window_start < pos,
            in_window ==> forall|p: int| window_start <= p < pos ==> #[trigger] cov[p] == 0,
            in_window && window_start > 0 ==> cov[window_start - 1] > 0,
            !in_window && pos > 0 ==> cov[pos - 1] > 0,
            forall|k: int| 0 <= k < runs@.len() ==> is_zero_run(cov, #[trigger] runs@[k]),
            forall|k: int|
                0 <= k < runs@.len() ==> (#[trigger] runs@[k]).end < (if in_window {
                    window_start
                } else {
                    pos
                }),
            forall|k: int, l: int|
                0 <= k < l < runs@.len() ==> (#[trigger] runs@[k]).end <= (
                #[trigger] runs@[l]).start,
            forall|p: int|
                0 <= p < pos && cov[p] == 0 && !(in_window && window_start <= p)
                    ==> #[trigger] in_some_run(runs@, p),
        decreases coverage.len() - pos,
    {
        let c = coverage[pos];
        if c == 0 && !in_window {
            window_start = pos;
            in_window = true;
        } else if c > 0 && in_window {
            let ghost earlier = runs@;
            let run = Interval { start: window_start, end: pos };
            runs.push(run);
            in_window = false;
            proof {
                assert forall|p: int|
                    0 <= p < pos + 1 && cov[p] == 0 implies #[trigger] in_some_run(runs@, p) by {
                    if window_start <= p {
                        assert(runs@[earlier.len() as int].contains(p));
                    } else {
                        assert(in_some_run(earlier, p));
                        lemma_push_keeps_runs(earlier, run, p);
                    }
                }
            }
        }
        pos += 1;
    }
    if in_window {
        let ghost earlier = runs@;
        let run = Interval { start: window_start, end: coverage.len() };
        runs.push(run);
        proof {
            assert forall|p: int| 0 <= p < cov.len() && cov[p] == 0 implies #[trigger] in_some_run(
                runs@,
                p,
            ) by {
                if window_start <= p {
                    assert(runs@[earlier.len() as int].contains(p));
                } else {
                    assert(in_some_run(earlier, p));
                    lemma_push_keeps_runs(earlier, run, p);
                }
            }
        }
    }
    proof {
        lemma_tiling_adds_up(cov, runs@);
    }
    runs
}

/// Appending a run adds its length to the total.
proof fn lemma_push_run(runs: Seq<Interval>, run: Interval)
    ensures
        total_span(runs.push(run), runs.len() as int + 1) == total_span(runs, runs.len() as int)
            + run.span(),
{
    lemma_total_span_prefix(runs, run, runs.len() as int);
}

/// The total over the first `n` runs does not depend on what follows them.
proof fn lemma_total_span_prefix(runs: Seq<Interval>, run: Interval, n: int)
    requires
        0 <= n <= runs.len(),
    ensures
        total_span(runs.push(run), n) == total_span(runs, n),
    decreases n,
{
    if n > 0 {
        lemma_total_span_prefix(runs, run, n - 1);
    }
}

/// A position held by one of `runs` is still held after a run is appended.
proof fn lemma_push_keeps_runs(runs: Seq<Interval>, run: Interval, p: int)
    requires
        in_some_run(runs, p),
    ensures
        in_some_run(runs.push(run), p),
{
    let k = choose|k: int| 0 <= k < runs.len() && #[trigger] runs[k].contains(p);
    assert(runs.push(run)[k].contains(p));
}

/// A position of zero coverage lies in one maximal stretch only.
pub proof fn lemma_zero_run_unique(coverage: Seq<nat>, a: Interval, b: Interval, p: int)
    requires
        is_zero_run(coverage, a),
        is_zero_run(coverage, b),
        a.contains(p),
        b.contains(p),
    ensures
        a == b,
{
    if a.start < b.start {
        assert(coverage[b.start - 1] == 0);
    }
    if b.start < a.start {
        assert(coverage[a.start - 1] == 0);
    }
    if a.end < b.end {
        assert(coverage[a.end as int] == 0);
    }
    if b.end < a.end {
        assert(coverage[b.end as int] == 0);
    }
}

/// Two intervals of a report are kept apart by a covered position.
pub proof fn lemma_runs_are_apart(coverage: Seq<nat>, runs: Seq<Interval>, k: int, l: int)
    requires
        tiles_zero_coverage(coverage, runs),
        0 <= k < l < runs.len(),
    ensures
        runs[k].end < runs[l].start,
{
    assert(is_zero_run(coverage, runs[k]));
    assert(is_zero_run(coverage, runs[l]));
    if runs[k].end == runs[l].start {
        assert(coverage[runs[l].start as int] == 0);
    }
}

/// The zero-coverage intervals of a coverage array are determined by it:
/// two reports of the same array are equal.
pub proof fn lemma_tiling_unique(coverage: Seq<nat>, a: Seq<Interval>, b: Seq<Interval>)
    requires
        tiles_zero_coverage(coverage, a),
        tiles_zero_coverage(coverage, b),
    ensures
        a == b,
    decreases a.len(),
{
    if a.len() == 0 {
        if b.len() > 0 {
            lemma_last_run_is_shared(coverage, b, a);
        }
    } else {
        lemma_last_run_is_shared(coverage, a, b);
        lemma_tiling_without_last(coverage, a);
        lemma_tiling_without_last(coverage, b);
        lemma_tiling_unique(coverage.take(a.last().start as int), a.drop_last(), b.drop_last());
        assert(a =~= a.drop_last().push(a.last()));
        assert(b =~= b.drop_last().push(b.last()));
    }
    assert(a =~= b);
}

/// The last interval of a report is the last interval of every report of the
/// same array.
proof fn lemma_last_run_is_shared(coverage: Seq<nat>, a: Seq<Interval>, b: Seq<Interval>)
    requires
        tiles_zero_coverage(coverage, a),
        tiles_zero_coverage(coverage, b),
        a.len() > 0,
    ensures
        b.len() > 0,
        a.last() == b.last(),
{
    let last = a.last();
    assert(is_zero_run(coverage, last));
    assert(coverage[last.start as int] == 0);
    assert(in_some_run(b, last.start as int));
    let j = choose|j: int| 0 <= j < b.len() && #[trigger] b[j].contains(last.start as int);
    assert(is_zero_run(coverage, b[j]));
    lemma_zero_run_unique(coverage, last, b[j], last.start as int);
    if j < b.len() - 1 {
        let other = b.last();
        assert(is_zero_run(coverage, other));
        lemma_runs_are_apart(coverage, b, j, b.len() - 1);
        assert(coverage[other.start as int] == 0);
        assert(in_some_run(a, other.start as int));
        let i = choose|i: int| 0 <= i < a.len() && #[trigger] a[i].contains(other.start as int);
        assert(is_zero_run(coverage, a[i]));
        lemma_zero_run_unique(coverage, other, a[i], other.start as int);
        if i < a.len() - 1 {
            lemma_runs_are_apart(coverage, a, i, a.len() - 1);
        }
    }
}

/// Without its last interval, a report is the report of the array before
/// that interval.
proof fn lemma_tiling_without_last(coverage: Seq<nat>, runs: Seq<Interval>)
    requires
        tiles_zero_coverage(coverage, runs),
        runs.len() > 0,
    ensures
        tiles_zero_coverage(coverage.take(runs.last().start as int), runs.drop_last()),
{
    let last = runs.last();
    let before = coverage.take(last.start as int);
    let rest = runs.drop_last();
    assert(is_zero_run(coverage, last));
    assert forall|k: int| 0 <= k < rest.len() implies is_zero_run(before, #[trigger] rest[k]) by {
        assert(rest[k] == runs[k]);
        assert(is_zero_run(coverage, runs[k]));
        lemma_runs_are_apart(coverage, runs, k, runs.len() - 1);
        assert forall|p: int| rest[k].start <= p < rest[k].end implies #[trigger] before[p]
            == 0 by {
            assert(coverage[p] == 0);
        }
    }
    assert forall|k: int, l: int| 0 <= k < l < rest.len() implies (#[trigger] rest[k]).end <= (
    #[trigger] rest[l]).start by {
        assert(rest[k] == runs[k] && rest[l] == runs[l]);
    }
    assert forall|p: int| 0 <= p < before.len() && before[p] == 0 implies #[trigger] in_some_run(
        rest,
        p,
    ) by {
        assert(coverage[p] == 0);
        assert(in_some_run(runs, p));
        let k = choose|k: int| 0 <= k < runs.len() && #[trigger] runs[k].contains(p);
        assert(rest[k].contains(p));
    }
}

/// Round trip: the lengths of the zero-coverage intervals of an array and
/// the number of its covered positions add up to its length.
pub proof fn lemma_tiling_adds_up(coverage: Seq<nat>, runs: Seq<Interval>)
    requires
        tiles_zero_coverage(coverage, runs),
    ensures
        total_span(runs, runs.len() as int) + covered_count(coverage, coverage.len() as int)
            == coverage.len(),
    decreases runs.len(),
{
    let n = coverage.len() as int;
    if runs.len() == 0 {
        assert forall|p: int| 0 <= p < n implies #[trigger] coverage[p] > 0 by {
            if coverage[p] == 0 {
                assert(in_some_run(runs, p));
            }
        }
        lemma_covered_stretch(coverage, 0, n);
    } else {
        let last = runs.last();
        let rest = runs.drop_last();
        let before = coverage.take(last.start as int);
        assert(is_zero_run(coverage, last));
        lemma_tiling_without_last(coverage, runs);
        lemma_tiling_adds_up(before, rest);
        lemma_covered_count_prefix(coverage, before, last.start as int);
        lemma_zero_stretch(coverage, last.start as int, last.end as int);
        assert forall|p: int| last.end <= p < n implies #[trigger] coverage[p] > 0 by {
            if coverage[p] == 0 {
                assert(in_some_run(runs, p));
                let k = choose|k: int| 0 <= k < runs.len() && #[trigger] runs[k].contains(p);
                if k < runs.len() - 1 {
                    lemma_runs_are_apart(coverage, runs, k, runs.len() - 1);
                }
            }
        }
        lemma_covered_stretch(coverage, last.end as int, n);
        assert(runs =~= rest.push(last));
        lemma_push_run(rest, last);
    }
}

/// The count over the first `n` positions does not depend on the positions
/// after them.
proof fn lemma_covered_count_prefix(coverage: Seq<nat>, before: Seq<nat>, n: int)
    requires
        0 <= n <= before.len() <= coverage.len(),
        forall|p: int| 0 <= p < before.len() ==> before[p] == coverage[p],
    ensures
        covered_count(before, n) == covered_count(coverage, n),
    decreases n,
{
    if n > 0 {
        lemma_covered_count_prefix(coverage, before, n - 1);
    }
}

/// Over a stretch of zero coverage the count of covered positions stands
/// still.
proof fn lemma_zero_stretch(coverage: Seq<nat>, start: int, end: int)
    requires
        0 <= start <= end <= coverage.len(),
        forall|p: int| start <= p < end ==> #[trigger] coverage[p] == 0,
    ensures
        covered_count(coverage, end) == covered_count(coverage, start),
    decreases end - start,
{
    if start < end {
        lemma_zero_stretch(coverage, start, end - 1);
    }
}

/// Over a stretch without zero coverage the count of covered positions
/// grows by the length of the stretch.
proof fn lemma_covered_stretch(coverage: Seq<nat>, start: int, end: int)
    requires
        0 <= start <= end <= coverage.len(),
        forall|p: int| start <= p < end ==> #[trigger] coverage[p] > 0,
    ensures
        covered_count(coverage, end) == covered_count(coverage, start) + (end - start),
    decreases end - start,
{
    if start < end {
        lemma_covered_stretch(coverage, start, end - 1);
    }
}

} // verus!
