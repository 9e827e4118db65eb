use vstd::prelude::*;

use crate::cell::Cell;
use crate::placement::{
    compatible, covered, is_placement, lemma_total_step, min_span, pattern_cell, run_total,
    runs_positive,
};
use crate::enumerate::lists_placements;
use crate::reduce::{forced, has_placement, reports_forced};

verus! {

/// `line` with each reported update written in.
pub open spec fn applied(line: Seq<Cell>, updates: Seq<(usize, Cell)>) -> Seq<Cell> {
    Seq::new(
        line.len(),
        |j: int|
            if exists|i: int| 0 <= i < updates.len() && #[trigger] updates[i].0 == j {
                updates[choose|i: int| 0 <= i < updates.len() && #[trigger] updates[i].0 == j].1
            } else {
                line[j]
            },
    )
}

/// Writing forced values into a line keeps its placements: they all agree
/// with those values already.
pub proof fn lemma_applied_keeps_placements(
    runs: Seq<usize>,
    line: Seq<Cell>,
    updates: Seq<(usize, Cell)>,
    s: Seq<usize>,
)
    requires
        reports_forced(runs, line, updates),
    ensures
        is_placement(runs, line, s) <==> is_placement(runs, applied(line, updates), s),
{
    let line2 = applied(line, updates);
    let n = line.len() as int;
    if is_placement(runs, line, s) {
        assert forall|j: int| 0 <= j < n implies compatible(line2[j], covered(runs, s, j)) by {
            if exists|i: int| 0 <= i < updates.len() && #[trigger] updates[i].0 == j {
                let i = choose|i: int| 0 <= i < updates.len() && #[trigger] updates[i].0 == j;
                assert(forced(runs, line, j, updates[i].1));
                assert(pattern_cell(runs, s, j) == updates[i].1);
            } else {
                assert(compatible(line[j], covered(runs, s, j)));
            }
        }
    }
    if is_placement(runs, line2, s) {
        assert forall|j: int| 0 <= j < n implies compatible(line[j], covered(runs, s, j)) by {
            if exists|i: int| 0 <= i < updates.len() && #[trigger] updates[i].0 == j {
                let i = choose|i: int| 0 <= i < updates.len() && #[trigger] updates[i].0 == j;
                assert(line[updates[i].0 as int] == Cell::Undetermined);
            } else {
                assert(compatible(line2[j], covered(runs, s, j)));
            }
        }
    }
}

/// Resolving a line, writing in what was reported, and resolving again
/// reports nothing more: every reported value stands in the new line, and
/// no cell of it is reported a second time or given another value.
pub proof fn law_resolve_twice(
    runs: Seq<usize>,
    line: Seq<Cell>,
    first: Seq<(usize, Cell)>,
    second: Seq<(usize, Cell)>,
)
    requires
        reports_forced(runs, line, first),
        reports_forced(runs, applied(line, first), second),
    ensures
        forall|i: int| 0 <= i < first.len() ==> applied(line, first)[#[trigger] first[i].0 as int] == first[i].1,
        second.len() == 0,
{
    let line2 = applied(line, first);
    assert forall|i: int| 0 <= i < first.len() implies line2[#[trigger] first[i].0 as int] == first[i].1 by {
        let j = first[i].0 as int;
        assert(exists|i2: int| 0 <= i2 < first.len() && #[trigger] first[i2].0 == j);
        let i2 = choose|i2: int| 0 <= i2 < first.len() && #[trigger] first[i2].0 == j;
        if i2 < i {
            assert(first[i2].0 < first[i].0);
        } else if i < i2 {
            assert(first[i].0 < first[i2].0);
        }
    }
    if second.len() > 0 {
        let j = second[0].0 as int;
        let v = second[0].1;
        assert(line2[j] == Cell::Undetermined && forced(runs, line2, j, v));
        assert forall|s: Seq<usize>| #![trigger is_placement(runs, line, s)] true implies is_placement(runs, line, s)
            == is_placement(runs, line2, s) by {
            lemma_applied_keeps_placements(runs, line, first, s);
        }
        assert(has_placement(runs, line)) by {
            let s = choose|s: Seq<usize>| is_placement(runs, line2, s);
            assert(is_placement(runs, line, s));
        }
        assert(forced(runs, line, j, v));
        if exists|i: int| 0 <= i < first.len() && #[trigger] first[i].0 == j {
            let i = choose|i: int| 0 <= i < first.len() && #[trigger] first[i].0 == j;
            let s = choose|s: Seq<usize>| is_placement(runs, line2, s);
            assert(forced(runs, line, j, first[i].1));
            assert(pattern_cell(runs, s, j) == first[i].1);
            assert(line2[j] == first[i].1);
        } else {
            assert(line[j] == Cell::Undetermined);
            let i = choose|i: int| 0 <= i < first.len() && #[trigger] first[i] == (j as usize, v);
            assert(first[i].0 == j);
        }
    }
}

/// The placement with no slack: every run starts one cell after the end of
/// the one before it, the first at cell 0.
pub open spec fn tight_starts(runs: Seq<usize>) -> Seq<usize> {
    Seq::new(runs.len(), |i: int| (run_total(runs.take(i)) + i) as usize)
}

proof fn lemma_total_nonneg(runs: Seq<usize>)
    ensures
        run_total(runs) >= 0,
    decreases runs.len(),
{
    if runs.len() > 0 {
        lemma_total_nonneg(runs.drop_last());
    }
}

/// Runs of positive length push each later tight start past the end of an
/// earlier run.
proof fn lemma_tight_gap(runs: Seq<usize>, i: int, m: int)
    requires
        runs_positive(runs),
        0 <= i < m <= runs.len(),
    ensures
        run_total(runs.take(i)) + i + runs[i] + 1 <= run_total(runs.take(m)) + m,
    decreases m - i,
{
    lemma_total_step(runs, i);
    if m > i + 1 {
        lemma_tight_gap(runs, i + 1, m);
        lemma_total_step(runs, i + 1);
    }
}

/// A line exactly as long as the runs' minimum span has one placement at
/// most, the one with no slack; on a line whose known cells do not
/// contradict it (such as one with no known cell), it is a placement.
pub proof fn law_tight_fit(runs: Seq<usize>, line: Seq<Cell>)
    requires
        runs_positive(runs),
        min_span(runs) == line.len(),
        line.len() <= usize::MAX,
    ensures
        forall|s: Seq<usize>| is_placement(runs, line, s) ==> s == tight_starts(runs),
        (forall|j: int| 0 <= j < line.len() ==> compatible(line[j], covered(runs, tight_starts(runs), j)))
            ==> is_placement(runs, line, tight_starts(runs)),
{
    let k = runs.len() as int;
    let n = line.len() as int;
    let t = tight_starts(runs);
    assert(k > 0) by {
        lemma_total_nonneg(runs);
    }
    assert forall|i: int| 0 <= i < k implies run_total(#[trigger] runs.take(i)) + i >= 0 by {
        lemma_total_nonneg(runs.take(i));
    }
    assert(runs.take(k) =~= runs);
    lemma_total_step(runs, k - 1);
    assert forall|s: Seq<usize>| is_placement(runs, line, s) implies s == t by {
        assert forall|i: int| 0 <= i < k implies s[i] >= run_total(#[trigger] runs.take(i)) + i by {
            lemma_lower(runs, line, s, i);
        }
        assert forall|i: int| 0 <= i < k implies s[i] <= run_total(#[trigger] runs.take(i)) + i by {
            lemma_upper(runs, line, s, i);
        }
        assert(s =~= t);
    }
    assert forall|i: int| 0 <= i < k implies run_total(#[trigger] runs.take(i)) + i + runs[i] <= n by {
        if i < k - 1 {
            lemma_tight_gap(runs, i, k - 1);
        }
    }
    assert forall|i: int| 0 <= i < k implies t[i] == run_total(#[trigger] runs.take(i)) + i by {
        assert(run_total(runs.take(i)) + i + runs[i] <= n);
    }
    assert forall|i: int, m: int| 0 <= i < m < k implies t[i] + runs[i] < t[m] by {
        lemma_tight_gap(runs, i, m);
        lemma_total_nonneg(runs.take(i));
        lemma_total_nonneg(runs.take(m));
    }
}

proof fn lemma_lower(runs: Seq<usize>, line: Seq<Cell>, s: Seq<usize>, i: int)
    requires
        is_placement(runs, line, s),
        0 <= i < runs.len(),
    ensures
        s[i] >= run_total(runs.take(i)) + i,
    decreases i,
{
    if i == 0 {
        assert(runs.take(0) =~= Seq::<usize>::empty());
    } else {
        lemma_lower(runs, line, s, i - 1);
        lemma_total_step(runs, i - 1);
        assert(s[i - 1] + runs[i - 1] < s[i]);
    }
}

proof fn lemma_upper(runs: Seq<usize>, line: Seq<Cell>, s: Seq<usize>, i: int)
    requires
        is_placement(runs, line, s),
        min_span(runs) == line.len(),
        0 <= i < runs.len(),
    ensures
        s[i] <= run_total(runs.take(i)) + i,
    decreases runs.len() - i,
{
    let k = runs.len() as int;
    if i == k - 1 {
        assert(runs.take(k) =~= runs);
        lemma_total_step(runs, k - 1);
    } else {
        lemma_upper(runs, line, s, i + 1);
        lemma_total_step(runs, i);
        assert(s[i] + runs[i] < s[i + 1]);
    }
}

/// Sum of the gap sizes.
pub open spec fn gap_sum(gaps: Seq<int>) -> int
    decreases gaps.len(),
{
    if gaps.len() == 0 {
        0
    } else {
        gap_sum(gaps.drop_last()) + gaps.last()
    }
}

/// A way to share the `n - sum(runs)` empty cells of a line among the gap
/// before the first run, the gaps between runs, and the gap after the last:
/// none negative, each gap between two runs at least one cell.
pub open spec fn valid_gaps(runs: Seq<usize>, n: int, gaps: Seq<int>) -> bool {
    &&& gaps.len() == runs.len() + 1
    &&& forall|i: int| 0 <= i < gaps.len() ==> gaps[i] >= 0
    &&& forall|i: int| 0 < i < runs.len() ==> gaps[i] >= 1
    &&& gap_sum(gaps) + run_total(runs) == n
}

/// The start of each run when the gaps are laid out left to right: the
/// gaps up to and including the one before the run, plus the runs before it.
pub open spec fn starts_from_gaps(runs: Seq<usize>, gaps: Seq<int>) -> Seq<usize> {
    Seq::new(runs.len(), |i: int| (gap_sum(gaps.take(i + 1)) + run_total(runs.take(i))) as usize)
}

/// The pattern that `starts` paints agrees with every known cell of `line`.
pub open spec fn pattern_fits(runs: Seq<usize>, line: Seq<Cell>, starts: Seq<usize>) -> bool {
    forall|j: int| 0 <= j < line.len() ==> compatible(line[j], covered(runs, starts, j))
}

/// `starts` comes out of the plain search: some sharing of the empty cells
/// among the gaps gives it, and its pattern agrees with the line.
pub open spec fn found_by_gaps(runs: Seq<usize>, line: Seq<Cell>, starts: Seq<usize>) -> bool {
    exists|gaps: Seq<int>|
        valid_gaps(runs, line.len() as int, gaps) && #[trigger] starts_from_gaps(runs, gaps) == starts
            && pattern_fits(runs, line, starts)
}

proof fn lemma_gap_step(gaps: Seq<int>, i: int)
    requires
        0 <= i < gaps.len(),
    ensures
        gap_sum(gaps.take(i + 1)) == gap_sum(gaps.take(i)) + gaps[i],
{
    assert(gaps.take(i + 1).drop_last() =~= gaps.take(i));
}

proof fn lemma_gap_monotone(gaps: Seq<int>, a: int, b: int)
    requires
        0 <= a <= b <= gaps.len(),
        forall|i: int| 0 <= i < gaps.len() ==> gaps[i] >= 0,
    ensures
        gap_sum(gaps.take(a)) <= gap_sum(gaps.take(b)),
    decreases b - a,
{
    if a < b {
        lemma_gap_step(gaps, b - 1);
        lemma_gap_monotone(gaps, a, b - 1);
    }
}

proof fn lemma_total_monotone(runs: Seq<usize>, a: int, b: int)
    requires
        0 <= a <= b <= runs.len(),
    ensures
        run_total(runs.take(a)) <= run_total(runs.take(b)),
    decreases b - a,
{
    if a < b {
        lemma_total_step(runs, b - 1);
        lemma_total_monotone(runs, a, b - 1);
    }
}

proof fn lemma_gap_nonneg(gaps: Seq<int>, a: int)
    requires
        0 <= a <= gaps.len(),
        forall|i: int| 0 <= i < gaps.len() ==> gaps[i] >= 0,
    ensures
        gap_sum(gaps.take(a)) >= 0,
{
    lemma_gap_monotone(gaps, 0, a);
    assert(gaps.take(0) =~= Seq::<int>::empty());
}

/// The start of run `i` read off the gaps, before the cast to `usize`.
spec fn gap_start(runs: Seq<usize>, gaps: Seq<int>, i: int) -> int {
    gap_sum(gaps.take(i + 1)) + run_total(runs.take(i))
}

proof fn lemma_gap_layout(runs: Seq<usize>, n: int, gaps: Seq<int>, i: int, m: int)
    requires
        valid_gaps(runs, n, gaps),
        0 <= i < m < runs.len(),
    ensures
        gap_start(runs, gaps, i) + runs[i] < gap_start(runs, gaps, m),
{
    lemma_gap_step(gaps, i + 1);
    lemma_total_step(runs, i);
    lemma_gap_monotone(gaps, i + 2, m + 1);
    lemma_total_monotone(runs, i + 1, m);
}

proof fn lemma_gap_bound(runs: Seq<usize>, n: int, gaps: Seq<int>, i: int)
    requires
        valid_gaps(runs, n, gaps),
        0 <= i < runs.len(),
    ensures
        0 <= gap_start(runs, gaps, i),
        gap_start(runs, gaps, i) + runs[i] <= n,
{
    let k = runs.len() as int;
    lemma_total_step(runs, i);
    lemma_gap_monotone(gaps, i + 1, k + 1);
    lemma_total_monotone(runs, i + 1, k);
    lemma_gap_nonneg(gaps, i + 1);
    lemma_total_monotone(runs, 0, i);
    assert(runs.take(0) =~= Seq::<usize>::empty());
    assert(gaps.take(k + 1) =~= gaps);
    assert(runs.take(k) =~= runs);
}

/// The pruned search and the plain one find the same placements: a
/// sequence of starts is a placement exactly when some sharing of the empty
/// cells among the gaps gives it and its pattern agrees with the line.
pub proof fn law_search_matches_gaps(runs: Seq<usize>, line: Seq<Cell>, starts: Seq<usize>)
    requires
        line.len() <= usize::MAX,
    ensures
        is_placement(runs, line, starts) <==> found_by_gaps(runs, line, starts),
{
    let k = runs.len() as int;
    let n = line.len() as int;
    if found_by_gaps(runs, line, starts) {
        let gaps = choose|gaps: Seq<int>|
            valid_gaps(runs, n, gaps) && #[trigger] starts_from_gaps(runs, gaps) == starts
                && pattern_fits(runs, line, starts);
        assert forall|i: int| 0 <= i < k implies #[trigger] starts[i] == gap_start(runs, gaps, i) by {
            lemma_gap_bound(runs, n, gaps, i);
        }
        assert forall|i: int| 0 <= i < k implies starts[i] + runs[i] <= n by {
            lemma_gap_bound(runs, n, gaps, i);
        }
        assert forall|i: int, m: int| 0 <= i < m < k implies starts[i] + runs[i] < starts[m] by {
            lemma_gap_layout(runs, n, gaps, i, m);
        }
    }
    if is_placement(runs, line, starts) {
        let gaps = Seq::new(
            (k + 1) as nat,
            |i: int|
                if i == k {
                    if k == 0 {
                        n
                    } else {
                        n - starts[k - 1] - runs[k - 1]
                    }
                } else if i == 0 {
                    starts[0] as int
                } else {
                    starts[i] - starts[i - 1] - runs[i - 1]
                },
        );
        lemma_gaps_rebuild(runs, line, starts, gaps, k);
        assert forall|i: int| 0 <= i < k implies #[trigger] starts_from_gaps(runs, gaps)[i] == starts[i] by {
            lemma_gaps_rebuild(runs, line, starts, gaps, i);
        }
        assert(starts_from_gaps(runs, gaps) =~= starts);
        lemma_gaps_total(runs, line, starts, gaps);
    }
}

proof fn lemma_gaps_total(runs: Seq<usize>, line: Seq<Cell>, starts: Seq<usize>, gaps: Seq<int>)
    requires
        is_placement(runs, line, starts),
        gaps.len() == runs.len() + 1,
        forall|x: int| 0 <= x <= runs.len() ==> #[trigger] gaps[x] == if x == runs.len() {
            if runs.len() == 0 {
                line.len() as int
            } else {
                line.len() - starts[runs.len() - 1] - runs[runs.len() - 1]
            }
        } else if x == 0 {
            starts[0] as int
        } else {
            starts[x] - starts[x - 1] - runs[x - 1]
        },
    ensures
        valid_gaps(runs, line.len() as int, gaps),
{
    let k = runs.len() as int;
    let n = line.len() as int;
    lemma_gaps_rebuild(runs, line, starts, gaps, k);
    lemma_gap_step(gaps, k);
    assert(gaps.take(k + 1) =~= gaps);
    assert(runs.take(k) =~= runs);
    if k > 0 {
        lemma_gaps_rebuild(runs, line, starts, gaps, k - 1);
        lemma_total_step(runs, k - 1);
        assert(gaps[k] == n - starts[k - 1] - runs[k - 1]);
        assert(gap_sum(gaps) == gap_sum(gaps.take(k)) + gaps[k]);
    } else {
        assert(gaps.take(0) =~= Seq::<int>::empty());
        assert(gaps[0] == n);
    }
}

proof fn lemma_gaps_rebuild(runs: Seq<usize>, line: Seq<Cell>, starts: Seq<usize>, gaps: Seq<int>, i: int)
    requires
        is_placement(runs, line, starts),
        gaps.len() == runs.len() + 1,
        forall|x: int| 0 <= x <= runs.len() ==> #[trigger] gaps[x] == if x == runs.len() {
            if runs.len() == 0 {
                line.len() as int
            } else {
                line.len() - starts[runs.len() - 1] - runs[runs.len() - 1]
            }
        } else if x == 0 {
            starts[0] as int
        } else {
            starts[x] - starts[x - 1] - runs[x - 1]
        },
        0 <= i <= runs.len(),
    ensures
        forall|x: int| 0 <= x < gaps.len() ==> gaps[x] >= 0,
        forall|x: int| 0 < x < runs.len() ==> gaps[x] >= 1,
        i < runs.len() ==> gap_sum(gaps.take(i + 1)) + run_total(runs.take(i)) == starts[i],
    decreases i,
{
    let k = runs.len() as int;
    assert forall|x: int| 0 < x < k implies gaps[x] >= 1 by {
        assert(starts[x - 1] + runs[x - 1] < starts[x]);
    }
    assert forall|x: int| 0 <= x < gaps.len() implies gaps[x] >= 0 by {
        if x == k && k > 0 {
            assert(starts[k - 1] + runs[k - 1] <= line.len());
        } else if 0 < x < k {
            assert(gaps[x] >= 1);
        }
    }
    if i < k {
        if i == 0 {
            lemma_gap_step(gaps, 0);
            assert(gaps.take(0) =~= Seq::<int>::empty());
            assert(runs.take(0) =~= Seq::<usize>::empty());
        } else {
            lemma_gaps_rebuild(runs, line, starts, gaps, i - 1);
            lemma_gap_step(gaps, i);
            lemma_total_step(runs, i - 1);
        }
    }
}

/// There are patterns in `found`, and all of them hold `v` at cell `j`.
pub open spec fn all_agree(runs: Seq<usize>, found: Seq<Vec<usize>>, j: int, v: Cell) -> bool {
    &&& found.len() > 0
    &&& forall|m: int| 0 <= m < found.len() ==> pattern_cell(runs, #[trigger] found[m]@, j) == v
}

/// What the reducer reports is exactly what the enumerated patterns agree
/// on: each reported value stands in every pattern of the enumerated
/// placements, and each unknown cell on which they all agree is reported.
pub proof fn law_reports_match_patterns(
    runs: Seq<usize>,
    line: Seq<Cell>,
    found: Seq<Vec<usize>>,
    updates: Seq<(usize, Cell)>,
)
    requires
        lists_placements(runs, line, found),
        reports_forced(runs, line, updates),
    ensures
        forall|i: int, m: int| 0 <= i < updates.len() && 0 <= m < found.len() ==> pattern_cell(
            runs,
            #[trigger] found[m]@,
            (#[trigger] updates[i]).0 as int,
        ) == updates[i].1,
        forall|j: int, v: Cell|
            0 <= j < line.len() && line[j] == Cell::Undetermined && #[trigger] all_agree(runs, found, j, v)
                ==> exists|i: int|
                0 <= i < updates.len() && #[trigger] updates[i] == (j as usize, v),
{
    assert forall|i: int, m: int| 0 <= i < updates.len() && 0 <= m < found.len() implies pattern_cell(
        runs,
        #[trigger] found[m]@,
        (#[trigger] updates[i]).0 as int,
    ) == updates[i].1 by {
        assert(is_placement(runs, line, found[m]@));
        assert(forced(runs, line, updates[i].0 as int, updates[i].1));
    }
    assert forall|j: int, v: Cell|
        0 <= j < line.len() && line[j] == Cell::Undetermined && #[trigger] all_agree(runs, found, j, v)
            implies exists|i: int|
            0 <= i < updates.len() && #[trigger] updates[i] == (j as usize, v) by {
        assert(is_placement(runs, line, found[0]@));
        assert forall|s: Seq<usize>| is_placement(runs, line, s) implies pattern_cell(runs, s, j) == v by {
            let m = choose|m: int| 0 <= m < found.len() && #[trigger] found[m]@ == s;
        }
        assert(forced(runs, line, j, v));
    }
}

} // verus!
