use vstd::prelude::*;

use crate::cell::Cell;

verus! {

/// Sum of the run lengths.
pub open spec fn run_total(runs: Seq<usize>) -> int
    decreases runs.len(),
{
    if runs.len() == 0 {
        0
    } else {
        run_total(runs.drop_last()) + runs.last()
    }
}

/// The fewest cells that hold the runs in order, one empty cell between
/// neighbours: `sum(runs) + len(runs) - 1`.
pub open spec fn min_span(runs: Seq<usize>) -> int {
    run_total(runs) + runs.len() - 1
}

/// Every run is at least one cell long.
pub open spec fn runs_positive(runs: Seq<usize>) -> bool {
    forall|i: int| 0 <= i < runs.len() ==> runs[i] > 0
}

/// Cell `j` lies in one of the runs, when run `i` starts at `starts[i]`.
pub open spec fn covered(runs: Seq<usize>, starts: Seq<usize>, j: int) -> bool {
    exists|i: int| 0 <= i < runs.len() && #[trigger] starts[i] <= j < starts[i] + runs[i]
}

/// The value at cell `j` of the pattern that a placement paints.
pub open spec fn pattern_cell(runs: Seq<usize>, starts: Seq<usize>, j: int) -> Cell {
    if covered(runs, starts, j) {
        Cell::Painted
    } else {
        Cell::Crossed
    }
}

/// A known cell and the pattern's value there do not contradict each other.
pub open spec fn compatible(known: Cell, painted: bool) -> bool {
    &&& known == Cell::Painted ==> painted
    &&& known == Cell::Crossed ==> !painted
}

/// `starts` places the runs, in order, inside the first `w` cells of `line`:
/// each run fits, runs keep at least one empty cell between them, and the
/// pattern they paint over those cells contradicts no known cell.
pub open spec fn placed_within(runs: Seq<usize>, line: Seq<Cell>, w: int, starts: Seq<usize>) -> bool {
    &&& starts.len() == runs.len()
    &&& forall|i: int| 0 <= i < runs.len() ==> starts[i] + runs[i] <= w
    &&& forall|i: int, k: int| 0 <= i < k < runs.len() ==> starts[i] + runs[i] < starts[k]
    &&& forall|j: int| 0 <= j < w ==> compatible(line[j], covered(runs, starts, j))
}

/// `starts` is a placement of `runs` on the whole of `line`.
pub open spec fn is_placement(runs: Seq<usize>, line: Seq<Cell>, starts: Seq<usize>) -> bool {
    placed_within(runs, line, line.len() as int, starts)
}

/// Some cell in `line[from..to)` holds `c`.
pub open spec fn any_in(line: Seq<Cell>, from: int, to: int, c: Cell) -> bool {
    exists|j: int| from <= j < to && line[j] == c
}

/// The window left for the earlier runs once the last one starts at `b`:
/// the cell just before `b` is kept empty.
pub open spec fn window_before(b: int) -> int {
    if b == 0 {
        0
    } else {
        b - 1
    }
}

/// The run of length `len` may start at `b` as the last run inside the first
/// `w` cells: it fits, covers no crossed cell, leaves no painted cell after
/// it, and the cell before it is not painted.
pub open spec fn last_run_fits(line: Seq<Cell>, w: int, len: int, b: int) -> bool {
    &&& 0 <= b
    &&& b + len <= w
    &&& !any_in(line, b + len, w, Cell::Painted)
    &&& !any_in(line, b, b + len, Cell::Crossed)
    &&& b > 0 ==> line[b - 1] != Cell::Painted
}

pub proof fn lemma_covered_split(runs: Seq<usize>, starts: Seq<usize>, j: int)
    requires
        runs.len() > 0,
        starts.len() == runs.len(),
    ensures
        covered(runs, starts, j) <==> (covered(runs.drop_last(), starts.drop_last(), j)
            || (starts.last() <= j < starts.last() + runs.last())),
{
    let k = runs.len() - 1;
    if covered(runs, starts, j) {
        let i = choose|i: int| 0 <= i < runs.len() && #[trigger] starts[i] <= j < starts[i] + runs[i];
        if i < k {
            assert(runs.drop_last()[i] == runs[i] && starts.drop_last()[i] == starts[i]);
        }
    }
    if covered(runs.drop_last(), starts.drop_last(), j) {
        let i = choose|i: int| 0 <= i < runs.drop_last().len() && #[trigger] starts.drop_last()[i] <= j
            < starts.drop_last()[i] + runs.drop_last()[i];
        assert(starts[i] <= j < starts[i] + runs[i]);
    }
    if starts.last() <= j < starts.last() + runs.last() {
        assert(starts[k] <= j < starts[k] + runs[k]);
    }
}

/// With no runs left, a placement exists exactly when no cell of the window
/// is painted.
pub proof fn lemma_placed_empty(line: Seq<Cell>, w: int)
    requires
        0 <= w <= line.len(),
    ensures
        placed_within(Seq::empty(), line, w, Seq::empty()) <==> !any_in(line, 0, w, Cell::Painted),
{
    let e = Seq::<usize>::empty();
    assert forall|j: int| 0 <= j < w implies !covered(e, e, j) by {}
    if !any_in(line, 0, w, Cell::Painted) {
        assert forall|j: int| 0 <= j < w implies compatible(line[j], covered(e, e, j)) by {
            assert(line[j] != Cell::Painted);
        }
    }
    if placed_within(e, line, w, e) {
        assert forall|j: int| 0 <= j < w implies line[j] != Cell::Painted by {
            assert(compatible(line[j], covered(e, e, j)));
        }
    }
}

/// A placement of `runs` inside the first `w` cells is exactly a start for
/// the last run that fits there, followed by a placement of the other runs
/// in the window before it.
pub proof fn lemma_placed_split(runs: Seq<usize>, line: Seq<Cell>, w: int, starts: Seq<usize>)
    requires
        runs.len() > 0,
        runs_positive(runs),
        0 <= w <= line.len(),
        starts.len() == runs.len(),
    ensures
        placed_within(runs, line, w, starts) <==> (last_run_fits(
            line,
            w,
            runs.last() as int,
            starts.last() as int,
        ) && placed_within(
            runs.drop_last(),
            line,
            window_before(starts.last() as int),
            starts.drop_last(),
        )),
{
    let k = runs.len() - 1;
    let b = starts.last() as int;
    let len = runs.last() as int;
    let rs = runs.drop_last();
    let ss = starts.drop_last();
    let wb = window_before(b);
    assert forall|j: int| #![trigger covered(runs, starts, j)] true implies covered(runs, starts, j) <==> (
    covered(rs, ss, j) || (b <= j < b + len)) by {
        lemma_covered_split(runs, starts, j);
    }
    if placed_within(runs, line, w, starts) {
        assert forall|j: int| b + len <= j < w implies line[j] != Cell::Painted by {
            assert(compatible(line[j], covered(runs, starts, j)));
            if covered(rs, ss, j) {
                let i = choose|i: int| 0 <= i < rs.len() && #[trigger] ss[i] <= j < ss[i] + rs[i];
                assert(starts[i] + runs[i] < starts[k]);
            }
        }
        assert forall|j: int| b <= j < b + len implies line[j] != Cell::Crossed by {
            assert(compatible(line[j], covered(runs, starts, j)));
        }
        if b > 0 {
            let j = b - 1;
            assert(compatible(line[j], covered(runs, starts, j)));
            if covered(rs, ss, j) {
                let i = choose|i: int| 0 <= i < rs.len() && #[trigger] ss[i] <= j < ss[i] + rs[i];
                assert(starts[i] + runs[i] < starts[k]);
            }
        }
        assert(last_run_fits(line, w, len, b));
        if b == 0 && k > 0 {
            assert(starts[0] + runs[0] < starts[k]);
        }
        assert forall|i: int| 0 <= i < rs.len() implies ss[i] + rs[i] <= wb by {
            assert(starts[i] + runs[i] < starts[k]);
        }
        assert forall|j: int| 0 <= j < wb implies compatible(line[j], covered(rs, ss, j)) by {
            assert(compatible(line[j], covered(runs, starts, j)));
        }
        assert(placed_within(rs, line, wb, ss));
    }
    if last_run_fits(line, w, len, b) && placed_within(rs, line, wb, ss) {
        if k > 0 && b == 0 {
            assert(ss[0] + rs[0] <= 0);
        }
        assert forall|i: int| 0 <= i < runs.len() implies starts[i] + runs[i] <= w by {
            if i < k {
                assert(ss[i] + rs[i] <= wb);
            }
        }
        assert forall|i: int, i2: int| 0 <= i < i2 < runs.len() implies starts[i] + runs[i]
            < starts[i2] by {
            assert(ss[i] + rs[i] <= wb);
            if i2 < k {
                assert(ss[i] + rs[i] < ss[i2]);
            }
        }
        assert forall|j: int| 0 <= j < w implies compatible(line[j], covered(runs, starts, j)) by {
            if j < wb {
                assert(compatible(line[j], covered(rs, ss, j)));
                assert(!(b <= j < b + len));
            } else if j < b {
                if covered(rs, ss, j) {
                    let i = choose|i: int| 0 <= i < rs.len() && #[trigger] ss[i] <= j < ss[i] + rs[i];
                    assert(ss[i] + rs[i] <= wb);
                }
            } else if j < b + len {
                assert(!(line[j] == Cell::Crossed));
            } else {
                if covered(rs, ss, j) {
                    let i = choose|i: int| 0 <= i < rs.len() && #[trigger] ss[i] <= j < ss[i] + rs[i];
                    assert(ss[i] + rs[i] <= wb);
                }
                assert(!(line[j] == Cell::Painted));
            }
        }
    }
}


pub proof fn lemma_total_step(runs: Seq<usize>, i: int)
    requires
        0 <= i < runs.len(),
    ensures
        run_total(runs.take(i + 1)) == run_total(runs.take(i)) + runs[i],
{
    assert(runs.take(i + 1).drop_last() =~= runs.take(i));
}

/// The total of a prefix never exceeds the total of the whole.
pub proof fn lemma_total_prefix(runs: Seq<usize>, i: int)
    requires
        0 <= i <= runs.len(),
    ensures
        run_total(runs.take(i)) <= run_total(runs),
    decreases runs.len() - i,
{
    if i == runs.len() {
        assert(runs.take(i) =~= runs);
    } else {
        lemma_total_step(runs, i);
        lemma_total_prefix(runs, i + 1);
    }
}

} // verus!
