use vstd::prelude::*;

use crate::cell::Cell;
use crate::NonoError;
use crate::placement::{
    any_in, is_placement, last_run_fits, lemma_placed_empty, lemma_placed_split,
    lemma_total_prefix, lemma_total_step, min_span, placed_within, run_total, runs_positive,
    window_before,
};

verus! {

/// Whether some cell of `existing[from..to)` holds `c`.
pub fn contains_cell(existing: &[Cell], from: usize, to: usize, c: Cell) -> (r: bool)
    requires
        from <= to <= existing@.len(),
    ensures
        r == any_in(existing@, from as int, to as int, c),
{
    let mut j: usize = from;
    while j < to
        invariant
            from <= j <= to <= existing@.len(),
            !any_in(existing@, from as int, j as int, c),
        decreases to - j,
    {
        if existing[j] == c {
            return true;
        }
        j = j + 1;
    }
    false
}

/// `p` with `b` added at its end.
fn with_last(p: &Vec<usize>, b: usize) -> (r: Vec<usize>)
    ensures
        r@ == p@.push(b),
{
    let mut r: Vec<usize> = Vec::new();
    let mut i: usize = 0;
    while i < p.len()
        invariant
            i <= p@.len(),
            r@ == p@.take(i as int),
        decreases p@.len() - i,
    {
        r.push(p[i]);
        i = i + 1;
        assert(r@ =~= p@.take(i as int));
    }
    assert(r@ =~= p@);
    r.push(b);
    r
}

/// Every placement of the first `k` runs of `constraint` inside the first
/// `w` cells of `existing`, each once, as the start of each run in order.
///
/// The last of those runs is tried at each start from the left; for each
/// start that fits, the earlier runs are placed in the window before it,
/// which keeps one empty cell between them.
#[verifier::rlimit(40)]
pub fn backtrack_painted_positions(constraint: &Vec<usize>, k: usize, existing: &[Cell], w: usize) -> (r: Vec<Vec<usize>>)
    requires
        k <= constraint@.len(),
        w <= existing@.len(),
        runs_positive(constraint@.take(k as int)),
    ensures
        forall|i: int| 0 <= i < r@.len() ==> placed_within(constraint@.take(k as int), existing@, w as int, #[trigger] r@[i]@),
        forall|s: Seq<usize>| placed_within(constraint@.take(k as int), existing@, w as int, s)
            ==> exists|i: int| 0 <= i < r@.len() && #[trigger] r@[i]@ == s,
        forall|i: int, m: int| 0 <= i < m < r@.len() ==> r@[i]@ != r@[m]@,
    decreases k,
{
    let ghost line = existing@;
    let ghost runs = constraint@.take(k as int);
    if k == 0 {
        proof {
            assert(runs =~= Seq::<usize>::empty());
            lemma_placed_empty(line, w as int);
            assert forall|s: Seq<usize>| placed_within(runs, line, w as int, s) implies s == Seq::<usize>::empty() by {
                assert(s =~= Seq::<usize>::empty());
            }
        }
        let mut r: Vec<Vec<usize>> = Vec::new();
        if !contains_cell(existing, 0, w, Cell::Painted) {
            let e: Vec<usize> = Vec::new();
            r.push(e);
            assert(r@[0]@ == Seq::<usize>::empty());
        }
        return r;
    }
    let len = constraint[k - 1];
    let ghost rest = constraint@.take(k - 1);
    proof {
        assert(runs.drop_last() =~= rest);
        assert(runs.last() == len);
        assert(len > 0);
        assert(runs_positive(rest));
    }
    let mut record: Vec<Vec<usize>> = Vec::new();
    for begin in 0..w
        invariant
            k > 0,
            k <= constraint@.len(),
            w <= existing@.len(),
            line == existing@,
            runs == constraint@.take(k as int),
            rest == constraint@.take(k - 1),
            runs.drop_last() == rest,
            runs.last() == len,
            len > 0,
            runs_positive(runs),
            runs_positive(rest),
            forall|i: int| 0 <= i < record@.len() ==> placed_within(runs, line, w as int, #[trigger] record@[i]@)
                && record@[i]@.last() < begin,
            forall|s: Seq<usize>| placed_within(runs, line, w as int, s) && s.last() < begin
                ==> exists|i: int| 0 <= i < record@.len() && #[trigger] record@[i]@ == s,
            forall|i: int, m: int| 0 <= i < m < record@.len() ==> record@[i]@ != record@[m]@,
    {
        let fits = len <= w - begin && !contains_cell(existing, begin + len, w, Cell::Painted)
            && !contains_cell(existing, begin, begin + len, Cell::Crossed)
            && !(begin > 0 && existing[begin - 1] == Cell::Painted);
        assert(fits == last_run_fits(line, w as int, len as int, begin as int));
        if !fits {
            assert forall|s: Seq<usize>| placed_within(runs, line, w as int, s) && s.last() < begin + 1
                implies exists|i: int| 0 <= i < record@.len() && #[trigger] record@[i]@ == s by {
                lemma_placed_split(runs, line, w as int, s);
            }
        } else {
            let wb: usize = if begin == 0 { 0 } else { begin - 1 };
            assert(wb == window_before(begin as int));
            let sub = backtrack_painted_positions(constraint, k - 1, existing, wb);
            let ghost old_len = record@.len();
            let ghost old_record = record@;
            let mut t: usize = 0;
            while t < sub.len()
                invariant
                    t <= sub@.len(),
                    record@.len() == old_len + t,
                    old_record.len() == old_len,
                    forall|i: int| 0 <= i < old_len ==> #[trigger] record@[i] == old_record[i],
                    forall|i: int| 0 <= i < t ==> #[trigger] record@[old_len + i]@ == sub@[i]@.push(begin),
                    forall|i: int| 0 <= i < sub@.len() ==> placed_within(rest, line, wb as int, #[trigger] sub@[i]@),
                    forall|i: int, m: int| 0 <= i < m < sub@.len() ==> sub@[i]@ != sub@[m]@,
                    forall|i: int| 0 <= i < old_len ==> placed_within(runs, line, w as int, #[trigger] old_record[i]@)
                        && old_record[i]@.last() < begin,
                    forall|i: int, m: int| 0 <= i < m < old_len ==> old_record[i]@ != old_record[m]@,
                    last_run_fits(line, w as int, len as int, begin as int),
                    wb == window_before(begin as int),
                    runs.drop_last() == rest,
                    runs.last() == len,
                    runs_positive(runs),
                    k > 0,
                    k <= constraint@.len(),
                    runs == constraint@.take(k as int),
                    w <= existing@.len(),
                    line == existing@,
                    begin < w,
                decreases sub@.len() - t,
            {
                let q = with_last(&sub[t], begin);
                record.push(q);
                t = t + 1;
            }
            proof {
                assert forall|i: int| 0 <= i < record@.len() implies placed_within(runs, line, w as int, #[trigger] record@[i]@)
                    && record@[i]@.last() < begin + 1 by {
                    if i >= old_len {
                        let q = record@[i]@;
                        assert(record@[old_len + (i - old_len)]@ == sub@[i - old_len]@.push(begin));
                        assert(q == sub@[i - old_len]@.push(begin));
                        assert(q.drop_last() =~= sub@[i - old_len]@);
                        lemma_placed_split(runs, line, w as int, q);
                    }
                }
                assert forall|s: Seq<usize>| placed_within(runs, line, w as int, s) && s.last() < begin + 1
                    implies exists|i: int| 0 <= i < record@.len() && #[trigger] record@[i]@ == s by {
                    if s.last() < begin {
                        let i = choose|i: int| 0 <= i < old_len && #[trigger] old_record[i]@ == s;
                        assert(record@[i]@ == s);
                    } else {
                        lemma_placed_split(runs, line, w as int, s);
                        let i = choose|i: int| 0 <= i < sub@.len() && #[trigger] sub@[i]@ == s.drop_last();
                        assert(record@[old_len + i]@ =~= s);
                    }
                }
                assert forall|i: int, m: int| 0 <= i < m < record@.len() implies record@[i]@ != record@[m]@ by {
                    if m >= old_len {
                        assert(record@[old_len + (m - old_len)]@ == sub@[m - old_len]@.push(begin));
                        assert(record@[m]@.last() == begin);
                        if i >= old_len {
                            assert(record@[old_len + (i - old_len)]@ == sub@[i - old_len]@.push(begin));
                            assert(record@[i]@.drop_last() =~= sub@[i - old_len]@);
                            assert(record@[m]@.drop_last() =~= sub@[m - old_len]@);
                        }
                    }
                }
            }
        }
    }
    proof {
        assert forall|s: Seq<usize>| placed_within(runs, line, w as int, s)
            implies exists|i: int| 0 <= i < record@.len() && #[trigger] record@[i]@ == s by {
            assert(s[k - 1] + runs[k - 1] <= w);
        }
    }
    record
}


/// `found` holds each placement of `runs` on `line` exactly once, and
/// nothing else.
pub open spec fn lists_placements(runs: Seq<usize>, line: Seq<Cell>, found: Seq<Vec<usize>>) -> bool {
    &&& forall|i: int| 0 <= i < found.len() ==> is_placement(runs, line, #[trigger] found[i]@)
    &&& forall|s: Seq<usize>| is_placement(runs, line, s)
        ==> exists|i: int| 0 <= i < found.len() && #[trigger] found[i]@ == s
    &&& forall|i: int, m: int| 0 <= i < m < found.len() ==> found[i]@ != found[m]@
}

/// Whether every run is at least one cell long.
fn all_positive(constraint: &Vec<usize>) -> (r: bool)
    ensures
        r == runs_positive(constraint@),
{
    let mut i: usize = 0;
    while i < constraint.len()
        invariant
            i <= constraint@.len(),
            forall|j: int| 0 <= j < i ==> constraint@[j] > 0,
        decreases constraint@.len() - i,
    {
        if constraint[i] == 0 {
            return false;
        }
        i = i + 1;
    }
    true
}

/// Whether the runs, with one empty cell between neighbours, fit in `n`
/// cells.
fn span_fits(constraint: &Vec<usize>, n: usize) -> (r: bool)
    ensures
        r == (min_span(constraint@) <= n),
{
    let ghost c = constraint@;
    let mut room: usize = n;
    let mut i: usize = 0;
    while i < constraint.len()
        invariant
            i <= c.len(),
            c == constraint@,
            i == 0 ==> room == n,
            i > 0 ==> room == n - (run_total(c.take(i as int)) + i - 1),
            room <= n,
        decreases c.len() - i,
    {
        proof {
            lemma_total_step(c, i as int);
        }
        let need = constraint[i];
        if i > 0 {
            if room == 0 || need > room - 1 {
                proof {
                    lemma_total_prefix(c, i as int + 1);
                }
                return false;
            }
            room = room - 1 - need;
        } else {
            if need > room {
                proof {
                    lemma_total_prefix(c, 1);
                }
                return false;
            }
            room = room - need;
        }
        i = i + 1;
    }
    proof {
        assert(c.take(c.len() as int) =~= c);
    }
    true
}

/// Every placement of the runs of `constraint` on `existing`, each once,
/// as the start of each run in order.
///
/// A run of length zero is refused with `InputError`; runs that cannot fit
/// in the line even with no slack are refused with `Overconstrained`. A line
/// whose known cells admit no placement gives an empty list.
pub fn find_paintable_positions(constraint: &Vec<usize>, existing: &[Cell]) -> (r: Result<Vec<Vec<usize>>, NonoError>)
    ensures
        r is Ok <==> runs_positive(constraint@) && min_span(constraint@) <= existing@.len(),
        r == Err::<Vec<Vec<usize>>, NonoError>(NonoError::InputError) <==> !runs_positive(constraint@),
        r == Err::<Vec<Vec<usize>>, NonoError>(NonoError::Overconstrained) <==> runs_positive(constraint@)
            && min_span(constraint@) > existing@.len(),
        r matches Ok(v) ==> lists_placements(constraint@, existing@, v@),
{
    if !all_positive(constraint) {
        return Err(NonoError::InputError);
    }
    if !span_fits(constraint, existing.len()) {
        return Err(NonoError::Overconstrained);
    }
    proof {
        assert(constraint@.take(constraint@.len() as int) =~= constraint@);
    }
    let v = backtrack_painted_positions(constraint, constraint.len(), existing, existing.len());
    assert forall|s: Seq<usize>| is_placement(constraint@, existing@, s)
        implies exists|i: int| 0 <= i < v@.len() && #[trigger] v@[i]@ == s by {
        assert(placed_within(constraint@.take(constraint@.len() as int), existing@, existing@.len() as int, s));
    }
    Ok(v)
}

} // verus!
