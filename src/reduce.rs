use vstd::prelude::*;

use crate::cell::Cell;
use crate::enumerate::{find_paintable_positions, lists_placements};
use crate::placement::{covered, is_placement, lemma_covered_split, min_span, pattern_cell, runs_positive};
use crate::NonoError;

verus! {

/// At least one placement of `runs` fits `line`.
pub open spec fn has_placement(runs: Seq<usize>, line: Seq<Cell>) -> bool {
    exists|s: Seq<usize>| is_placement(runs, line, s)
}

/// Some placement fits `line`, and every placement's pattern holds `v` at
/// cell `j`.
pub open spec fn forced(runs: Seq<usize>, line: Seq<Cell>, j: int, v: Cell) -> bool {
    &&& has_placement(runs, line)
    &&& forall|s: Seq<usize>| is_placement(runs, line, s) ==> pattern_cell(runs, s, j) == v
}

/// `updates` lists, by increasing index and each once, every cell of `line`
/// that is still unknown and that all placements agree on, with the value
/// they agree on; and nothing else.
pub open spec fn reports_forced(runs: Seq<usize>, line: Seq<Cell>, updates: Seq<(usize, Cell)>) -> bool {
    &&& forall|i: int| 0 <= i < updates.len() ==> {
        &&& (#[trigger] updates[i]).0 < line.len()
        &&& line[updates[i].0 as int] == Cell::Undetermined
        &&& forced(runs, line, updates[i].0 as int, updates[i].1)
    }
    &&& forall|i: int, m: int| 0 <= i < m < updates.len() ==> updates[i].0 < updates[m].0
    &&& forall|j: int, v: Cell| 0 <= j < line.len() && line[j] == Cell::Undetermined
        && #[trigger] forced(runs, line, j, v) ==> exists|i: int| 0 <= i < updates.len()
        && #[trigger] updates[i] == (j as usize, v)
}

/// The full line that a placement paints: its runs painted, every other
/// cell crossed.
pub fn pattern_of(constraint: &Vec<usize>, starts: &Vec<usize>, n: usize) -> (r: Vec<Cell>)
    requires
        starts@.len() == constraint@.len(),
        forall|i: int| 0 <= i < constraint@.len() ==> starts@[i] + constraint@[i] <= n,
    ensures
        r@.len() == n,
        forall|j: int| 0 <= j < n ==> r@[j] == pattern_cell(constraint@, starts@, j),
{
    let ghost c = constraint@;
    let ghost st = starts@;
    let mut pattern: Vec<Cell> = Vec::new();
    let mut j: usize = 0;
    while j < n
        invariant
            j <= n,
            pattern@.len() == j,
            forall|x: int| 0 <= x < j ==> pattern@[x] == Cell::Crossed,
        decreases n - j,
    {
        pattern.push(Cell::Crossed);
        j = j + 1;
    }
    let mut i: usize = 0;
    while i < constraint.len()
        invariant
            i <= c.len(),
            c == constraint@,
            st == starts@,
            st.len() == c.len(),
            forall|x: int| 0 <= x < c.len() ==> st[x] + c[x] <= n,
            pattern@.len() == n,
            forall|x: int| 0 <= x < n ==> (pattern@[x] == Cell::Painted <==> covered(
                c.take(i as int),
                st.take(i as int),
                x,
            )),
            forall|x: int| 0 <= x < n ==> pattern@[x] == Cell::Painted || pattern@[x] == Cell::Crossed,
        decreases c.len() - i,
    {
        let b = starts[i];
        let len = constraint[i];
        let mut d: usize = 0;
        while d < len
            invariant
                i < c.len(),
                c == constraint@,
                st == starts@,
                b == st[i as int],
                len == c[i as int],
                b + len <= n,
                d <= len,
                pattern@.len() == n,
                forall|x: int| 0 <= x < n ==> (pattern@[x] == Cell::Painted <==> (covered(
                    c.take(i as int),
                    st.take(i as int),
                    x,
                ) || (b <= x < b + d))),
                forall|x: int| 0 <= x < n ==> pattern@[x] == Cell::Painted || pattern@[x] == Cell::Crossed,
            decreases len - d,
        {
            pattern.set(b + d, Cell::Painted);
            d = d + 1;
        }
        proof {
            let c1 = c.take(i + 1);
            let s1 = st.take(i + 1);
            assert(c1.drop_last() =~= c.take(i as int));
            assert(s1.drop_last() =~= st.take(i as int));
            assert forall|x: int| 0 <= x < n implies (pattern@[x] == Cell::Painted <==> covered(c1, s1, x)) by {
                lemma_covered_split(c1, s1, x);
            }
        }
        i = i + 1;
    }
    proof {
        assert(c.take(c.len() as int) =~= c);
        assert(st.take(c.len() as int) =~= st);
    }
    pattern
}

/// Clears each flag that `pattern` disagrees with: a painted cell can no
/// longer be forced crossed, a crossed one no longer forced painted.
fn clear_disagreeing(pattern: &Vec<Cell>, fixed_crossed: &mut Vec<bool>, fixed_painted: &mut Vec<bool>)
    requires
        old(fixed_crossed)@.len() == pattern@.len(),
        old(fixed_painted)@.len() == pattern@.len(),
    ensures
        final(fixed_crossed)@.len() == pattern@.len(),
        final(fixed_painted)@.len() == pattern@.len(),
        forall|y: int| 0 <= y < pattern@.len() ==> final(fixed_crossed)@[y] == (old(fixed_crossed)@[y]
            && pattern@[y] != Cell::Painted),
        forall|y: int| 0 <= y < pattern@.len() ==> final(fixed_painted)@[y] == (old(fixed_painted)@[y]
            && pattern@[y] == Cell::Painted),
{
    let n = pattern.len();
    let mut x: usize = 0;
    while x < n
        invariant
            x <= n,
            n == pattern@.len(),
            fixed_crossed@.len() == n,
            fixed_painted@.len() == n,
            forall|y: int| 0 <= y < n ==> fixed_crossed@[y] == (old(fixed_crossed)@[y] && (y < x
                ==> pattern@[y] != Cell::Painted)),
            forall|y: int| 0 <= y < n ==> fixed_painted@[y] == (old(fixed_painted)@[y] && (y < x
                ==> pattern@[y] == Cell::Painted)),
        decreases n - x,
    {
        if pattern[x] == Cell::Painted {
            fixed_crossed.set(x, false);
        } else {
            fixed_painted.set(x, false);
        }
        x = x + 1;
    }
}

/// The cells of `existing` that every placement of `constraint` settles,
/// each with the value it must take, by increasing index. Cells already
/// known are left out, and so is everything when no placement fits.
///
/// The constraint is refused as `find_paintable_positions` refuses it.
pub fn list_updatable_cells(constraint: &Vec<usize>, existing: &[Cell]) -> (r: Result<Vec<(usize, Cell)>, NonoError>)
    ensures
        r is Ok <==> runs_positive(constraint@) && min_span(constraint@) <= existing@.len(),
        r == Err::<Vec<(usize, Cell)>, NonoError>(NonoError::InputError) <==> !runs_positive(constraint@),
        r == Err::<Vec<(usize, Cell)>, NonoError>(NonoError::Overconstrained) <==> runs_positive(constraint@)
            && min_span(constraint@) > existing@.len(),
        r matches Ok(u) ==> reports_forced(constraint@, existing@, u@),
{
    let placements = match find_paintable_positions(constraint, existing) {
        Ok(v) => v,
        Err(e) => {
            return Err(e);
        },
    };
    let ghost c = constraint@;
    let ghost line = existing@;
    let n = existing.len();
    let mut updates: Vec<(usize, Cell)> = Vec::new();
    if placements.len() == 0 {
        assert(!has_placement(c, line));
        return Ok(updates);
    }
    let mut fixed_crossed: Vec<bool> = Vec::new();
    let mut fixed_painted: Vec<bool> = Vec::new();
    let mut j: usize = 0;
    while j < n
        invariant
            j <= n,
            fixed_crossed@.len() == j,
            fixed_painted@.len() == j,
            forall|x: int| 0 <= x < j ==> fixed_crossed@[x] && fixed_painted@[x],
        decreases n - j,
    {
        fixed_crossed.push(true);
        fixed_painted.push(true);
        j = j + 1;
    }
    let mut t: usize = 0;
    while t < placements.len()
        invariant
            t <= placements@.len(),
            c == constraint@,
            line == existing@,
            n == line.len(),
            lists_placements(c, line, placements@),
            fixed_crossed@.len() == n,
            fixed_painted@.len() == n,
            forall|x: int| 0 <= x < n ==> (fixed_painted@[x] <==> forall|m: int| 0 <= m < t
                ==> pattern_cell(c, #[trigger] placements@[m]@, x) == Cell::Painted),
            forall|x: int| 0 <= x < n ==> (fixed_crossed@[x] <==> forall|m: int| 0 <= m < t
                ==> pattern_cell(c, #[trigger] placements@[m]@, x) == Cell::Crossed),
        decreases placements@.len() - t,
    {
        assert(is_placement(c, line, placements@[t as int]@));
        let pattern = pattern_of(constraint, &placements[t], n);
        let ghost ofp = fixed_painted@;
        let ghost ofc = fixed_crossed@;
        clear_disagreeing(&pattern, &mut fixed_crossed, &mut fixed_painted);
        proof {
            let pt = placements@[t as int]@;
            assert forall|y: int| 0 <= y < n implies (fixed_painted@[y] <==> forall|m: int| 0 <= m < t + 1
                ==> pattern_cell(c, #[trigger] placements@[m]@, y) == Cell::Painted) by {
                if fixed_painted@[y] {
                    assert(ofp[y]);
                    assert(pattern@[y] == Cell::Painted);
                    assert(pattern_cell(c, pt, y) == Cell::Painted);
                    assert forall|m: int| 0 <= m < t + 1 implies pattern_cell(c, #[trigger] placements@[m]@, y)
                        == Cell::Painted by {
                        if m < t {
                            assert(forall|m: int| 0 <= m < t ==> pattern_cell(c, #[trigger] placements@[m]@, y) == Cell::Painted);
                        }
                    }
                }
                if forall|m: int| 0 <= m < t + 1 ==> pattern_cell(c, #[trigger] placements@[m]@, y) == Cell::Painted {
                    assert(pattern_cell(c, placements@[t as int]@, y) == Cell::Painted);
                    assert forall|m: int| 0 <= m < t implies pattern_cell(c, #[trigger] placements@[m]@, y)
                        == Cell::Painted by {}
                    assert(ofp[y]);
                }
            }
            assert forall|y: int| 0 <= y < n implies (fixed_crossed@[y] <==> forall|m: int| 0 <= m < t + 1
                ==> pattern_cell(c, #[trigger] placements@[m]@, y) == Cell::Crossed) by {
                assert(pattern_cell(c, pt, y) == Cell::Painted || pattern_cell(c, pt, y) == Cell::Crossed);
                if fixed_crossed@[y] {
                    assert(ofc[y]);
                    assert(pattern@[y] != Cell::Painted);
                    assert(pattern_cell(c, pt, y) == Cell::Crossed);
                    assert forall|m: int| 0 <= m < t + 1 implies pattern_cell(c, #[trigger] placements@[m]@, y)
                        == Cell::Crossed by {
                        if m < t {
                            assert(forall|m: int| 0 <= m < t ==> pattern_cell(c, #[trigger] placements@[m]@, y) == Cell::Crossed);
                        }
                    }
                }
                if forall|m: int| 0 <= m < t + 1 ==> pattern_cell(c, #[trigger] placements@[m]@, y) == Cell::Crossed {
                    assert(pattern_cell(c, placements@[t as int]@, y) == Cell::Crossed);
                    assert forall|m: int| 0 <= m < t implies pattern_cell(c, #[trigger] placements@[m]@, y)
                        == Cell::Crossed by {}
                    assert(ofc[y]);
                }
            }
        }
        t = t + 1;
    }
    proof {
        assert(has_placement(c, line)) by {
            assert(is_placement(c, line, placements@[0]@));
        }
        assert forall|y: int, v: Cell| 0 <= y < n implies (forced(c, line, y, v) <==> ((v == Cell::Painted
            && fixed_painted@[y]) || (v == Cell::Crossed && fixed_crossed@[y]))) by {
            let s0 = placements@[0]@;
            assert(is_placement(c, line, s0));
            if forced(c, line, y, v) {
                assert(pattern_cell(c, s0, y) == v);
                assert forall|m: int| 0 <= m < placements@.len() implies pattern_cell(c, #[trigger] placements@[m]@, y) == v by {
                    assert(is_placement(c, line, placements@[m]@));
                }
            }
            if (v == Cell::Painted && fixed_painted@[y]) || (v == Cell::Crossed && fixed_crossed@[y]) {
                assert forall|s: Seq<usize>| is_placement(c, line, s) implies pattern_cell(c, s, y) == v by {
                    let m = choose|m: int| 0 <= m < placements@.len() && #[trigger] placements@[m]@ == s;
                }
            }
        }
        assert forall|z: int| 0 <= z < n implies !(fixed_painted@[z] && fixed_crossed@[z]) by {
            let s0 = placements@[0]@;
            assert(pattern_cell(c, s0, z) == Cell::Painted || pattern_cell(c, s0, z) == Cell::Crossed);
        }
    }
    let mut y: usize = 0;
    while y < n
        invariant
            y <= n,
            c == constraint@,
            line == existing@,
            n == line.len(),
            fixed_crossed@.len() == n,
            fixed_painted@.len() == n,
            forall|z: int, v: Cell| 0 <= z < n ==> (#[trigger] forced(c, line, z, v) <==> ((v == Cell::Painted
                && fixed_painted@[z]) || (v == Cell::Crossed && fixed_crossed@[z]))),
            forall|z: int| 0 <= z < n ==> !(fixed_painted@[z] && fixed_crossed@[z]),
            forall|i: int| 0 <= i < updates@.len() ==> {
                &&& (#[trigger] updates@[i]).0 < y
                &&& line[updates@[i].0 as int] == Cell::Undetermined
                &&& forced(c, line, updates@[i].0 as int, updates@[i].1)
            },
            forall|i: int, m: int| 0 <= i < m < updates@.len() ==> updates@[i].0 < updates@[m].0,
            forall|z: int, v: Cell| 0 <= z < y && line[z] == Cell::Undetermined
                && #[trigger] forced(c, line, z, v) ==> exists|i: int| 0 <= i < updates@.len()
                && #[trigger] updates@[i] == (z as usize, v),
        decreases n - y,
    {
        let ghost before = updates@;
        if existing[y] == Cell::Undetermined {
            if fixed_crossed[y] {
                updates.push((y, Cell::Crossed));
            } else if fixed_painted[y] {
                updates.push((y, Cell::Painted));
            }
        }
        proof {
            assert forall|i: int| 0 <= i < before.len() implies #[trigger] updates@[i] == before[i] by {}
            assert forall|z: int, v: Cell| 0 <= z < y + 1 && line[z] == Cell::Undetermined
                && #[trigger] forced(c, line, z, v) implies exists|i: int| 0 <= i < updates@.len()
                && #[trigger] updates@[i] == (z as usize, v) by {
                if z < y {
                    let i = choose|i: int| 0 <= i < before.len() && #[trigger] before[i] == (z as usize, v);
                    assert(updates@[i] == (z as usize, v));
                } else {
                    assert(updates@[before.len() as int] == (z as usize, v));
                }
            }
        }
        y = y + 1;
    }
    Ok(updates)
}

} // verus!
