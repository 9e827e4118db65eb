use nonogram::cell::{Cell, CellVec};
use nonogram::enumerate::find_paintable_positions;
use nonogram::reduce::{list_updatable_cells, pattern_of};
use nonogram::NonoError;

fn cells(text: &str) -> Vec<Cell> {
    let existing: CellVec = text.into();
    existing.cells
}

fn strict_cells(text: &str) -> Vec<Cell> {
    let existing: CellVec = text.parse().unwrap();
    existing.cells
}

fn run_solve_test(constraint: Vec<usize>, existing: &str, expected: Vec<Vec<usize>>) {
    let existing = cells(existing);
    let mut actual = find_paintable_positions(&constraint, &existing).unwrap();
    actual.sort();
    let mut expected = expected;
    expected.sort();
    assert_eq!(actual, expected);
}

fn run_update_test(constraint: Vec<usize>, existing: &str, expected: Vec<(usize, char)>) {
    let existing = cells(existing);
    let updatable_cells = list_updatable_cells(&constraint, &existing).unwrap();
    let expected: Vec<(usize, Cell)> = expected
        .into_iter()
        .map(|(i, c)| (i, Cell::from_char(&c).unwrap()))
        .collect();
    assert_eq!(updatable_cells, expected);
}

fn apply(line: &[Cell], updates: &[(usize, Cell)]) -> Vec<Cell> {
    let mut out = line.to_vec();
    for (i, c) in updates {
        out[*i] = *c;
    }
    out
}

// The enumeration order: the last run from the left, and for each of its
// starts the earlier runs in the same order.

#[test]
fn alt_test_solve_0() {
    let record = find_paintable_positions(&vec![2], &strict_cells("???")).unwrap();
    assert_eq!(record, vec![vec![0], vec![1]]);
}

#[test]
fn alt_test_solve_1() {
    let record = find_paintable_positions(&vec![1, 1], &strict_cells("???")).unwrap();
    assert_eq!(record, vec![vec![0, 2]]);
}

#[test]
fn alt_test_solve_2() {
    let record = find_paintable_positions(&vec![1, 2], &strict_cells("????")).unwrap();
    assert_eq!(record, vec![vec![0, 2]]);
}

#[test]
fn alt_test_solve_3() {
    let record = find_paintable_positions(&vec![2, 2], &strict_cells("?????")).unwrap();
    assert_eq!(record, vec![vec![0, 3]]);
}

#[test]
fn alt_test_solve_4() {
    let record = find_paintable_positions(&vec![2, 3], &strict_cells("???????")).unwrap();
    assert_eq!(record, vec![vec![0, 3], vec![0, 4], vec![1, 4]]);
}

#[test]
fn alt_test_solve_5() {
    let record = find_paintable_positions(&vec![2, 3], &strict_cells("???x???")).unwrap();
    assert_eq!(record, vec![vec![0, 4], vec![1, 4]]);
}

#[test]
fn alt_test_solve_6() {
    let mut record = find_paintable_positions(&vec![3, 4], &strict_cells("??????????")).unwrap();
    let mut expected = vec![
        vec![0, 4],
        vec![0, 5],
        vec![0, 6],
        vec![1, 5],
        vec![1, 6],
        vec![2, 6],
    ];
    record.sort();
    expected.sort();
    assert_eq!(record, expected);
}

#[test]
fn alt_test_solve_7() {
    let mut record = find_paintable_positions(&vec![2, 2], &strict_cells("?????O????")).unwrap();
    let mut expected = vec![
        vec![0, 4],
        vec![0, 5],
        vec![1, 4],
        vec![1, 5],
        vec![2, 5],
        vec![4, 7],
        vec![4, 8],
        vec![5, 8],
    ];
    record.sort();
    expected.sort();
    assert_eq!(record, expected);
}

#[test]
fn lib_test_solve_0() {
    run_solve_test(vec![2], "???", vec![vec![0], vec![1]]);
}

#[test]
fn lib_test_solve_1() {
    run_solve_test(vec![1, 1], "???", vec![vec![0, 2]]);
}

#[test]
fn lib_test_solve_2() {
    run_solve_test(vec![1, 2], "????", vec![vec![0, 2]]);
}

#[test]
fn lib_test_solve_3() {
    run_solve_test(vec![2, 2], "?????", vec![vec![0, 3]]);
}

#[test]
fn lib_test_solve_4() {
    run_solve_test(
        vec![2, 3],
        "???????",
        vec![vec![0, 3], vec![0, 4], vec![1, 4]],
    );
}

#[test]
fn lib_test_solve_5() {
    run_solve_test(vec![2, 3], "???x???", vec![vec![0, 4], vec![1, 4]]);
}

#[test]
fn lib_test_solve_6() {
    run_solve_test(
        vec![3, 4],
        "?????_?????",
        vec![
            vec![0, 4],
            vec![0, 5],
            vec![0, 6],
            vec![1, 5],
            vec![1, 6],
            vec![2, 6],
        ],
    );
}

#[test]
fn lib_test_solve_7() {
    run_solve_test(
        vec![2, 2],
        "?????O????",
        vec![
            vec![0, 4],
            vec![0, 5],
            vec![1, 4],
            vec![1, 5],
            vec![2, 5],
            vec![4, 7],
            vec![4, 8],
            vec![5, 8],
        ],
    );
}

#[test]
fn test_solve_8() {
    run_solve_test(
        vec![3, 3],
        "?????_x????",
        vec![
            vec![0, 6],
            vec![0, 7],
            vec![1, 6],
            vec![1, 7],
            vec![2, 6],
            vec![2, 7],
        ],
    );
}

#[test]
fn lib_test_list_updatable_cells_0() {
    run_update_test(vec![3], "?????", vec![(2, 'O')]);
}

#[test]
fn test_list_updatable_cells_1() {
    run_update_test(vec![8], "?????_?????_?????", vec![(7, 'O')]);
}

#[test]
fn test_list_updatable_cells_2() {
    run_update_test(
        vec![2, 2],
        "?????",
        vec![(0, 'O'), (1, 'O'), (2, 'X'), (3, 'O'), (4, 'O')],
    );
}

#[test]
fn test_list_updatable_cells_3() {
    run_update_test(vec![2, 2], "?????_O????", vec![]);
}

#[test]
fn test_list_updatable_cells_4() {
    run_update_test(
        vec![2, 2, 7],
        "?????_?????_?????",
        vec![(8, 'O'), (9, 'O'), (10, 'O'), (11, 'O'), (12, 'O')],
    );
}

#[test]
fn test_list_updatable_cells_5() {
    run_update_test(
        vec![5, 2, 5],
        "?????_?????_?????",
        vec![
            (1, 'O'),
            (2, 'O'),
            (3, 'O'),
            (4, 'O'),
            (7, 'O'),
            (10, 'O'),
            (11, 'O'),
            (12, 'O'),
            (13, 'O'),
        ],
    );
}

#[test]
fn test_list_updatable_cells_6() {
    run_update_test(
        vec![1, 8, 2],
        "?????_?????_?????",
        vec![(4, 'O'), (5, 'O'), (6, 'O'), (7, 'O'), (8, 'O'), (9, 'O')],
    );
}

#[test]
fn test_list_updatable_cells_7() {
    run_update_test(
        vec![4, 3, 1, 1],
        "?????_?????_xxox?",
        vec![(2, 'O'), (3, 'O'), (7, 'O')],
    );
}

#[test]
fn test_list_updatable_cells_8() {
    run_update_test(
        vec![5, 2, 1, 1],
        "?????_??o??_????o",
        vec![(3, 'O'), (4, 'O'), (13, 'X')],
    );
}

#[test]
fn test_list_updatable_cells_9() {
    run_update_test(
        vec![3, 3],
        "?????_x????",
        vec![(2, 'O'), (7, 'O'), (8, 'O')],
    );
}

#[test]
fn test_list_updatable_cells_10() {
    run_update_test(
        vec![4, 1, 1],
        "?????_x?x??",
        vec![(1, 'O'), (2, 'O'), (3, 'O'), (6, 'O')],
    );
}

#[test]
fn one_one_on_three_cells_is_forced() {
    run_update_test(vec![1, 1], "???", vec![(0, 'O'), (1, 'X'), (2, 'O')]);
}

#[test]
fn two_on_three_cells_forces_the_middle() {
    run_update_test(vec![2], "???", vec![(1, 'O')]);
}

#[test]
fn zero_run_is_an_input_error() {
    let line = cells("?????");
    assert_eq!(find_paintable_positions(&vec![0], &line), Err(NonoError::InputError));
    assert_eq!(list_updatable_cells(&vec![0], &line), Err(NonoError::InputError));
    assert_eq!(find_paintable_positions(&vec![2, 0, 1], &line), Err(NonoError::InputError));
    assert_eq!(find_paintable_positions(&vec![0], &[]), Err(NonoError::InputError));
}

#[test]
fn runs_longer_than_the_line_are_overconstrained() {
    let line = cells("????");
    assert_eq!(find_paintable_positions(&vec![2, 2], &line), Err(NonoError::Overconstrained));
    assert_eq!(find_paintable_positions(&vec![5], &line), Err(NonoError::Overconstrained));
    assert_eq!(list_updatable_cells(&vec![1, 1, 1], &line), Err(NonoError::Overconstrained));
    assert_eq!(find_paintable_positions(&vec![1], &[]), Err(NonoError::Overconstrained));
}

#[test]
fn contradictory_line_has_no_placement_and_no_update() {
    let line = cells("?X?");
    assert_eq!(find_paintable_positions(&vec![2], &line), Ok(vec![]));
    assert_eq!(list_updatable_cells(&vec![2], &line), Ok(vec![]));
    let painted = cells("O?O");
    assert_eq!(find_paintable_positions(&vec![1], &painted), Ok(vec![]));
    assert_eq!(list_updatable_cells(&vec![1], &painted), Ok(vec![]));
}

#[test]
fn empty_constraint_crosses_every_unknown_cell() {
    let line = cells("?X?");
    assert_eq!(find_paintable_positions(&vec![], &line), Ok(vec![vec![]]));
    assert_eq!(
        list_updatable_cells(&vec![], &line),
        Ok(vec![(0, Cell::Crossed), (2, Cell::Crossed)])
    );
    assert_eq!(find_paintable_positions(&vec![], &cells("?O")), Ok(vec![]));
    assert_eq!(find_paintable_positions(&vec![], &[]), Ok(vec![vec![]]));
}

#[test]
fn known_cells_are_not_reported_again() {
    let line = cells("O????");
    assert_eq!(
        list_updatable_cells(&vec![2, 2], &line),
        Ok(vec![(1, Cell::Painted), (2, Cell::Crossed), (3, Cell::Painted), (4, Cell::Painted)])
    );
}

#[test]
fn resolving_again_after_applying_reports_nothing() {
    for (constraint, text) in [
        (vec![3], "?????"),
        (vec![2, 2, 7], "?????_?????_?????"),
        (vec![5, 2, 1, 1], "?????_??o??_????o"),
        (vec![4, 1, 1], "?????_x?x??"),
    ] {
        let line = cells(text);
        let first = list_updatable_cells(&constraint, &line).unwrap();
        let next = apply(&line, &first);
        for (i, c) in &first {
            assert_eq!(next[*i], *c);
        }
        assert_eq!(
            find_paintable_positions(&constraint, &next).unwrap().len(),
            find_paintable_positions(&constraint, &line).unwrap().len()
        );
        assert_eq!(list_updatable_cells(&constraint, &next).unwrap(), vec![]);
    }
}

#[test]
fn reported_cells_agree_with_every_pattern() {
    let constraint = vec![2, 2];
    let line = cells("?????O????");
    let placements = find_paintable_positions(&constraint, &line).unwrap();
    let updates = list_updatable_cells(&constraint, &line).unwrap();
    let patterns: Vec<Vec<Cell>> = placements
        .iter()
        .map(|p| pattern_of(&constraint, p, line.len()))
        .collect();
    for (i, c) in &updates {
        assert!(patterns.iter().all(|p| p[*i] == *c));
    }
    for i in 0..line.len() {
        let agreed = patterns.iter().all(|p| p[i] == patterns[0][i]);
        let reported = updates.iter().any(|(j, _)| *j == i);
        assert_eq!(agreed && line[i] == Cell::Undetermined, reported);
    }
}

#[test]
fn tight_constraint_has_one_placement() {
    assert_eq!(
        find_paintable_positions(&vec![2, 1, 3], &cells("????????")),
        Ok(vec![vec![0, 3, 5]])
    );
    assert_eq!(
        list_updatable_cells(&vec![2, 1, 3], &cells("????????")),
        Ok(vec![
            (0, Cell::Painted),
            (1, Cell::Painted),
            (2, Cell::Crossed),
            (3, Cell::Painted),
            (4, Cell::Crossed),
            (5, Cell::Painted),
            (6, Cell::Painted),
            (7, Cell::Painted)
        ])
    );
    assert_eq!(find_paintable_positions(&vec![4], &cells("????")), Ok(vec![vec![0]]));
}

#[test]
fn pattern_paints_runs_and_crosses_the_rest() {
    assert_eq!(
        pattern_of(&vec![2, 1], &vec![1, 4], 6),
        cells("XOOXOX")
    );
    assert_eq!(pattern_of(&vec![], &vec![], 3), cells("XXX"));
}

#[test]
fn split_line_gives_no_update() {
    run_update_test(vec![2, 2], "?????_O????", vec![]);
    run_solve_test(
        vec![2, 2],
        "?????O????",
        vec![
            vec![0, 4],
            vec![0, 5],
            vec![1, 4],
            vec![1, 5],
            vec![2, 5],
            vec![4, 7],
            vec![4, 8],
            vec![5, 8],
        ],
    );
}

/// Places runs `i..` from cell `pos` on, with every gap size in turn, and
/// keeps each full placement whose pattern agrees with the line.
fn share(
    runs: &[usize],
    line: &[Cell],
    i: usize,
    pos: usize,
    starts: &mut Vec<usize>,
    out: &mut Vec<Vec<usize>>,
) {
    let n = line.len();
    if i == runs.len() {
        let pattern = pattern_of(&runs.to_vec(), starts, n);
        let fits = (0..n).all(|j| match line[j] {
            Cell::Painted => pattern[j] == Cell::Painted,
            Cell::Crossed => pattern[j] == Cell::Crossed,
            Cell::Undetermined => true,
        });
        if fits {
            out.push(starts.clone());
        }
        return;
    }
    let gap_min = if i == 0 { 0 } else { 1 };
    let mut begin = pos + gap_min;
    while begin + runs[i] <= n {
        starts.push(begin);
        share(runs, line, i + 1, begin + runs[i], starts, out);
        starts.pop();
        begin += 1;
    }
}

/// Every way to share the empty cells among the gaps, kept when its
/// pattern agrees with the line.
fn placements_by_gaps(runs: &[usize], line: &[Cell]) -> Vec<Vec<usize>> {
    let mut out = Vec::new();
    share(runs, line, 0, 0, &mut Vec::new(), &mut out);
    out
}

#[test]
fn pruned_search_matches_gap_sharing() {
    for (constraint, text) in [
        (vec![2], "???"),
        (vec![2, 3], "???x???"),
        (vec![2, 2], "?????O????"),
        (vec![3, 3], "?????_x????"),
        (vec![4, 3, 1, 1], "?????_?????_xxox?"),
        (vec![5, 2, 1, 1], "?????_??o??_????o"),
        (vec![1, 1, 1], "?o??x?o??"),
        (vec![], "??x?"),
        (vec![1], "o?o"),
    ] {
        let line = cells(text);
        let mut pruned = find_paintable_positions(&constraint, &line).unwrap();
        let mut plain = placements_by_gaps(&constraint, &line);
        pruned.sort();
        plain.sort();
        assert_eq!(pruned, plain);
    }
}
