use nonogram::cell::{cells_to_string, string_to_cells, Cell, CellVec, ParseCellError};
use nonogram::Puzzle;

#[test]
fn test_string_to_cells_success() {
    assert_eq!(
        string_to_cells("OX?"),
        vec![Cell::Painted, Cell::Crossed, Cell::Undetermined]
    );
}

#[test]
fn test_cells_to_string() {
    assert_eq!(
        cells_to_string(vec![Cell::Painted, Cell::Crossed, Cell::Undetermined]),
        "OX?"
    );
}

#[test]
fn lib_test_str_to_cellvec() {
    let cell_vec: CellVec = "CPOX?".into();
    let cv = cell_vec.cells;
    assert_eq!(
        cv,
        vec![
            Cell::Crossed,
            Cell::Painted,
            Cell::Painted,
            Cell::Crossed,
            Cell::Undetermined
        ]
    );
}

#[test]
fn test_str_to_cellvec_separator() {
    let cell_vec: CellVec = "C_P_O_X_?".into();
    let cv = cell_vec.cells;
    assert_eq!(
        cv,
        vec![
            Cell::Crossed,
            Cell::Painted,
            Cell::Painted,
            Cell::Crossed,
            Cell::Undetermined
        ]
    );
}

#[test]
fn alt_test_str_to_cellvec() {
    let cell_vec: CellVec = "CPOX?".parse().unwrap();
    assert_eq!(
        cell_vec.cells,
        vec![
            Cell::Crossed,
            Cell::Painted,
            Cell::Painted,
            Cell::Crossed,
            Cell::Undetermined
        ]
    );
}

#[test]
fn test_str_to_cellvec_error() {
    let cell_vec: Result<CellVec, ParseCellError> = "CPXZ".parse();
    assert!(cell_vec.is_err());
}

#[test]
fn strict_parse_refuses_separator() {
    let cell_vec: Result<CellVec, ParseCellError> = "C_P".parse();
    assert_eq!(cell_vec.unwrap_err(), ParseCellError);
}

#[test]
fn strict_parse_of_empty_text_is_empty() {
    let cell_vec: CellVec = "".parse().unwrap();
    assert!(cell_vec.cells.is_empty());
}

#[test]
fn from_char_names_every_symbol() {
    for c in ['C', 'x', 'X'] {
        assert_eq!(Cell::from_char(&c), Some(Cell::Crossed));
    }
    for c in ['P', 'o', 'O', '0'] {
        assert_eq!(Cell::from_char(&c), Some(Cell::Painted));
    }
    assert_eq!(Cell::from_char(&'?'), Some(Cell::Undetermined));
    assert_eq!(Cell::from_char(&'_'), None);
    assert_eq!(Cell::from_char(&'c'), None);
    assert_eq!(Cell::from_char(&'p'), None);
}

#[test]
fn lenient_parse_skips_unknown_characters() {
    assert_eq!(
        string_to_cells("a0 c?x"),
        vec![Cell::Painted, Cell::Undetermined, Cell::Crossed]
    );
    assert_eq!(CellVec::from_text("zz").cells, vec![]);
}

#[test]
fn cells_to_string_round_trips_through_lenient_parse() {
    let cells = string_to_cells("xo?PC0");
    let text = cells_to_string(cells.clone());
    assert_eq!(text, "XO?OXO");
    assert_eq!(string_to_cells(&text), cells);
}

#[test]
fn to_char_shows_each_cell() {
    assert_eq!(Cell::Painted.to_char(), 'O');
    assert_eq!(Cell::Crossed.to_char(), 'X');
    assert_eq!(Cell::Undetermined.to_char(), '?');
}

#[test]
fn new_puzzle_is_empty() {
    let p = Puzzle::new();
    assert!(p.rows.is_empty());
    assert!(p.cols.is_empty());
}
