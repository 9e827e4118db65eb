use vstd::prelude::*;

pub mod cell;
pub mod laws;
pub mod placement;
pub mod enumerate;
pub mod input;
pub mod reduce;

verus! {

/// Why a request was refused.
#[derive(Debug, Clone, Copy, PartialEq, Eq, Structural)]
pub enum NonoError {
    /// The input is unusable: a run of length zero, or input that could
    /// not be read.
    InputError,
    /// Text that names no cell or number.
    ParseError,
    /// The runs need more cells than the line has.
    Overconstrained,
}

/// The run lengths of every row and every column of a board, as read.
pub struct Table {
    pub rows: Vec<Vec<u8>>,
    pub cols: Vec<Vec<u8>>,
}

/// The run lengths of every row and every column of a board.
pub struct Puzzle {
    pub rows: Vec<Vec<u8>>,
    pub cols: Vec<Vec<u8>>,
}

impl Puzzle {
    /// A board with no rows and no columns yet.
    pub fn new() -> (r: Self)
        ensures
            r.rows@.len() == 0,
            r.cols@.len() == 0,
    {
        Puzzle { rows: Vec::new(), cols: Vec::new() }
    }
}

} // verus!
