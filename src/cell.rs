use vstd::prelude::*;
use vstd::string::StringExecFns;

verus! {

/// The state of one cell of a line.
#[derive(Debug, Clone, Copy, PartialEq, Eq, Structural, Hash)]
pub enum Cell {
    /// The cell is filled.
    Painted,
    /// The cell is known to stay empty.
    Crossed,
    /// Nothing is known of the cell yet.
    Undetermined,
}

/// The cell that a character stands for, if any: `C`, `x` and `X` mark a
/// crossed cell, `P`, `o`, `O` and `0` a painted one, `?` an unknown one.
pub open spec fn cell_of_char(c: char) -> Option<Cell> {
    if c == 'C' || c == 'x' || c == 'X' {
        Some(Cell::Crossed)
    } else if c == 'P' || c == 'o' || c == 'O' || c == '0' {
        Some(Cell::Painted)
    } else if c == '?' {
        Some(Cell::Undetermined)
    } else {
        None
    }
}

impl Cell {
    /// The cell that the character `s` names, if any.
    pub fn from_char(s: &char) -> (r: Option<Cell>)
        ensures
            r == cell_of_char(*s),
    {
        match *s {
            'C' | 'x' | 'X' => Some(Cell::Crossed),
            'P' | 'o' | 'O' | '0' => Some(Cell::Painted),
            '?' => Some(Cell::Undetermined),
            _ => None,
        }
    }
}

/// The character that shows a cell: `O` painted, `X` crossed, `?` unknown.
pub open spec fn symbol(c: Cell) -> char {
    match c {
        Cell::Painted => 'O',
        Cell::Crossed => 'X',
        Cell::Undetermined => '?',
    }
}

/// The cells that the characters of `s` name, in order, skipping every
/// character that names none.
pub open spec fn cells_of_text(s: Seq<char>) -> Seq<Cell>
    decreases s.len(),
{
    if s.len() == 0 {
        Seq::empty()
    } else {
        match cell_of_char(s.last()) {
            Some(c) => cells_of_text(s.drop_last()).push(c),
            None => cells_of_text(s.drop_last()),
        }
    }
}

impl Cell {
    /// The character that shows this cell.
    pub fn to_char(&self) -> (r: char)
        ensures
            r == symbol(*self),
    {
        match self {
            Cell::Painted => 'O',
            Cell::Crossed => 'X',
            Cell::Undetermined => '?',
        }
    }
}

/// The cells shown as text, one character each.
pub fn cells_to_string(cells: Vec<Cell>) -> (r: String)
    ensures
        r@.len() == cells@.len(),
        forall|i: int| 0 <= i < cells@.len() ==> r@[i] == symbol(cells@[i]),
{
    let mut r = String::new();
    let mut i: usize = 0;
    while i < cells.len()
        invariant
            i <= cells@.len(),
            r@.len() == i,
            forall|k: int| 0 <= k < i ==> r@[k] == symbol(cells@[k]),
        decreases cells@.len() - i,
    {
        let shown: &str = match cells[i] {
            Cell::Painted => "O",
            Cell::Crossed => "X",
            Cell::Undetermined => "?",
        };
        proof {
            reveal_strlit("O");
            reveal_strlit("X");
            reveal_strlit("?");
        }
        assert(shown@ == seq![symbol(cells@[i as int])]);
        r.append(shown);
        i = i + 1;
    }
    r
}

/// The cells that the characters of `s` name, skipping the others (such as
/// a separator `_`).
pub fn string_to_cells(s: &str) -> (r: Vec<Cell>)
    ensures
        r@ == cells_of_text(s@),
{
    let mut r: Vec<Cell> = Vec::new();
    for ch in it: s.chars()
        invariant
            it.seq() == s@,
            r@ == cells_of_text(s@.take(it.index() as int)),
    {
        assert(s@.take(it.index() + 1).drop_last() =~= s@.take(it.index() as int));
        match Cell::from_char(&ch) {
            Some(c) => r.push(c),
            None => {},
        }
    }
    assert(s@.take(s@.len() as int) =~= s@);
    r
}

/// Text that holds a character naming no cell.
#[derive(Debug, Clone, Copy, PartialEq, Eq, Structural)]
pub struct ParseCellError;

/// A line of cells read from text.
#[derive(Debug, Clone)]
pub struct CellVec {
    pub cells: Vec<Cell>,
}

impl CellVec {
    /// The cells that the characters of `s` name, skipping every other
    /// character.
    pub fn from_text(s: &str) -> (r: CellVec)
        ensures
            r.cells@ == cells_of_text(s@),
    {
        CellVec { cells: string_to_cells(s) }
    }

    /// The cells that the characters of `s` name, one for each character;
    /// refused if any character names no cell.
    pub fn parse_strict(s: &str) -> (r: Result<CellVec, ParseCellError>)
        ensures
            r is Ok <==> forall|i: int| 0 <= i < s@.len() ==> cell_of_char(#[trigger] s@[i]) is Some,
            r matches Ok(v) ==> v.cells@.len() == s@.len() && forall|i: int| 0 <= i < s@.len()
                ==> Some(#[trigger] v.cells@[i]) == cell_of_char(s@[i]),
    {
        let mut cells: Vec<Cell> = Vec::new();
        for ch in it: s.chars()
            invariant
                it.seq() == s@,
                cells@.len() == it.index(),
                forall|i: int| 0 <= i < it.index() ==> Some(#[trigger] cells@[i]) == cell_of_char(s@[i]),
        {
            match Cell::from_char(&ch) {
                Some(c) => cells.push(c),
                None => {
                    return Err(ParseCellError);
                },
            }
        }
        assert(cells@.len() == s@.len());
        assert forall|i: int| 0 <= i < s@.len() implies cell_of_char(#[trigger] s@[i]) is Some by {
            assert(Some(cells@[i]) == cell_of_char(s@[i]));
        }
        Ok(CellVec { cells })
    }
}

impl From<&str> for CellVec {
    fn from(s: &str) -> Self {
        CellVec::from_text(s)
    }
}

/// The contract of the conversion is that of `CellVec::from_text`; a line
/// of cells has no value that a specification can build, so none is given
/// here.
impl vstd::std_specs::convert::FromSpecImpl<&str> for CellVec {
    open spec fn obeys_from_spec() -> bool {
        false
    }

    open spec fn from_spec(v: &str) -> Self {
        arbitrary()
    }
}

impl std::str::FromStr for CellVec {
    type Err = ParseCellError;

    fn from_str(s: &str) -> Result<Self, Self::Err> {
        CellVec::parse_strict(s)
    }
}

} // verus!
