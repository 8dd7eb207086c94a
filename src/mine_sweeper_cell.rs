use vstd::prelude::*;

verus! {

/// Glyph of a revealed mine.
pub const MINE: char = '\u{25CF}';

/// Glyph of a revealed cell with no adjacent mines.
pub const REVEALED: char = '0';

/// Glyph of a hidden cell.
pub const HIDDEN: char = '\u{25A1}';

/// Glyph of a questioned cell.
pub const QUESTION: char = '\u{003F}';

/// Glyph of a flagged cell.
pub const FLAG: char = '\u{2691}';

/// What the player currently sees of a cell.
#[derive(Clone, Copy, Debug, PartialEq, Eq, Structural)]
pub enum CellState {
    Revealed,
    Flagged,
    Questioned,
    Hidden,
}

/// Whether a cell holds a mine.
#[derive(Clone, Copy, Debug, PartialEq, Eq, Structural)]
pub enum CellKind {
    Mine,
    Empty,
}

/// One square of the board: its state, its kind and the number of mines around it.
#[derive(Clone, Copy, Debug, PartialEq, Eq, Structural)]
pub struct Cell {
    pub state: CellState,
    pub kind: CellKind,
    pub adj_mine_count: u8,
}

/// A lone cell is an empty cell with no adjacent mine.
pub open spec fn is_lone(c: Cell) -> bool {
    c.kind == CellKind::Empty && c.adj_mine_count == 0
}

/// The digit that stands for a count; meant for counts up to nine.
pub open spec fn digit_of(n: u8) -> char {
    ((n + 48) as u8) as char
}

/// The glyph shown to the player for a cell.
pub open spec fn glyph(c: Cell) -> char {
    match c.state {
        CellState::Revealed => match c.kind {
            CellKind::Mine => MINE,
            CellKind::Empty => if c.adj_mine_count > 0 {
                digit_of(c.adj_mine_count)
            } else {
                REVEALED
            },
        },
        CellState::Flagged => FLAG,
        CellState::Questioned => QUESTION,
        CellState::Hidden => HIDDEN,
    }
}

/// The glyph that shows a cell's kind and count whatever its state.
pub open spec fn debug_glyph(c: Cell) -> char {
    match c.kind {
        CellKind::Mine => MINE,
        CellKind::Empty => digit_of(c.adj_mine_count),
    }
}

fn count_char(n: u8) -> (r: char)
    requires
        n <= 9,
    ensures
        r == digit_of(n),
{
    let code: u8 = n + 48;
    code as char
}

impl Cell {
    /// The value that `new` returns.
    pub open spec fn new_spec(kind: CellKind) -> Cell {
        Cell { state: CellState::Hidden, kind, adj_mine_count: 0 }
    }

    /// A hidden cell of the given kind with no adjacent mines.
    pub fn new(kind: CellKind) -> (r: Cell)
        ensures
            r == Cell::new_spec(kind),
    {
        Cell { state: CellState::Hidden, kind, adj_mine_count: 0 }
    }

    pub fn is_flagged(&self) -> (r: bool)
        ensures
            r == (self.state == CellState::Flagged),
    {
        self.state == CellState::Flagged
    }

    pub fn is_questioned(&self) -> (r: bool)
        ensures
            r == (self.state == CellState::Questioned),
    {
        self.state == CellState::Questioned
    }

    pub fn is_revealed(&self) -> (r: bool)
        ensures
            r == (self.state == CellState::Revealed),
    {
        self.state == CellState::Revealed
    }

    pub fn is_mined(&self) -> (r: bool)
        ensures
            r == (self.kind == CellKind::Mine),
    {
        self.kind == CellKind::Mine
    }

    pub fn set_kind(&mut self, kind: CellKind)
        ensures
            *final(self) == (Cell { kind, ..*old(self) }),
    {
        self.kind = kind;
    }

    pub fn set_state(&mut self, state: CellState)
        ensures
            *final(self) == (Cell { state, ..*old(self) }),
        no_unwind
    {
        self.state = state;
    }

    pub fn adj_mine_count(&self) -> (r: u8)
        ensures
            r == self.adj_mine_count,
    {
        self.adj_mine_count
    }

    pub fn set_adj_mine_count(&mut self, count: u8)
        ensures
            *final(self) == (Cell { adj_mine_count: count, ..*old(self) }),
    {
        self.adj_mine_count = count;
    }

    /// Is the cell empty with no adjacent mine?
    pub fn is_lone_cell(&self) -> (r: bool)
        ensures
            r == is_lone(*self),
    {
        self.kind == CellKind::Empty && self.adj_mine_count == 0
    }

    /// The glyph shown to the player for this cell.
    pub fn glyph(&self) -> (r: char)
        requires
            self.adj_mine_count <= 9,
        ensures
            r == glyph(*self),
    {
        match self.state {
            CellState::Revealed => match self.kind {
                CellKind::Mine => MINE,
                CellKind::Empty => if self.adj_mine_count > 0 {
                    count_char(self.adj_mine_count)
                } else {
                    REVEALED
                },
            },
            CellState::Flagged => FLAG,
            CellState::Questioned => QUESTION,
            CellState::Hidden => HIDDEN,
        }
    }

    /// The glyph that shows this cell's kind and count whatever its state.
    pub fn debug_glyph(&self) -> (r: char)
        requires
            self.adj_mine_count <= 9,
        ensures
            r == debug_glyph(*self),
    {
        match self.kind {
            CellKind::Mine => MINE,
            CellKind::Empty => count_char(self.adj_mine_count),
        }
    }
}

} // verus!
