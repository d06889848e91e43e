//! The mathematical model of a board, and the rules of the game stated over it.

use crate::grid::{adjacent, in_grid, neighbors_of, Position};
use vstd::prelude::*;

verus! {

/// What opening a cell found.
#[derive(Clone, Copy, Debug, PartialEq, Eq)]
pub enum OpenResult {
    /// The cell held a mine: the game is lost.
    Mine,
    /// The cell held no mine; the number counts the mines in the cells around it.
    NoMine(u8),
}

/// What a player sees of one cell.
#[derive(Clone, Copy, Debug, PartialEq, Eq)]
pub enum Cell {
    /// Not opened and not flagged.
    Hidden,
    /// Not opened, and marked by the player as a suspected mine.
    Flagged,
    /// Opened, and a mine.
    Mine,
    /// Opened and free of a mine, with the number of mines in the cells around it.
    Open(u8),
}

/// Why a board could not be made.
#[derive(Clone, Copy, Debug, PartialEq, Eq)]
pub enum BoardError {
    /// The grid has no cell that could stay free of a mine.
    InvalidMineCount,
    /// A mine was placed outside the grid.
    OutOfBounds,
    /// The number of cells does not fit in a machine word.
    TooLarge,
}

/// Why no game can start on a grid of the given size with a mine on each cell
/// listed, if there is a reason.
pub open spec fn layout_error(width: usize, height: usize, mines: Seq<Position>) -> Option<
    BoardError,
> {
    if width * height > usize::MAX {
        Some(BoardError::TooLarge)
    } else if exists|j: int| 0 <= j < mines.len() && !in_grid(width as nat, height as nat, mines[j]) {
        Some(BoardError::OutOfBounds)
    } else if mines.to_set().len() >= width * height {
        Some(BoardError::InvalidMineCount)
    } else {
        None
    }
}

/// The digit that stands for a count of mines, which is nine at most.
pub open spec fn digit(count: u8) -> char {
    (count + 48) as char
}

/// The text that stands for a cell: a violet square for a hidden cell, a flag, a
/// bomb, or the count of mines around an open cell, with a blank on either side.
pub open spec fn marker(c: Cell) -> Seq<char> {
    match c {
        Cell::Hidden => seq![' ', '\u{1F7EA}', ' '],
        Cell::Flagged => seq![' ', '\u{1F6A9}', ' '],
        Cell::Mine => seq![' ', '\u{1F4A3}', ' '],
        Cell::Open(count) => seq![' ', digit(count), ' '],
    }
}

/// One move of the player.
pub enum Move {
    /// Open the cell.
    Open(Position),
    /// Flag the cell, or take its flag away.
    ToggleFlag(Position),
}

/// The state of a game: the grid's size, where the mines lie, and what the player
/// has opened and flagged.
pub struct Board {
    pub width: nat,
    pub height: nat,
    pub mines: Set<Position>,
    pub opened: Set<Position>,
    pub flagged: Set<Position>,
    pub lost: bool,
}

impl Board {
    /// Whether `p` is a cell of this board.
    pub open spec fn has(self, p: Position) -> bool {
        in_grid(self.width, self.height, p)
    }

    /// The invariant of every board that a game can reach.
    pub open spec fn valid(self) -> bool {
        &&& self.width > 0
        &&& self.height > 0
        &&& self.mines.finite()
        &&& self.opened.finite()
        &&& self.flagged.finite()
        &&& forall|p: Position| #[trigger] self.mines.contains(p) ==> self.has(p)
        &&& forall|p: Position| #[trigger] self.opened.contains(p) ==> self.has(p)
        &&& forall|p: Position| #[trigger] self.flagged.contains(p) ==> self.has(p)
        &&& self.mines.len() < self.width * self.height
        &&& self.opened.disjoint(self.flagged)
        &&& self.lost <==> exists|p: Position|
            #[trigger] self.opened.contains(p) && self.mines.contains(p)
    }

    /// The cells that touch `p`.
    pub open spec fn neighbors(self, p: Position) -> Set<Position> {
        neighbors_of(self.width, self.height, p)
    }

    /// The number of mines in the cells that touch `p`.
    pub open spec fn neighboring_mines(self, p: Position) -> nat {
        self.neighbors(p).intersect(self.mines).len()
    }

    /// Whether the player has won: the game is not lost and every cell without a
    /// mine is opened.
    pub open spec fn won(self) -> bool {
        !self.lost && self.opened.len() + self.mines.len() == self.width * self.height
    }

    /// Whether `p` is a cell that is neither opened nor flagged.
    pub open spec fn openable(self, p: Position) -> bool {
        self.has(p) && !self.opened.contains(p) && !self.flagged.contains(p)
    }

    /// Whether `p` is a cell with no mine in it and none around it. An opening
    /// spreads from such a cell to the cells that touch it.
    pub open spec fn blank(self, p: Position) -> bool {
        self.has(p) && !self.mines.contains(p) && self.neighboring_mines(p) == 0
    }

    /// Whether an opening can run along `path`: every cell of it can be opened, each
    /// touches the next, and all but the last are blank.
    pub open spec fn fill_path(self, path: Seq<Position>) -> bool {
        &&& path.len() > 0
        &&& forall|i: int| 0 <= i < path.len() ==> self.openable(#[trigger] path[i])
        &&& forall|i: int|
            0 <= i < path.len() - 1 ==> self.blank(#[trigger] path[i]) && adjacent(
                path[i],
                path[i + 1],
            )
    }

    /// Whether an opening at `from` spreads to `to`.
    pub open spec fn reaches(self, from: Position, to: Position) -> bool {
        exists|path: Seq<Position>|
            self.fill_path(path) && #[trigger] path.first() == from && path.last() == to
    }

    /// The cells that an opening at `from` uncovers.
    pub open spec fn fill_region(self, from: Position) -> Set<Position> {
        Set::new(|q: Position| self.reaches(from, q))
    }

    /// Whether opening `p` changes anything: the game is going on, and `p` is a cell
    /// neither opened nor flagged.
    pub open spec fn can_open(self, p: Position) -> bool {
        !self.lost && self.openable(p)
    }

    /// The board after the player opens `p`.
    pub open spec fn after_open(self, p: Position) -> Board {
        if !self.can_open(p) {
            self
        } else if self.mines.contains(p) {
            Board { opened: self.opened.insert(p), lost: true, ..self }
        } else {
            Board { opened: self.opened.union(self.fill_region(p)), ..self }
        }
    }

    /// What opening `p` reports.
    pub open spec fn open_result(self, p: Position) -> Option<OpenResult> {
        if !self.can_open(p) {
            None
        } else if self.mines.contains(p) {
            Some(OpenResult::Mine)
        } else {
            Some(OpenResult::NoMine(self.neighboring_mines(p) as u8))
        }
    }

    /// Whether a flag can be set on `p` or taken from it: the game is going on, and
    /// `p` is a cell not yet opened.
    pub open spec fn can_flag(self, p: Position) -> bool {
        !self.lost && self.has(p) && !self.opened.contains(p)
    }

    /// The board after the player toggles the flag on `p`.
    pub open spec fn after_toggle_flag(self, p: Position) -> Board {
        if !self.can_flag(p) {
            self
        } else if self.flagged.contains(p) {
            Board { flagged: self.flagged.remove(p), ..self }
        } else {
            Board { flagged: self.flagged.insert(p), ..self }
        }
    }

    /// The board after one move.
    pub open spec fn after(self, m: Move) -> Board {
        match m {
            Move::Open(p) => self.after_open(p),
            Move::ToggleFlag(p) => self.after_toggle_flag(p),
        }
    }

    /// The board after a sequence of moves, played in order.
    pub open spec fn play(self, moves: Seq<Move>) -> Board
        decreases moves.len(),
    {
        if moves.len() == 0 {
            self
        } else {
            self.play(moves.drop_last()).after(moves.last())
        }
    }

    /// The text of the first `columns` cells of row `row`.
    pub open spec fn row_text(self, row: nat, columns: nat) -> Seq<char>
        decreases columns,
    {
        if columns == 0 {
            Seq::empty()
        } else {
            self.row_text(row, (columns - 1) as nat) + marker(
                self.cell(((columns - 1) as usize, row as usize)),
            )
        }
    }

    /// The text of the first `rows` rows: each row's cells from left to right, then a
    /// line feed.
    pub open spec fn rows_text(self, rows: nat) -> Seq<char>
        decreases rows,
    {
        if rows == 0 {
            Seq::empty()
        } else {
            self.rows_text((rows - 1) as nat) + self.row_text((rows - 1) as nat, self.width)
                + seq!['\n']
        }
    }

    /// The board as text, row by row from the top.
    pub open spec fn text(self) -> Seq<char> {
        self.rows_text(self.height)
    }

    /// What the player sees of `p`.
    pub open spec fn cell(self, p: Position) -> Cell {
        if !self.opened.contains(p) {
            if self.flagged.contains(p) {
                Cell::Flagged
            } else {
                Cell::Hidden
            }
        } else if self.mines.contains(p) {
            Cell::Mine
        } else {
            Cell::Open(self.neighboring_mines(p) as u8)
        }
    }
}

} // verus!
