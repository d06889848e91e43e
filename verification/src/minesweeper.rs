//! The board engine: the game state as stored, and the operations on it.

use crate::fill::{
    closed_but, lemma_blank_has_safe_neighbors, lemma_closed_covers_region, lemma_reaches_next,
    lemma_reaches_start, lemma_region_of_plain, settled,
};
use crate::grid::{
    adjacent, cells_of, in_grid, index_of, indices_in_grid, lemma_bounded_len, lemma_cells_insert,
    lemma_cells_len, lemma_cells_remove, lemma_index_in_range, precedes, Position,
};
use crate::model::{layout_error, marker, Board, BoardError, Cell, OpenResult};
use crate::rand::scatter;
use std::collections::HashSet;
use vstd::prelude::*;
use vstd::string::StringExecFns;
use vstd::std_specs::hash::group_hash_axioms;

verus! {

broadcast use group_hash_axioms;

/// A game of minesweeper.
///
/// Cells are stored by their number in the grid, counted row by row; `view` gives
/// the board they stand for.
#[derive(Debug)]
pub struct Minesweeper {
    width: usize,
    height: usize,
    open_case: HashSet<usize>,
    mines: HashSet<usize>,
    flagged: HashSet<usize>,
    lost: bool,
}

impl View for Minesweeper {
    type V = Board;

    closed spec fn view(&self) -> Board {
        Board {
            width: self.width as nat,
            height: self.height as nat,
            mines: cells_of(self.mines@, self.width, self.height),
            opened: cells_of(self.open_case@, self.width, self.height),
            flagged: cells_of(self.flagged@, self.width, self.height),
            lost: self.lost,
        }
    }
}

/// Whether `q` stands, in the block of three by three cells with `p` in the middle,
/// before the cell in column `dx` and row `dy` of the block.
spec fn listed(p: Position, q: Position, dx: int, dy: int) -> bool {
    q.0 - p.0 + 1 < dx || (q.0 - p.0 + 1 == dx && q.1 - p.1 + 1 < dy)
}

/// The coordinate `at + step - 1`, where it is a coordinate below `limit`.
fn shift(at: usize, step: usize, limit: usize) -> (r: Option<usize>)
    requires
        step < 3,
    ensures
        match r {
            Some(c) => c == at + step - 1 && c < limit,
            None => !(0 <= at + step - 1 < limit),
        },
{
    if step == 0 {
        if at > 0 && at - 1 < limit {
            Some(at - 1)
        } else {
            None
        }
    } else if step == 1 {
        if at < limit {
            Some(at)
        } else {
            None
        }
    } else {
        if at < usize::MAX && at + 1 < limit {
            Some(at + 1)
        } else {
            None
        }
    }
}

/// Counting one more cell raises the number of mines counted by one exactly when the
/// cell holds a mine.
proof fn lemma_count_one_more(seen: Set<Position>, mines: Set<Position>, q: Position)
    requires
        mines.finite(),
        !seen.contains(q),
    ensures
        seen.insert(q).intersect(mines).len() == seen.intersect(mines).len() + (if mines.contains(
            q,
        ) {
            1nat
        } else {
            0nat
        }),
{
    if mines.contains(q) {
        assert(seen.insert(q).intersect(mines) =~= seen.intersect(mines).insert(q));
    } else {
        assert(seen.insert(q).intersect(mines) =~= seen.intersect(mines));
    }
}

/// The text that stands for a cell.
fn marker_text(c: Cell) -> (text: &'static str)
    requires
        c matches Cell::Open(count) ==> count <= 8,
    ensures
        text@ == marker(c),
{
    proof {
        reveal_strlit(" \u{1F7EA} ");
        reveal_strlit(" \u{1F6A9} ");
        reveal_strlit(" \u{1F4A3} ");
        reveal_strlit(" 0 ");
        reveal_strlit(" 1 ");
        reveal_strlit(" 2 ");
        reveal_strlit(" 3 ");
        reveal_strlit(" 4 ");
        reveal_strlit(" 5 ");
        reveal_strlit(" 6 ");
        reveal_strlit(" 7 ");
        reveal_strlit(" 8 ");
    }
    let text = match c {
        Cell::Hidden => " \u{1F7EA} ",
        Cell::Flagged => " \u{1F6A9} ",
        Cell::Mine => " \u{1F4A3} ",
        Cell::Open(0) => " 0 ",
        Cell::Open(1) => " 1 ",
        Cell::Open(2) => " 2 ",
        Cell::Open(3) => " 3 ",
        Cell::Open(4) => " 4 ",
        Cell::Open(5) => " 5 ",
        Cell::Open(6) => " 6 ",
        Cell::Open(7) => " 7 ",
        Cell::Open(_) => " 8 ",
    };
    assert(text@ =~= marker(c));
    text
}

impl Minesweeper {
    /// Whether the stored sets fit the grid.
    spec fn stored(&self) -> bool {
        &&& self.width > 0
        &&& self.height > 0
        &&& self.width * self.height <= usize::MAX
        &&& self.mines@.finite()
        &&& self.open_case@.finite()
        &&& self.flagged@.finite()
        &&& indices_in_grid(self.mines@, self.width, self.height)
        &&& indices_in_grid(self.open_case@, self.width, self.height)
        &&& indices_in_grid(self.flagged@, self.width, self.height)
    }

    /// Whether this value is a well-formed game: its sets fit the grid, and the
    /// board it stands for is valid.
    pub closed spec fn wf(&self) -> bool {
        self.stored() && self@.valid()
    }

    /// A well-formed game stands for a valid board, on a grid whose cells can be
    /// counted in a machine word, and has opened no more cells than the grid has.
    pub proof fn lemma_wf_is_valid(&self)
        requires
            self.wf(),
        ensures
            self@.valid(),
            self@.width * self@.height <= usize::MAX,
            self@.opened.len() <= self@.width * self@.height,
    {
        lemma_cells_len(self.open_case@, self.width, self.height);
        lemma_bounded_len(self.open_case@, (self.width * self.height) as usize);
    }

    /// Makes the game that starts with mines on the cells numbered in `mines`.
    fn start(width: usize, height: usize, mines: HashSet<usize>) -> (game: Minesweeper)
        requires
            width * height <= usize::MAX,
            mines@.finite(),
            mines@.len() < width * height,
            indices_in_grid(mines@, width, height),
        ensures
            game.wf(),
            game@ == (Board {
                width: width as nat,
                height: height as nat,
                mines: cells_of(mines@, width, height),
                opened: Set::empty(),
                flagged: Set::empty(),
                lost: false,
            }),
            game@.mines.len() == mines@.len(),
    {
        let game = Minesweeper {
            width,
            height,
            open_case: HashSet::new(),
            mines,
            flagged: HashSet::new(),
            lost: false,
        };
        proof {
            assert(width > 0 && height > 0) by (nonlinear_arith)
                requires
                    0 < width * height,
                    0 <= width,
                    0 <= height,
            ;
            lemma_cells_len(mines@, width, height);
            assert(cells_of(Set::<usize>::empty(), width, height) =~= Set::empty());
            assert(game@ =~= (Board {
                width: width as nat,
                height: height as nat,
                mines: cells_of(mines@, width, height),
                opened: Set::empty(),
                flagged: Set::empty(),
                lost: false,
            }));
        }
        game
    }

    /// Starts a game on a grid of `width` columns and `height` rows, with
    /// `mine_count` mines on cells chosen at random.
    ///
    /// At least one cell must stay free of a mine: a `mine_count` of `width * height`
    /// or more is refused, and so is a grid with more cells than a machine word can
    /// count.
    pub fn new(width: usize, height: usize, mine_count: usize) -> (made: Result<
        Minesweeper,
        BoardError,
    >)
        ensures
            made is Ok <==> mine_count < width * height <= usize::MAX,
            made matches Err(e) ==> e == (if width * height > usize::MAX {
                BoardError::TooLarge
            } else {
                BoardError::InvalidMineCount
            }),
            made matches Ok(game) ==> {
                &&& game.wf()
                &&& game@.valid()
                &&& game@.width == width
                &&& game@.height == height
                &&& game@.mines.len() == mine_count
                &&& game@.opened == Set::<Position>::empty()
                &&& game@.flagged == Set::<Position>::empty()
                &&& !game@.lost
            },
    {
        match width.checked_mul(height) {
            None => Err(BoardError::TooLarge),
            Some(total) => {
                if mine_count >= total {
                    Err(BoardError::InvalidMineCount)
                } else {
                    let mines = scatter(total, mine_count);
                    Ok(Minesweeper::start(width, height, mines))
                }
            },
        }
    }

    /// Starts a game on a grid of `width` columns and `height` rows, with a mine on
    /// each of the cells listed in `mines`. A cell listed twice holds one mine.
    ///
    /// The grid must not have more cells than a machine word can count, every cell
    /// listed must lie on it, and at least one cell must stay free of a mine.
    pub fn with_mines(width: usize, height: usize, mines: &Vec<Position>) -> (made: Result<
        Minesweeper,
        BoardError,
    >)
        ensures
            made is Ok <==> layout_error(width, height, mines@) is None,
            made matches Err(e) ==> layout_error(width, height, mines@) == Some(e),
            made matches Ok(game) ==> {
                &&& game.wf()
                &&& game@.valid()
                &&& game@.width == width
                &&& game@.height == height
                &&& game@.mines == mines@.to_set()
                &&& game@.opened == Set::<Position>::empty()
                &&& game@.flagged == Set::<Position>::empty()
                &&& !game@.lost
            },
    {
        let total: usize = match width.checked_mul(height) {
            None => {
                return Err(BoardError::TooLarge);
            },
            Some(total) => total,
        };
        let mut chosen: HashSet<usize> = HashSet::new();
        let mut k: usize = 0;
        while k < mines.len()
            invariant
                k <= mines.len(),
                total == width * height,
                chosen@.finite(),
                indices_in_grid(chosen@, width, height),
                forall|j: int| 0 <= j < k ==> in_grid(width as nat, height as nat, #[trigger] mines[j]),
                forall|j: int|
                    0 <= j < k ==> cells_of(chosen@, width, height).contains(#[trigger] mines[j]),
                forall|p: Position|
                    cells_of(chosen@, width, height).contains(p) ==> exists|j: int|
                        0 <= j < k && mines[j] == p,
            decreases mines.len() - k,
        {
            let p: Position = mines[k];
            if p.0 >= width || p.1 >= height {
                return Err(BoardError::OutOfBounds);
            }
            proof {
                lemma_index_in_range(width, height, p);
                lemma_cells_insert(chosen@, width, height, p);
            }
            chosen.insert(p.1 * width + p.0);
            k += 1;
        }
        proof {
            lemma_cells_len(chosen@, width, height);
            assert(cells_of(chosen@, width, height) =~= mines@.to_set()) by {
                assert forall|p: Position| mines@.to_set().contains(p) implies cells_of(
                    chosen@,
                    width,
                    height,
                ).contains(p) by {
                    let j = choose|j: int| 0 <= j < mines@.len() && mines@[j] == p;
                    assert(cells_of(chosen@, width, height).contains(mines[j]));
                }
            }
        }
        if chosen.len() >= total {
            return Err(BoardError::InvalidMineCount);
        }
        Ok(Minesweeper::start(width, height, chosen))
    }

    /// The number of columns.
    pub fn width(&self) -> (w: usize)
        ensures
            w == self@.width,
    {
        self.width
    }

    /// The number of rows.
    pub fn height(&self) -> (h: usize)
        ensures
            h == self@.height,
    {
        self.height
    }

    /// Whether a mine has been opened.
    pub fn is_lost(&self) -> (lost: bool)
        ensures
            lost == self@.lost,
    {
        self.lost
    }

    /// The number of the cell `p`.
    fn index(&self, p: Position) -> (i: usize)
        requires
            self.stored(),
            self@.has(p),
        ensures
            i == index_of(self.width, p),
            i < self.width * self.height,
    {
        proof {
            lemma_index_in_range(self.width, self.height, p);
        }
        p.1 * self.width + p.0
    }

    /// Whether `pos` holds a mine.
    pub fn is_mine(&self, pos: Position) -> (r: bool)
        requires
            self.wf(),
        ensures
            r == self@.mines.contains(pos),
    {
        if pos.0 < self.width && pos.1 < self.height {
            let i: usize = self.index(pos);
            self.mines.contains(&i)
        } else {
            false
        }
    }

    /// Whether `pos` has been opened.
    pub fn is_opened(&self, pos: Position) -> (r: bool)
        requires
            self.wf(),
        ensures
            r == self@.opened.contains(pos),
    {
        if pos.0 < self.width && pos.1 < self.height {
            let i: usize = self.index(pos);
            self.open_case.contains(&i)
        } else {
            false
        }
    }

    /// Whether `pos` carries a flag.
    pub fn is_flagged(&self, pos: Position) -> (r: bool)
        requires
            self.wf(),
        ensures
            r == self@.flagged.contains(pos),
    {
        if pos.0 < self.width && pos.1 < self.height {
            let i: usize = self.index(pos);
            self.flagged.contains(&i)
        } else {
            false
        }
    }

    /// Lists the cells that touch `pos`: every cell of the grid at most one column
    /// and one row away, but `pos` itself. They come column by column, and within a
    /// column from the top row down. There are at most eight.
    pub fn iter_neighbors(&self, pos: Position) -> (around: Vec<Position>)
        ensures
            forall|q: Position| around@.contains(q) <==> self@.neighbors(pos).contains(q),
            forall|i: int, j: int|
                0 <= i < j < around.len() ==> precedes(#[trigger] around[i], #[trigger] around[j]),
            around.len() <= 8,
    {
        let mut around: Vec<Position> = Vec::new();
        let mut dx: usize = 0;
        while dx < 3
            invariant
                dx <= 3,
                around.len() <= 3 * dx,
                dx >= 2 ==> around.len() <= 3 * dx - 1,
                forall|i: int|
                    0 <= i < around.len() ==> self@.has(#[trigger] around[i]) && adjacent(
                        pos,
                        around[i],
                    ) && listed(pos, around[i], dx as int, 0),
                forall|q: Position|
                    self@.has(q) && adjacent(pos, q) && listed(pos, q, dx as int, 0)
                        ==> around@.contains(q),
                forall|i: int, j: int|
                    0 <= i < j < around.len() ==> precedes(
                        #[trigger] around[i],
                        #[trigger] around[j],
                    ),
            decreases 3 - dx,
        {
            let column = shift(pos.0, dx, self.width);
            let mut dy: usize = 0;
            while dy < 3
                invariant
                    dx < 3,
                    dy <= 3,
                    match column {
                        Some(c) => c == pos.0 + dx - 1 && c < self.width,
                        None => !(0 <= pos.0 + dx - 1 < self.width),
                    },
                    around.len() <= 3 * dx + dy,
                    dx >= 2 || (dx == 1 && dy >= 2) ==> around.len() <= 3 * dx + dy - 1,
                    forall|i: int|
                        0 <= i < around.len() ==> self@.has(#[trigger] around[i]) && adjacent(
                            pos,
                            around[i],
                        ) && listed(pos, around[i], dx as int, dy as int),
                    forall|q: Position|
                        self@.has(q) && adjacent(pos, q) && listed(pos, q, dx as int, dy as int)
                            ==> around@.contains(q),
                    forall|i: int, j: int|
                        0 <= i < j < around.len() ==> precedes(
                            #[trigger] around[i],
                            #[trigger] around[j],
                        ),
                decreases 3 - dy,
            {
                let row = shift(pos.1, dy, self.height);
                let ghost before = around@;
                match (column, row) {
                    (Some(c), Some(r)) => {
                        if !(dx == 1 && dy == 1) {
                            around.push((c, r));
                        }
                    },
                    _ => {},
                }
                proof {
                    assert forall|q: Position|
                        self@.has(q) && adjacent(pos, q) && listed(
                            pos,
                            q,
                            dx as int,
                            dy as int + 1,
                        ) implies around@.contains(q) by {
                        if listed(pos, q, dx as int, dy as int) {
                            assert(before.contains(q));
                            let i = choose|i: int| 0 <= i < before.len() && before[i] == q;
                            assert(around@[i] == q);
                        } else {
                            assert(around@[around.len() - 1] == q);
                        }
                    }
                }
                dy += 1;
            }
            dx += 1;
        }
        proof {
            assert forall|q: Position| around@.contains(q) implies self@.neighbors(pos).contains(
                q,
            ) by {
                let i = choose|i: int| 0 <= i < around.len() && around[i] == q;
                assert(self@.has(around[i]));
            }
        }
        around
    }

    /// Counts the mines in the cells that touch `pos`.
    pub fn neighboring_mines(&self, pos: Position) -> (count: u8)
        requires
            self.wf(),
        ensures
            count == self@.neighboring_mines(pos),
            count <= 8,
    {
        let around = self.iter_neighbors(pos);
        let ghost mut seen: Set<Position> = Set::empty();
        let mut count: u8 = 0;
        let mut k: usize = 0;
        proof {
            assert(seen.intersect(self@.mines) =~= Set::empty());
        }
        while k < around.len()
            invariant
                self.wf(),
                k <= around.len() <= 8,
                count <= k,
                forall|q: Position| around@.contains(q) <==> self@.neighbors(pos).contains(q),
                forall|i: int, j: int|
                    0 <= i < j < around.len() ==> precedes(
                        #[trigger] around[i],
                        #[trigger] around[j],
                    ),
                forall|j: int| 0 <= j < k ==> seen.contains(#[trigger] around[j]),
                forall|q: Position|
                    seen.contains(q) ==> exists|j: int| 0 <= j < k && around[j] == q,
                count == seen.intersect(self@.mines).len(),
            decreases around.len() - k,
        {
            let n: Position = around[k];
            proof {
                assert(around@.contains(n));
                if seen.contains(n) {
                    let j = choose|j: int| 0 <= j < k && around[j] == n;
                    assert(precedes(around[j], around[k as int]));
                }
                lemma_count_one_more(seen, self@.mines, n);
                seen = seen.insert(n);
            }
            if self.is_mine(n) {
                count += 1;
            }
            k += 1;
        }
        proof {
            assert forall|q: Position| self@.neighbors(pos).contains(q) implies seen.contains(
                q,
            ) by {
                assert(around@.contains(q));
                let j = choose|j: int| 0 <= j < around.len() && around[j] == q;
                assert(seen.contains(around[j]));
            }
            assert forall|q: Position| seen.contains(q) implies self@.neighbors(pos).contains(
                q,
            ) by {
                let j = choose|j: int| 0 <= j < k && around[j] == q;
                assert(around@.contains(around[j]));
            }
            assert(seen =~= self@.neighbors(pos));
        }
        count
    }

    /// Marks as opened a cell that holds no mine and can be opened.
    fn uncover(&mut self, p: Position)
        requires
            old(self).wf(),
            old(self)@.can_open(p),
            !old(self)@.mines.contains(p),
        ensures
            final(self).wf(),
            final(self)@ == (Board { opened: old(self)@.opened.insert(p), ..old(self)@ }),
    {
        let i: usize = self.index(p);
        self.open_case.insert(i);
        proof {
            lemma_cells_insert(old(self).open_case@, self.width, self.height, p);
            assert(self@ =~= (Board { opened: old(self)@.opened.insert(p), ..old(self)@ }));
        }
    }

    /// Opens the cell at `position`.
    ///
    /// Nothing happens, and nothing is reported, if the game is lost, if `position`
    /// is not a cell of the grid, or if the cell is already opened or carries a flag.
    /// Otherwise the cell is opened. If it holds a mine the game is lost. If it holds
    /// none, the number of mines around it is reported; and where that number is
    /// zero, the opening spreads to every cell around it that is neither opened nor
    /// flagged, and on from each of those that has no mine around it either.
    pub fn open(&mut self, position: Position) -> (result: Option<OpenResult>)
        requires
            old(self).wf(),
        ensures
            final(self).wf(),
            final(self)@ == old(self)@.after_open(position),
            result == old(self)@.open_result(position),
            result matches Some(OpenResult::NoMine(count)) ==> count <= 8,
    {
        let ghost before = self@;
        if self.lost || position.0 >= self.width || position.1 >= self.height || self.is_opened(
            position,
        ) || self.is_flagged(position) {
            return None;
        }
        if self.is_mine(position) {
            let i: usize = self.index(position);
            self.open_case.insert(i);
            self.lost = true;
            proof {
                lemma_cells_insert(old(self).open_case@, self.width, self.height, position);
                assert(self@.opened.contains(position) && self@.mines.contains(position));
                assert(self@ =~= before.after_open(position));
            }
            return Some(OpenResult::Mine);
        }
        let count: u8 = self.neighboring_mines(position);
        self.uncover(position);
        if count != 0 {
            proof {
                lemma_region_of_plain(before, position);
                assert(before.opened.union(set![position]) =~= before.opened.insert(position));
                assert(self@ =~= before.after_open(position));
            }
            return Some(OpenResult::NoMine(count));
        }
        let mut pending: Vec<Position> = Vec::new();
        pending.push(position);
        proof {
            lemma_reaches_start(before, position);
            assert(pending@[0] == position);
            assert forall|c: Position|
                self@.opened.contains(c) && before.openable(c) && before.blank(c)
                    && !pending@.contains(c) implies #[trigger] settled(
                before,
                self@.opened,
                c,
            ) by {
                assert(c != position);
            }
        }
        while pending.len() > 0
            invariant
                self.wf(),
                before.valid(),
                before.can_open(position),
                self@ == (Board { opened: self@.opened, ..before }),
                self@.opened.contains(position),
                forall|q: Position| before.opened.contains(q) ==> self@.opened.contains(q),
                forall|q: Position|
                    self@.opened.contains(q) ==> before.opened.contains(q) || before.reaches(
                        position,
                        q,
                    ),
                forall|i: int|
                    0 <= i < pending.len() ==> before.blank(#[trigger] pending[i])
                        && before.reaches(position, pending[i]) && self@.opened.contains(
                        pending[i],
                    ),
                closed_but(before, self@.opened, pending@),
            decreases self@.width * self@.height - self@.opened.len(), pending.len(),
        {
            let ghost opened_at_start = self@.opened;
            let ghost pending_at_start = pending@;
            proof {
                self.lemma_wf_is_valid();
            }
            let c: Position = pending.pop().unwrap();
            proof {
                assert(pending@.push(c) =~= pending_at_start);
            }
            let around = self.iter_neighbors(c);
            let mut k: usize = 0;
            while k < around.len()
                invariant
                    self.wf(),
                    before.valid(),
                    before.can_open(position),
                    self@ == (Board { opened: self@.opened, ..before }),
                    self@.opened.contains(position),
                    forall|q: Position| before.opened.contains(q) ==> self@.opened.contains(q),
                    forall|q: Position|
                        self@.opened.contains(q) ==> before.opened.contains(q) || before.reaches(
                            position,
                            q,
                        ),
                    forall|i: int|
                        0 <= i < pending.len() ==> before.blank(#[trigger] pending[i])
                            && before.reaches(position, pending[i]) && self@.opened.contains(
                            pending[i],
                        ),
                    closed_but(before, self@.opened, pending@.push(c)),
                    before.blank(c),
                    before.reaches(position, c),
                    self@.opened.contains(c),
                    k <= around.len(),
                    forall|q: Position| around@.contains(q) <==> self@.neighbors(c).contains(q),
                    forall|j: int|
                        0 <= j < k && before.openable(#[trigger] around[j])
                            ==> self@.opened.contains(around[j]),
                    opened_at_start.finite(),
                    opened_at_start.len() <= self@.opened.len(),
                    pending.len() + 1 + opened_at_start.len() <= pending_at_start.len()
                        + self@.opened.len(),
                decreases around.len() - k,
            {
                let n: Position = around[k];
                proof {
                    assert(around@.contains(n));
                    assert(self@.neighbors(c).contains(n));
                }
                if !self.is_opened(n) && !self.is_flagged(n) {
                    let ghost opened_before = self@.opened;
                    let ghost pending_before = pending@;
                    proof {
                        lemma_blank_has_safe_neighbors(before, c, n);
                        lemma_reaches_next(before, position, c, n);
                    }
                    let blank: bool = self.neighboring_mines(n) == 0;
                    self.uncover(n);
                    if blank {
                        pending.push(n);
                    }
                    proof {
                        assert forall|d: Position|
                            self@.opened.contains(d) && before.openable(d) && before.blank(d)
                                && !pending@.push(c).contains(d) implies #[trigger] settled(
                            before,
                            self@.opened,
                            d,
                        ) by {
                            if d == n {
                                assert(pending@.last() == n);
                                assert(pending@.push(c)[pending.len() - 1] == n);
                            } else {
                                assert(opened_before.contains(d));
                                if pending_before.push(c).contains(d) {
                                    let i = choose|i: int|
                                        0 <= i < pending_before.push(c).len()
                                            && pending_before.push(c)[i] == d;
                                    if i < pending_before.len() {
                                        assert(pending@.push(c)[i] == d);
                                    } else {
                                        assert(pending@.push(c)[pending.len() as int] == d);
                                    }
                                }
                                assert(settled(before, opened_before, d));
                            }
                        }
                    }
                }
                k += 1;
            }
            proof {
                assert forall|d: Position|
                    self@.opened.contains(d) && before.openable(d) && before.blank(d)
                        && !pending@.contains(d) implies #[trigger] settled(
                    before,
                    self@.opened,
                    d,
                ) by {
                    if d == c {
                        assert forall|n: Position|
                            adjacent(c, n) && before.openable(n) implies self@.opened.contains(
                            n,
                        ) by {
                            assert(self@.neighbors(c).contains(n));
                            assert(around@.contains(n));
                            let j = choose|j: int| 0 <= j < around.len() && around[j] == n;
                            assert(before.openable(around[j]));
                        }
                    } else {
                        if pending@.push(c).contains(d) {
                            let i = choose|i: int|
                                0 <= i < pending@.push(c).len() && pending@.push(c)[i] == d;
                            assert(pending@[i] == d);
                        }
                    }
                }
                self.lemma_wf_is_valid();
            }
        }
        proof {
            assert(pending@ =~= Seq::empty());
            lemma_closed_covers_region(before, self@.opened, position);
            assert(self@.opened =~= before.opened.union(before.fill_region(position)));
            assert(self@ =~= before.after_open(position));
        }
        Some(OpenResult::NoMine(count))
    }
    /// Sets a flag on the cell at `pos`, or takes its flag away.
    ///
    /// Nothing happens if the game is lost, if `pos` is not a cell of the grid, or if
    /// the cell is opened.
    pub fn toggle_flag(&mut self, pos: Position)
        requires
            old(self).wf(),
        ensures
            final(self).wf(),
            final(self)@ == old(self)@.after_toggle_flag(pos),
    {
        if self.lost || pos.0 >= self.width || pos.1 >= self.height || self.is_opened(pos) {
            return ;
        }
        let i: usize = self.index(pos);
        if self.flagged.contains(&i) {
            self.flagged.remove(&i);
            proof {
                lemma_cells_remove(old(self).flagged@, self.width, self.height, pos);
                assert(self@ =~= old(self)@.after_toggle_flag(pos));
            }
        } else {
            self.flagged.insert(i);
            proof {
                lemma_cells_insert(old(self).flagged@, self.width, self.height, pos);
                assert(self@ =~= old(self)@.after_toggle_flag(pos));
            }
        }
    }

    /// Whether the player has won: no mine was opened, and every cell without a mine
    /// is opened.
    pub fn won(&self) -> (r: bool)
        requires
            self.wf(),
        ensures
            r == self@.won(),
    {
        proof {
            lemma_cells_len(self.open_case@, self.width, self.height);
            lemma_cells_len(self.mines@, self.width, self.height);
            lemma_bounded_len(self.mines@, (self.width * self.height) as usize);
        }
        !self.lost && self.open_case.len() == self.width * self.height - self.mines.len()
    }

    /// What the player sees of the cell at `pos`. A position outside the grid reads
    /// as a hidden cell.
    pub fn cell(&self, pos: Position) -> (c: Cell)
        requires
            self.wf(),
        ensures
            c == self@.cell(pos),
            c matches Cell::Open(count) ==> count <= 8,
    {
        if !self.is_opened(pos) {
            if self.is_flagged(pos) {
                Cell::Flagged
            } else {
                Cell::Hidden
            }
        } else if self.is_mine(pos) {
            Cell::Mine
        } else {
            Cell::Open(self.neighboring_mines(pos))
        }
    }

    /// Renders the board as text: one line for each row, from the top, and in each
    /// line one marker for each cell, from the left.
    pub fn to_text(&self) -> (text: String)
        requires
            self.wf(),
        ensures
            text@ == self@.text(),
    {
        let mut text = String::new();
        let mut y: usize = 0;
        while y < self.height
            invariant
                self.wf(),
                y <= self.height,
                text@ == self@.rows_text(y as nat),
            decreases self.height - y,
        {
            let ghost above = text@;
            let mut x: usize = 0;
            while x < self.width
                invariant
                    self.wf(),
                    y < self.height,
                    x <= self.width,
                    text@ == above + self@.row_text(y as nat, x as nat),
                decreases self.width - x,
            {
                let c = self.cell((x, y));
                text.append(marker_text(c));
                proof {
                    assert(text@ =~= above + self@.row_text(y as nat, (x + 1) as nat));
                }
                x += 1;
            }
            text.append("\n");
            proof {
                reveal_strlit("\n");
                assert("\n"@ =~= seq!['\n']);
                assert(text@ =~= self@.rows_text((y + 1) as nat));
            }
            y += 1;
        }
        text
    }
}

} // verus!
