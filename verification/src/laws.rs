//! The laws of the game, proved of the model that the engine's contracts speak of.

use crate::fill::{lemma_reached_is_safe, lemma_reaches_next, lemma_reaches_start};
use crate::grid::{
    adjacent, grid_cells, lemma_at_most_eight_neighbors, lemma_grid_finite, Position,
};
use crate::model::{Board, Move, OpenResult};
use vstd::prelude::*;
use vstd::set_lib::lemma_len_subset;

verus! {

/// Whether `path` leads from `from` to `to` through cells of `region`, each touching
/// the next.
pub open spec fn links(region: Set<Position>, path: Seq<Position>, from: Position, to: Position) -> bool {
    &&& path.len() > 0
    &&& path.first() == from
    &&& path.last() == to
    &&& forall|i: int| 0 <= i < path.len() ==> region.contains(#[trigger] path[i])
    &&& forall|i: int| 0 <= i < path.len() - 1 ==> adjacent(#[trigger] path[i], path[i + 1])
}

/// No cell has more than eight mines around it.
pub proof fn lemma_count_at_most_eight(b: Board, p: Position)
    ensures
        b.neighboring_mines(p) <= 8,
{
    lemma_at_most_eight_neighbors(b.width, b.height, p);
    lemma_len_subset(b.neighbors(p).intersect(b.mines), b.neighbors(p));
}

/// An opening uncovers only cells of the grid that were neither opened nor flagged,
/// and finitely many of them.
pub proof fn lemma_region_in_grid(b: Board, from: Position)
    ensures
        b.fill_region(from).finite(),
        forall|q: Position| b.fill_region(from).contains(q) ==> b.openable(q),
{
    assert forall|q: Position| b.fill_region(from).contains(q) implies b.openable(q) by {
        let path = choose|path: Seq<Position>|
            b.fill_path(path) && #[trigger] path.first() == from && path.last() == q;
        assert(b.openable(path[path.len() - 1]));
    }
    lemma_grid_finite(b.width, b.height);
    assert(b.fill_region(from).subset_of(grid_cells(b.width, b.height)));
    lemma_len_subset(b.fill_region(from), grid_cells(b.width, b.height));
}

/// Opening a cell keeps a valid board valid. It never takes back an opening, and
/// leaves the grid, the mines and the flags as they were.
pub proof fn lemma_open_keeps_valid(b: Board, p: Position)
    requires
        b.valid(),
    ensures
        b.after_open(p).valid(),
        b.opened.subset_of(b.after_open(p).opened),
        b.after_open(p).width == b.width,
        b.after_open(p).height == b.height,
        b.after_open(p).mines == b.mines,
        b.after_open(p).flagged == b.flagged,
{
    if b.can_open(p) {
        let a = b.after_open(p);
        lemma_region_in_grid(b, p);
        lemma_reaches_start(b, p);
        assert(a.opened.contains(p));
        if !b.mines.contains(p) {
            assert forall|q: Position| a.opened.contains(q) implies !a.mines.contains(q) by {
                if !b.opened.contains(q) && q != p {
                    lemma_reached_is_safe(b, p, q);
                }
            }
        }
    }
}

/// Toggling a flag keeps a valid board valid, and changes nothing but the flags.
pub proof fn lemma_toggle_flag_keeps_valid(b: Board, p: Position)
    requires
        b.valid(),
    ensures
        b.after_toggle_flag(p).valid(),
        b.after_toggle_flag(p).opened == b.opened,
        b.after_toggle_flag(p).width == b.width,
        b.after_toggle_flag(p).height == b.height,
        b.after_toggle_flag(p).mines == b.mines,
        b.after_toggle_flag(p).lost == b.lost,
{
}

/// Whatever the player does, the board stays valid: the mines and the grid stay as
/// they were, no opening is taken back, and no cell is at once flagged and opened.
pub proof fn lemma_play_keeps_valid(b: Board, moves: Seq<Move>)
    requires
        b.valid(),
    ensures
        b.play(moves).valid(),
        b.play(moves).flagged.intersect(b.play(moves).opened) == Set::<Position>::empty(),
        b.opened.subset_of(b.play(moves).opened),
        b.play(moves).width == b.width,
        b.play(moves).height == b.height,
        b.play(moves).mines == b.mines,
    decreases moves.len(),
{
    if moves.len() > 0 {
        lemma_play_keeps_valid(b, moves.drop_last());
        let earlier = b.play(moves.drop_last());
        match moves.last() {
            Move::Open(p) => lemma_open_keeps_valid(earlier, p),
            Move::ToggleFlag(p) => lemma_toggle_flag_keeps_valid(earlier, p),
        }
    }
    let end = b.play(moves);
    assert(end.flagged.intersect(end.opened) =~= Set::<Position>::empty());
}

/// Opening a cell a second time changes nothing and reports nothing.
pub proof fn lemma_open_twice(b: Board, p: Position)
    ensures
        b.after_open(p).after_open(p) == b.after_open(p),
        b.after_open(p).open_result(p) is None,
{
    if b.can_open(p) {
        lemma_reaches_start(b, p);
        assert(b.after_open(p).opened.contains(p));
    }
}

/// A cell that carries a flag cannot be opened: the attempt changes nothing and
/// reports nothing.
pub proof fn lemma_flag_blocks_open(b: Board, p: Position)
    requires
        b.flagged.contains(p),
    ensures
        b.after_open(p) == b,
        b.open_result(p) is None,
{
}

/// Flagging a cell and then opening it leaves the flag in place and the cell closed;
/// taking the flag away again gives back the board as it was, on which the cell can
/// be opened.
pub proof fn lemma_flag_then_open(b: Board, p: Position)
    requires
        b.can_flag(p),
        !b.flagged.contains(p),
    ensures
        b.after_toggle_flag(p).flagged.contains(p),
        b.after_toggle_flag(p).after_open(p) == b.after_toggle_flag(p),
        b.after_toggle_flag(p).after_toggle_flag(p) == b,
        b.can_open(p),
{
    lemma_toggle_flag_twice(b, p);
}

/// Toggling the flag on a cell twice gives back the board as it was.
pub proof fn lemma_toggle_flag_twice(b: Board, p: Position)
    ensures
        b.after_toggle_flag(p).after_toggle_flag(p) == b,
{
    if b.can_flag(p) {
        if b.flagged.contains(p) {
            assert(b.flagged.remove(p).insert(p) =~= b.flagged);
        } else {
            assert(b.flagged.insert(p).remove(p) =~= b.flagged);
        }
        assert(b.after_toggle_flag(p).after_toggle_flag(p) =~= b);
    }
}

/// Opening a mine loses the game, and from then on no move changes the board.
pub proof fn lemma_mine_ends_game(b: Board, p: Position, moves: Seq<Move>)
    requires
        b.can_open(p),
        b.mines.contains(p),
    ensures
        b.open_result(p) == Some(OpenResult::Mine),
        b.after_open(p).lost,
        b.after_open(p).play(moves) == b.after_open(p),
{
    lemma_lost_is_final(b.after_open(p), moves);
}

/// On a lost board no move changes anything, and no opening reports anything.
pub proof fn lemma_lost_is_final(b: Board, moves: Seq<Move>)
    requires
        b.lost,
    ensures
        b.play(moves) == b,
        forall|p: Position| b.after_open(p) == b && b.open_result(p) is None,
        forall|p: Position| b.after_toggle_flag(p) == b,
    decreases moves.len(),
{
    if moves.len() > 0 {
        lemma_lost_is_final(b, moves.drop_last());
    }
}

/// The cells that an opening uncovers hang together: each of them is linked to the
/// cell that was opened by a chain of uncovered cells, each touching the next.
pub proof fn lemma_fill_is_connected(b: Board, p: Position, q: Position)
    requires
        b.can_open(p),
        b.after_open(p).opened.contains(q),
        !b.opened.contains(q),
    ensures
        exists|path: Seq<Position>|
            links(b.after_open(p).opened.difference(b.opened), path, p, q),
{
    if b.mines.contains(p) {
        lemma_reaches_start(b, p);
    }
    let path = choose|path: Seq<Position>|
        b.fill_path(path) && #[trigger] path.first() == p && path.last() == q;
    let fresh = b.after_open(p).opened.difference(b.opened);
    assert forall|i: int| 0 <= i < path.len() implies fresh.contains(#[trigger] path[i]) by {
        let start = path.take(i + 1);
        assert forall|j: int| 0 <= j < start.len() implies b.openable(#[trigger] start[j]) by {
            assert(start[j] == path[j]);
        }
        assert forall|j: int| 0 <= j < start.len() - 1 implies b.blank(#[trigger] start[j])
            && adjacent(start[j], start[j + 1]) by {
            assert(start[j] == path[j]);
            assert(start[j + 1] == path[j + 1]);
        }
        assert(b.fill_path(start) && start.first() == p && start.last() == path[i]);
        assert(b.reaches(p, path[i]));
        assert(b.openable(path[i]));
    }
    assert(links(fresh, path, p, q));
}

/// An opening at a cell without a mine stops only where there are mines about: an
/// uncovered cell that touches a cell left closed and unflagged has a mine next to
/// it, and holds none itself.
pub proof fn lemma_fill_stops_at_counts(b: Board, p: Position, q: Position, n: Position)
    requires
        b.valid(),
        b.can_open(p),
        !b.mines.contains(p),
        b.after_open(p).opened.contains(q),
        !b.opened.contains(q),
        b.has(n),
        adjacent(q, n),
        !b.after_open(p).opened.contains(n),
        !b.flagged.contains(n),
    ensures
        b.neighboring_mines(q) > 0,
        !b.mines.contains(q),
{
    if q != p {
        lemma_reached_is_safe(b, p, q);
    }
    if b.neighboring_mines(q) == 0 {
        lemma_reaches_next(b, p, q, n);
    }
}

} // verus!
