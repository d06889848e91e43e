//! Facts about how an opening spreads over blank cells.

use crate::grid::{adjacent, Position};
use crate::model::Board;
use vstd::prelude::*;

verus! {

/// Whether every cell that touches `c` and could be opened on `before` is in `opened`.
pub open spec fn settled(before: Board, opened: Set<Position>, c: Position) -> bool {
    forall|n: Position| adjacent(c, n) && before.openable(n) ==> opened.contains(n)
}

/// Whether `opened` holds everything that an opening spreads to from the blank cells
/// it uncovered, but for the cells in `pending`, whose surroundings are still to be
/// looked at.
pub open spec fn closed_but(before: Board, opened: Set<Position>, pending: Seq<Position>) -> bool {
    forall|c: Position|
        opened.contains(c) && before.openable(c) && before.blank(c) && !pending.contains(c)
            ==> #[trigger] settled(before, opened, c)
}

/// An opening reaches the cell it starts at.
pub proof fn lemma_reaches_start(b: Board, p: Position)
    requires
        b.openable(p),
    ensures
        b.reaches(p, p),
{
    let path = seq![p];
    assert(b.fill_path(path) && path.first() == p && path.last() == p);
}

/// An opening that reaches a blank cell reaches every cell around it that can be
/// opened.
pub proof fn lemma_reaches_next(b: Board, from: Position, c: Position, n: Position)
    requires
        b.reaches(from, c),
        b.blank(c),
        adjacent(c, n),
        b.openable(n),
    ensures
        b.reaches(from, n),
{
    let path = choose|path: Seq<Position>|
        b.fill_path(path) && #[trigger] path.first() == from && path.last() == c;
    let longer = path.push(n);
    assert forall|i: int| 0 <= i < longer.len() implies b.openable(#[trigger] longer[i]) by {
        if i < path.len() {
            assert(longer[i] == path[i]);
        }
    }
    assert forall|i: int| 0 <= i < longer.len() - 1 implies b.blank(#[trigger] longer[i])
        && adjacent(longer[i], longer[i + 1]) by {
        assert(longer[i] == path[i]);
        if i < path.len() - 1 {
            assert(longer[i + 1] == path[i + 1]);
        }
    }
    assert(b.fill_path(longer) && longer.first() == from && longer.last() == n);
}

/// An opening at a cell that is not blank uncovers that cell alone.
pub proof fn lemma_region_of_plain(b: Board, p: Position)
    requires
        b.openable(p),
        !b.blank(p),
    ensures
        b.fill_region(p) == set![p],
{
    lemma_reaches_start(b, p);
    assert forall|q: Position| b.reaches(p, q) implies q == p by {
        let path = choose|path: Seq<Position>|
            b.fill_path(path) && #[trigger] path.first() == p && path.last() == q;
        if path.len() > 1 {
            assert(b.blank(path[0]));
        }
    }
    assert(b.fill_region(p) =~= set![p]);
}

/// No cell around a blank cell holds a mine.
pub proof fn lemma_blank_has_safe_neighbors(b: Board, c: Position, n: Position)
    requires
        b.mines.finite(),
        b.blank(c),
        b.has(n),
        adjacent(c, n),
    ensures
        !b.mines.contains(n),
{
    let near = b.neighbors(c).intersect(b.mines);
    near.lemma_len0_is_empty();
    if b.mines.contains(n) {
        assert(b.neighbors(c).contains(n));
        assert(near.contains(n));
    }
}

/// An opening reaches no mine but, at most, the cell it starts at.
pub proof fn lemma_reached_is_safe(b: Board, from: Position, to: Position)
    requires
        b.mines.finite(),
        b.reaches(from, to),
        to != from,
    ensures
        !b.mines.contains(to),
{
    let path = choose|path: Seq<Position>|
        b.fill_path(path) && #[trigger] path.first() == from && path.last() == to;
    let last = path.len() - 1;
    assert(b.openable(path[last]));
    assert(b.blank(path[last - 1]) && adjacent(path[last - 1], path[last - 1 + 1]));
    lemma_blank_has_safe_neighbors(b, path[last - 1], to);
}

/// Once nothing is pending, `opened` holds every cell along a path of the opening.
pub proof fn lemma_closed_covers_path(
    before: Board,
    opened: Set<Position>,
    path: Seq<Position>,
    i: int,
)
    requires
        before.fill_path(path),
        opened.contains(path.first()),
        closed_but(before, opened, Seq::empty()),
        0 <= i < path.len(),
    ensures
        opened.contains(path[i]),
    decreases i,
{
    if i > 0 {
        lemma_closed_covers_path(before, opened, path, i - 1);
        let c = path[i - 1];
        assert(before.openable(c));
        assert(before.blank(c) && adjacent(c, path[i - 1 + 1]));
        assert(before.openable(path[i]));
        assert(settled(before, opened, c));
    }
}

/// Once nothing is pending, `opened` holds the whole region of the opening.
pub proof fn lemma_closed_covers_region(before: Board, opened: Set<Position>, from: Position)
    requires
        opened.contains(from),
        closed_but(before, opened, Seq::empty()),
    ensures
        before.fill_region(from).subset_of(opened),
{
    assert forall|q: Position| before.fill_region(from).contains(q) implies opened.contains(q) by {
        let path = choose|path: Seq<Position>|
            before.fill_path(path) && #[trigger] path.first() == from && path.last() == q;
        lemma_closed_covers_path(before, opened, path, path.len() - 1);
    }
}

} // verus!
