//! Grid geometry: positions, adjacency, and the numbering of cells by row.

use vstd::arithmetic::div_mod::{
    lemma_fundamental_div_mod, lemma_fundamental_div_mod_converse_div,
    lemma_fundamental_div_mod_converse_mod, lemma_multiply_divide_lt,
};
use vstd::prelude::*;
use vstd::relations::injective_on;
use vstd::set_lib::{lemma_len_subset, lemma_map_size};

verus! {

/// A cell of the grid: `(column, row)`, both counted from zero.
pub type Position = (usize, usize);

/// Whether `p` lies on a grid of the given size.
pub open spec fn in_grid(width: nat, height: nat, p: Position) -> bool {
    p.0 < width && p.1 < height
}

/// Whether `p` and `q` are distinct cells that touch, by a side or by a corner.
pub open spec fn adjacent(p: Position, q: Position) -> bool {
    &&& p != q
    &&& p.0 - q.0 <= 1
    &&& q.0 - p.0 <= 1
    &&& p.1 - q.1 <= 1
    &&& q.1 - p.1 <= 1
}

/// Whether `p` comes before `q` when cells are listed column by column, and within a
/// column from the top row down.
pub open spec fn precedes(p: Position, q: Position) -> bool {
    p.0 < q.0 || (p.0 == q.0 && p.1 < q.1)
}

/// The cells of the grid that touch `p`.
pub open spec fn neighbors_of(width: nat, height: nat, p: Position) -> Set<Position> {
    Set::new(|q: Position| in_grid(width, height, q) && adjacent(p, q))
}

/// All cells of a grid of the given size.
pub open spec fn grid_cells(width: nat, height: nat) -> Set<Position> {
    Set::new(|p: Position| in_grid(width, height, p))
}

/// The number of a cell when the grid is numbered row by row.
pub open spec fn index_of(width: usize, p: Position) -> int {
    p.1 * width + p.0
}

/// The cell that carries number `i`.
pub open spec fn position_of(width: usize, i: usize) -> Position {
    ((i % width) as usize, (i / width) as usize)
}

/// The cells whose numbers are in `indices`.
pub open spec fn cells_of(indices: Set<usize>, width: usize, height: usize) -> Set<Position> {
    Set::new(
        |p: Position|
            p.0 < width && p.1 < height && indices.contains(index_of(width, p) as usize),
    )
}

/// Whether every number in `indices` belongs to a cell of the grid.
pub open spec fn indices_in_grid(indices: Set<usize>, width: usize, height: usize) -> bool {
    forall|i: usize| indices.contains(i) ==> i < width * height
}

/// The first `width` cells of a row are finitely many.
proof fn lemma_row_finite(width: nat, row: usize)
    ensures
        Set::new(|p: Position| p.0 < width && p.1 == row).finite(),
    decreases width,
{
    let cells = Set::new(|p: Position| p.0 < width && p.1 == row);
    if width == 0 {
        assert(cells =~= Set::empty());
    } else {
        let shorter = Set::new(|p: Position| p.0 < (width - 1) as nat && p.1 == row);
        lemma_row_finite((width - 1) as nat, row);
        if width - 1 <= usize::MAX {
            assert(cells =~= shorter.insert(((width - 1) as usize, row)));
        } else {
            assert(cells =~= shorter);
        }
    }
}

/// A grid has finitely many cells.
pub proof fn lemma_grid_finite(width: nat, height: nat)
    ensures
        grid_cells(width, height).finite(),
    decreases height,
{
    let cells = grid_cells(width, height);
    if height == 0 {
        assert(cells =~= Set::empty());
    } else {
        let above = grid_cells(width, (height - 1) as nat);
        lemma_grid_finite(width, (height - 1) as nat);
        if height - 1 <= usize::MAX {
            let row = Set::new(|p: Position| p.0 < width && p.1 == (height - 1) as usize);
            lemma_row_finite(width, (height - 1) as usize);
            assert(cells =~= above.union(row));
        } else {
            assert(cells =~= above);
        }
    }
}

/// The step from a cell to the `k`th of the eight places around it, as a pair of
/// column and row offsets.
spec fn offset(k: int) -> (int, int) {
    let place = if k < 4 {
        k
    } else {
        k + 1
    };
    (place / 3 - 1, place % 3 - 1)
}

/// The cells at the first `k` of the eight places around `p`.
spec fn places(p: Position, k: int) -> Set<Position> {
    Set::new(
        |q: Position|
            exists|j: int| 0 <= j < k && q.0 == p.0 + offset(j).0 && q.1 == p.1 + offset(j).1,
    )
}

/// The first `k` places around a cell hold at most `k` cells.
proof fn lemma_places_len(p: Position, k: int)
    requires
        0 <= k <= 8,
    ensures
        places(p, k).finite(),
        places(p, k).len() <= k,
    decreases k,
{
    if k == 0 {
        assert(places(p, k) =~= Set::empty());
    } else {
        lemma_places_len(p, k - 1);
        let column = p.0 + offset(k - 1).0;
        let row = p.1 + offset(k - 1).1;
        let fewer = places(p, k - 1);
        if 0 <= column <= usize::MAX && 0 <= row <= usize::MAX {
            let q = (column as usize, row as usize);
            assert forall|r: Position| places(p, k).contains(r) <==> fewer.insert(q).contains(
                r,
            ) by {
                if places(p, k).contains(r) {
                    let j = choose|j: int|
                        0 <= j < k && r.0 == p.0 + offset(j).0 && r.1 == p.1 + offset(j).1;
                    if j < k - 1 {
                        assert(fewer.contains(r));
                    }
                }
                if fewer.contains(r) {
                    let j = choose|j: int|
                        0 <= j < k - 1 && r.0 == p.0 + offset(j).0 && r.1 == p.1 + offset(j).1;
                    assert(0 <= j < k);
                }
                if r == q {
                    assert(0 <= k - 1 < k && r.0 == p.0 + offset(k - 1).0);
                }
            }
            assert(places(p, k) =~= fewer.insert(q));
        } else {
            assert forall|r: Position| places(p, k).contains(r) <==> fewer.contains(r) by {
                if places(p, k).contains(r) {
                    let j = choose|j: int|
                        0 <= j < k && r.0 == p.0 + offset(j).0 && r.1 == p.1 + offset(j).1;
                    assert(j < k - 1);
                }
                if fewer.contains(r) {
                    let j = choose|j: int|
                        0 <= j < k - 1 && r.0 == p.0 + offset(j).0 && r.1 == p.1 + offset(j).1;
                    assert(0 <= j < k);
                }
            }
            assert(places(p, k) =~= fewer);
        }
    }
}

/// A cell has at most eight neighbors.
pub proof fn lemma_at_most_eight_neighbors(width: nat, height: nat, p: Position)
    ensures
        neighbors_of(width, height, p).finite(),
        neighbors_of(width, height, p).len() <= 8,
{
    lemma_places_len(p, 8);
    assert forall|q: Position| neighbors_of(width, height, p).contains(q) implies places(
        p,
        8,
    ).contains(q) by {
        let place = (q.0 - p.0 + 1) * 3 + (q.1 - p.1 + 1);
        let j = if place < 4 {
            place
        } else {
            place - 1
        };
        assert(0 <= j < 8 && q.0 == p.0 + offset(j).0 && q.1 == p.1 + offset(j).1);
    }
    lemma_len_subset(neighbors_of(width, height, p), places(p, 8));
}

/// A cell of the grid has a number below `width * height`.
pub proof fn lemma_index_in_range(width: usize, height: usize, p: Position)
    requires
        p.0 < width,
        p.1 < height,
    ensures
        0 <= index_of(width, p) < width * height,
        p.1 * width <= index_of(width, p),
{
    assert(0 <= p.1 * width && p.1 * width + p.0 < width * height) by (nonlinear_arith)
        requires
            0 <= p.0 < width,
            0 <= p.1 < height,
    ;
}

/// Distinct cells of one grid have distinct numbers.
pub proof fn lemma_index_injective(width: usize, p: Position, q: Position)
    requires
        p.0 < width,
        q.0 < width,
        index_of(width, p) == index_of(width, q),
    ensures
        p == q,
{
    assert(p.1 == q.1) by (nonlinear_arith)
        requires
            0 <= p.0 < width,
            0 <= q.0 < width,
            0 <= p.1,
            0 <= q.1,
            p.1 * width + p.0 == q.1 * width + q.0,
    ;
}

/// Numbering a cell and reading the number back gives the same cell.
pub proof fn lemma_position_of_index(width: usize, height: usize, p: Position)
    requires
        p.0 < width,
        p.1 < height,
        width * height <= usize::MAX,
    ensures
        position_of(width, index_of(width, p) as usize) == p,
{
    lemma_index_in_range(width, height, p);
    let i = index_of(width, p);
    lemma_fundamental_div_mod_converse_div(i, width as int, p.1 as int, p.0 as int);
    lemma_fundamental_div_mod_converse_mod(i, width as int, p.1 as int, p.0 as int);
}

/// A number below `width * height` belongs to a cell of the grid, and that cell
/// carries the number.
pub proof fn lemma_index_of_position(width: usize, height: usize, i: usize)
    requires
        i < width * height,
    ensures
        position_of(width, i).0 < width,
        position_of(width, i).1 < height,
        index_of(width, position_of(width, i)) == i,
{
    assert(width > 0) by (nonlinear_arith)
        requires
            i < width * height,
            0 <= i,
            0 <= width,
    ;
    lemma_fundamental_div_mod(i as int, width as int);
    lemma_multiply_divide_lt(i as int, width as int, height as int);
    assert((i / width) * width == width * (i / width)) by (nonlinear_arith);
}

/// Numbers and cells correspond one to one, so a set of cells is as large as the set
/// of its numbers.
pub proof fn lemma_cells_len(indices: Set<usize>, width: usize, height: usize)
    requires
        indices.finite(),
        indices_in_grid(indices, width, height),
        width * height <= usize::MAX,
    ensures
        cells_of(indices, width, height).finite(),
        cells_of(indices, width, height).len() == indices.len(),
{
    let decode = |i: usize| position_of(width, i);
    let cells = cells_of(indices, width, height);
    assert(injective_on(decode, indices)) by {
        assert forall|i: usize, j: usize|
            indices.contains(i) && indices.contains(j) && #[trigger] decode(i) == #[trigger] decode(
                j,
            ) implies i == j by {
            lemma_index_of_position(width, height, i);
            lemma_index_of_position(width, height, j);
        }
    }
    assert(indices.map(decode) =~= cells) by {
        assert forall|p: Position| indices.map(decode).contains(p) implies cells.contains(p) by {
            let i = choose|i: usize| indices.contains(i) && p == decode(i);
            lemma_index_of_position(width, height, i);
        }
        assert forall|p: Position| cells.contains(p) implies indices.map(decode).contains(p) by {
            lemma_position_of_index(width, height, p);
            lemma_index_in_range(width, height, p);
            let i = index_of(width, p) as usize;
            assert(indices.contains(i) && p == decode(i));
        }
    }
    lemma_map_size(indices, cells, decode);
}

/// Adding a cell's number to a set of numbers adds the cell to the set of cells.
pub proof fn lemma_cells_insert(indices: Set<usize>, width: usize, height: usize, p: Position)
    requires
        p.0 < width,
        p.1 < height,
        width * height <= usize::MAX,
    ensures
        cells_of(indices.insert(index_of(width, p) as usize), width, height) == cells_of(
            indices,
            width,
            height,
        ).insert(p),
{
    let more = cells_of(indices.insert(index_of(width, p) as usize), width, height);
    let cells = cells_of(indices, width, height).insert(p);
    lemma_index_in_range(width, height, p);
    assert forall|q: Position| more.contains(q) <==> cells.contains(q) by {
        if q.0 < width && q.1 < height {
            lemma_index_in_range(width, height, q);
            if index_of(width, q) == index_of(width, p) {
                lemma_index_injective(width, p, q);
            }
        }
    }
    assert(more =~= cells);
}

/// Taking a cell's number out of a set of numbers takes the cell out of the set of
/// cells.
pub proof fn lemma_cells_remove(indices: Set<usize>, width: usize, height: usize, p: Position)
    requires
        p.0 < width,
        p.1 < height,
        width * height <= usize::MAX,
    ensures
        cells_of(indices.remove(index_of(width, p) as usize), width, height) == cells_of(
            indices,
            width,
            height,
        ).remove(p),
{
    let fewer = cells_of(indices.remove(index_of(width, p) as usize), width, height);
    let cells = cells_of(indices, width, height).remove(p);
    lemma_index_in_range(width, height, p);
    assert forall|q: Position| fewer.contains(q) <==> cells.contains(q) by {
        if q.0 < width && q.1 < height {
            lemma_index_in_range(width, height, q);
            if index_of(width, q) == index_of(width, p) {
                lemma_index_injective(width, p, q);
            }
        }
    }
    assert(fewer =~= cells);
}

/// A finite set of numbers below `bound` has at most `bound` members.
pub proof fn lemma_bounded_len(indices: Set<usize>, bound: usize)
    requires
        indices.finite(),
        forall|i: usize| indices.contains(i) ==> i < bound,
    ensures
        indices.len() <= bound,
    decreases bound,
{
    if bound == 0 {
        assert(indices =~= Set::empty());
    } else {
        let top = (bound - 1) as usize;
        lemma_bounded_len(indices.remove(top), top);
        if indices.contains(top) {
            assert(indices.remove(top).insert(top) =~= indices);
        } else {
            assert(indices.remove(top) =~= indices);
        }
    }
}

} // verus!
