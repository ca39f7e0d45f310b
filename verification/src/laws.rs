//! General properties of the step rule, proved once for every board:
//! still lifes, the blinker's oscillation, and the hard grid boundary.

use vstd::prelude::*;

use crate::engine::Cell;
use crate::engine::neighbor_count;
use crate::engine::next_cell;
use crate::engine::step;

use vstd::arithmetic::div_mod::lemma_fundamental_div_mod;
use vstd::arithmetic::mul::lemma_mul_is_commutative;

verus! {

/// A two-by-two block of Alive cells with every other cell Dead is a
/// fixed point of the step rule: one generation leaves the board
/// unchanged, wherever on a board of at least four by four the block
/// stands.
pub proof fn lemma_block_fixed_point(w: int, h: int, cells: Seq<Cell>, bx: int, by: int)
    requires
        w >= 4,
        h >= 4,
        cells.len() == w * h,
        0 <= bx,
        bx + 2 <= w,
        0 <= by,
        by + 2 <= h,
        forall|x: int, y: int|
            0 <= x < w && 0 <= y < h ==> ((#[trigger] cells[x + y * w] == Cell::Alive) <==> (bx <= x
                < bx + 2 && by <= y < by + 2)),
    ensures
        step(w, h, cells) == cells,
{
    assert forall|i: int| 0 <= i < w * h implies step(w, h, cells)[i] == cells[i] by {
        lemma_fundamental_div_mod(i, w);
        lemma_mul_is_commutative(w, i / w);
        let x = i % w;
        let y = i / w;
        assert(0 <= y < h) by (nonlinear_arith)
            requires
                0 <= i < w * h,
                w >= 1,
                i == y * w + x,
                0 <= x < w,
        ;
        assert(step(w, h, cells)[i] == next_cell(w, h, cells, x, y));
        assert(next_cell(w, h, cells, x, y) == cells[x + y * w]);
    }
    assert(step(w, h, cells) =~= cells);
}

/// One step turns a vertical three-cell line at `(1, 0)..(1, 2)` (all
/// else Dead, board at least five by five) into the horizontal line at
/// `(0, 1)..(2, 1)`.
pub proof fn lemma_line_v_to_h(w: int, h: int, cells: Seq<Cell>)
    requires
        w >= 5,
        h >= 5,
        cells.len() == w * h,
        forall|x: int, y: int|
            0 <= x < w && 0 <= y < h ==> ((#[trigger] cells[x + y * w] == Cell::Alive) <==> (x == 1
                && 0 <= y <= 2)),
    ensures
        forall|x: int, y: int|
            0 <= x < w && 0 <= y < h ==> ((#[trigger] step(w, h, cells)[x + y * w] == Cell::Alive)
                <==> (y == 1 && 0 <= x <= 2)),
{
    assert forall|x: int, y: int| 0 <= x < w && 0 <= y < h implies ((#[trigger] step(
        w,
        h,
        cells,
    )[x + y * w] == Cell::Alive) <==> (y == 1 && 0 <= x <= 2)) by {
        let i = x + y * w;
        assert(0 <= i < w * h) by (nonlinear_arith)
            requires
                0 <= x < w,
                0 <= y < h,
                i == x + y * w,
        ;
        vstd::arithmetic::div_mod::lemma_fundamental_div_mod_converse(i, w, y, x);
        lemma_mul_is_commutative(w, y);
        assert(step(w, h, cells)[i] == next_cell(w, h, cells, x, y));
    }
}

/// One step turns a horizontal three-cell line at `(0, 1)..(2, 1)` (all
/// else Dead, board at least five by five) into the vertical line at
/// `(1, 0)..(1, 2)`.
pub proof fn lemma_line_h_to_v(w: int, h: int, cells: Seq<Cell>)
    requires
        w >= 5,
        h >= 5,
        cells.len() == w * h,
        forall|x: int, y: int|
            0 <= x < w && 0 <= y < h ==> ((#[trigger] cells[x + y * w] == Cell::Alive) <==> (y == 1
                && 0 <= x <= 2)),
    ensures
        forall|x: int, y: int|
            0 <= x < w && 0 <= y < h ==> ((#[trigger] step(w, h, cells)[x + y * w] == Cell::Alive)
                <==> (x == 1 && 0 <= y <= 2)),
{
    assert forall|x: int, y: int| 0 <= x < w && 0 <= y < h implies ((#[trigger] step(
        w,
        h,
        cells,
    )[x + y * w] == Cell::Alive) <==> (x == 1 && 0 <= y <= 2)) by {
        let i = x + y * w;
        assert(0 <= i < w * h) by (nonlinear_arith)
            requires
                0 <= x < w,
                0 <= y < h,
                i == x + y * w,
        ;
        vstd::arithmetic::div_mod::lemma_fundamental_div_mod_converse(i, w, y, x);
        lemma_mul_is_commutative(w, y);
        assert(step(w, h, cells)[i] == next_cell(w, h, cells, x, y));
    }
}

/// The three-cell blinker oscillates with period two: one step yields the
/// other orientation about the same centre, a second step restores the
/// board exactly.
pub proof fn lemma_blinker_oscillates(w: int, h: int, cells: Seq<Cell>)
    requires
        w >= 5,
        h >= 5,
        cells.len() == w * h,
        forall|x: int, y: int|
            0 <= x < w && 0 <= y < h ==> ((#[trigger] cells[x + y * w] == Cell::Alive) <==> (x == 1
                && 0 <= y <= 2)),
    ensures
        forall|x: int, y: int|
            0 <= x < w && 0 <= y < h ==> ((#[trigger] step(w, h, cells)[x + y * w] == Cell::Alive)
                <==> (y == 1 && 0 <= x <= 2)),
        step(w, h, step(w, h, cells)) == cells,
{
    lemma_line_v_to_h(w, h, cells);
    let mid = step(w, h, cells);
    assert(mid.len() == w * h) by (nonlinear_arith)
        requires
            mid.len() == (w * h) as nat,
            w >= 5,
            h >= 5,
    ;
    lemma_line_h_to_v(w, h, mid);
    let back = step(w, h, mid);
    assert forall|i: int| 0 <= i < w * h implies back[i] == cells[i] by {
        lemma_fundamental_div_mod(i, w);
        lemma_mul_is_commutative(w, i / w);
        let x = i % w;
        let y = i / w;
        assert(0 <= y < h) by (nonlinear_arith)
            requires
                0 <= i < w * h,
                w >= 1,
                i == y * w + x,
                0 <= x < w,
        ;
        assert((back[x + y * w] == Cell::Alive) <==> (x == 1 && 0 <= y <= 2));
        assert((cells[x + y * w] == Cell::Alive) <==> (x == 1 && 0 <= y <= 2));
        assert(back[i] == Cell::Alive <==> cells[i] == Cell::Alive);
        assert(back[i] == cells[i]) by {
            if back[i] == Cell::Alive {
            } else {
                assert(back[i] == Cell::Dead || back[i] == Cell::Alive);
                assert(cells[i] == Cell::Dead || cells[i] == Cell::Alive);
            }
        }
    }
    assert(step(w, h, step(w, h, cells)) =~= cells);
}

/// A corner cell has at most three neighbours on the board: offsets past
/// the edge are excluded outright, never wrapped to the opposite side.
pub proof fn lemma_corner_neighbor_bound(w: int, h: int, cells: Seq<Cell>)
    requires
        w >= 1,
        h >= 1,
    ensures
        neighbor_count(w, h, cells, 0, 0) <= 3,
{
}

/// A single Alive cell in the corner of an otherwise Dead board dies in
/// one step and nothing is born anywhere: the board comes out entirely
/// Dead.
pub proof fn lemma_lone_corner_cell_dies(w: int, h: int, cells: Seq<Cell>)
    requires
        w >= 1,
        h >= 1,
        cells.len() == w * h,
        forall|x: int, y: int|
            0 <= x < w && 0 <= y < h ==> ((#[trigger] cells[x + y * w] == Cell::Alive) <==> (x == 0
                && y == 0)),
    ensures
        forall|i: int| 0 <= i < w * h ==> step(w, h, cells)[i] == Cell::Dead,
{
    assert forall|i: int| 0 <= i < w * h implies step(w, h, cells)[i] == Cell::Dead by {
        lemma_fundamental_div_mod(i, w);
        lemma_mul_is_commutative(w, i / w);
        let x = i % w;
        let y = i / w;
        assert(0 <= y < h) by (nonlinear_arith)
            requires
                0 <= i < w * h,
                w >= 1,
                i == y * w + x,
                0 <= x < w,
        ;
        assert(step(w, h, cells)[i] == next_cell(w, h, cells, x, y));
        assert(next_cell(w, h, cells, x, y) == Cell::Dead);
    }
}

} // verus!
