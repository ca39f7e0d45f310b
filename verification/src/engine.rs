//! The simulation engine: a live board, one saved snapshot, a cursor and a
//! terminal flag, with the step rule, termination detection and editing
//! operations of a finite-grid Game of Life.

use vstd::prelude::*;

use crate::dyn_array::DynArray;
use crate::dyn_array::lemma_dims_product_2;
use crate::dyn_array::lemma_linear_index_2;
use crate::dyn_array::prod_prefix;

verus! {

/// The state of one grid point.
#[derive(Clone, Copy, Debug, PartialEq, Eq, Structural)]
pub enum Cell {
    Dead,
    Alive,
}

/// A grid coordinate; meaningful only relative to a board's dimensions.
#[derive(Clone, Copy, Debug, PartialEq, Eq, Structural)]
pub struct Pos {
    pub x: usize,
    pub y: usize,
}

/// A two-dimensional grid of cells; `dims[0]` is the width, `dims[1]` the
/// height.
pub type Board = DynArray<Cell, 2>;

/// The width of a board.
pub open spec fn bwidth(b: &Board) -> int {
    b.spec_dims()[0] as int
}

/// The height of a board.
pub open spec fn bheight(b: &Board) -> int {
    b.spec_dims()[1] as int
}

/// The cells of a board, flat, row by row (x varies fastest).
pub open spec fn bcells(b: &Board) -> Seq<Cell> {
    b.spec_data()
}

/// A board is well formed and its flat storage holds width times height
/// cells.
pub open spec fn board_ok(b: &Board) -> bool {
    &&& b.wf()
    &&& bcells(b).len() == bwidth(b) * bheight(b)
}

/// The cell of a board at an in-bounds coordinate.
pub open spec fn bcell(b: &Board, x: int, y: int) -> Cell {
    bcells(b)[x + y * bwidth(b)]
}

/// A well-formed two-dimensional array stores width times height cells.
pub proof fn lemma_board_ok(b: &Board)
    requires
        b.wf(),
    ensures
        board_ok(b),
{
    lemma_dims_product_2(b.spec_dims());
}

/// The coordinate lies on a `w` by `h` grid and its cell is Alive.
/// Out-of-range coordinates count as Dead: the grid does not wrap.
pub open spec fn alive_at(w: int, h: int, cells: Seq<Cell>, x: int, y: int) -> bool {
    &&& 0 <= x < w
    &&& 0 <= y < h
    &&& cells[x + y * w] == Cell::Alive
}

/// 1 for a live neighbour, 0 otherwise.
pub open spec fn count1(b: bool) -> int {
    if b {
        1
    } else {
        0
    }
}

/// How many of the up to eight Moore neighbours of `(x, y)` are Alive.
/// Offsets that leave the grid contribute nothing.
pub open spec fn neighbor_count(w: int, h: int, cells: Seq<Cell>, x: int, y: int) -> int {
    count1(alive_at(w, h, cells, x + 1, y + 1)) + count1(alive_at(w, h, cells, x, y + 1)) + count1(
        alive_at(w, h, cells, x - 1, y + 1),
    ) + count1(alive_at(w, h, cells, x + 1, y)) + count1(alive_at(w, h, cells, x - 1, y)) + count1(
        alive_at(w, h, cells, x + 1, y - 1),
    ) + count1(alive_at(w, h, cells, x, y - 1)) + count1(alive_at(w, h, cells, x - 1, y - 1))
}

/// The standard transition rule for the cell at `(x, y)`: a live cell
/// survives with two or three live neighbours, a dead cell is born with
/// exactly three.
pub open spec fn next_cell(w: int, h: int, cells: Seq<Cell>, x: int, y: int) -> Cell {
    let n = neighbor_count(w, h, cells, x, y);
    if alive_at(w, h, cells, x, y) {
        if n == 2 || n == 3 {
            Cell::Alive
        } else {
            Cell::Dead
        }
    } else {
        if n == 3 {
            Cell::Alive
        } else {
            Cell::Dead
        }
    }
}

/// One synchronous generation: every cell of the next board follows the
/// rule applied to the current board.
pub open spec fn step(w: int, h: int, cells: Seq<Cell>) -> Seq<Cell> {
    Seq::new((w * h) as nat, |i: int| next_cell(w, h, cells, i % w, i / w))
}

/// Some cell of the flat storage is Alive.
pub open spec fn has_alive(cells: Seq<Cell>) -> bool {
    exists|i: int| 0 <= i < cells.len() && cells[i] == Cell::Alive
}

/// The other state of a cell.
pub open spec fn flipped(c: Cell) -> Cell {
    match c {
        Cell::Dead => Cell::Alive,
        Cell::Alive => Cell::Dead,
    }
}

/// Relies on rand::random for a fair coin flip; nothing is assumed of the
/// result.
#[verifier::external_body]
fn random_bool() -> bool {
    rand::random()
}

/// Distinct in-bounds grid coordinates flatten to distinct offsets.
pub proof fn lemma_grid_index_injective(w: int, x1: int, y1: int, x2: int, y2: int)
    requires
        0 <= x1 < w,
        0 <= x2 < w,
        0 <= y1,
        0 <= y2,
        x1 + y1 * w == x2 + y2 * w,
    ensures
        x1 == x2 && y1 == y2,
{
    assert(x1 == x2 && y1 == y2) by (nonlinear_arith)
        requires
            0 <= x1 < w,
            0 <= x2 < w,
            0 <= y1,
            0 <= y2,
            x1 + y1 * w == x2 + y2 * w,
    ;
}

/// An in-bounds grid coordinate flattens to an in-bounds offset.
pub proof fn lemma_grid_index_bound(w: int, h: int, x: int, y: int)
    requires
        0 <= x < w,
        0 <= y < h,
    ensures
        0 <= x + y * w < w * h,
{
    assert(0 <= x + y * w < w * h) by (nonlinear_arith)
        requires
            0 <= x < w,
            0 <= y < h,
    ;
}

/// A grid with at least one cell is at least one wide and one high.
pub proof fn lemma_nonempty_grid(w: int, h: int)
    requires
        w >= 0,
        h >= 0,
        w * h > 0,
    ensures
        w >= 1 && h >= 1,
{
    assert(w >= 1 && h >= 1) by (nonlinear_arith)
        requires
            w >= 0,
            h >= 0,
            w * h > 0,
    ;
}

/// The rectangle with corners `ul` (inclusive) and `lr` (exclusive) lies
/// on the grid and is not degenerate.
pub open spec fn rect_ok(w: int, h: int, ul: Pos, lr: Pos) -> bool {
    &&& ul.x < w
    &&& ul.y < h
    &&& lr.x < w
    &&& lr.y < h
    &&& ul.x < lr.x
    &&& ul.y < lr.y
}

/// The coordinate lies in the half-open rectangle `[ul.x, lr.x) x [ul.y, lr.y)`.
pub open spec fn in_rect(ul: Pos, lr: Pos, x: int, y: int) -> bool {
    &&& ul.x <= x < lr.x
    &&& ul.y <= y < lr.y
}

/// The simulation engine: a live board, a snapshot it can be reset to, a
/// cursor, the terminal flag, and the two rendering glyphs.
pub struct Life {
    pub cursor_pos: Pos,
    pub initial_cursor_pos: Option<(u16, u16)>,
    pub dead_cell: char,
    pub alive_cell: char,
    pub board: Board,
    pub inital_state: Board,
    pub dead: bool,
}

impl Life {
    /// The saved snapshot board.
    pub open spec fn snapshot(&self) -> Board {
        self.inital_state
    }

    /// Whether the engine has reached its terminal state.
    pub open spec fn spec_dead(&self) -> bool {
        self.dead
    }

    /// Both boards are well formed and share their dimensions.
    pub open spec fn wf(&self) -> bool {
        &&& board_ok(&self.board)
        &&& board_ok(&self.inital_state)
        &&& self.inital_state.spec_dims() == self.board.spec_dims()
    }

    /// A fresh engine. A supplied board is used verbatim, and the
    /// requested dimensions and randomize flag are then ignored; otherwise
    /// a board of the given dimensions is created, all Dead or randomized.
    /// The snapshot starts all Dead at the live board's size, the cursor
    /// at the origin, and the engine running.
    pub fn new(
        board_dims: (usize, usize),
        dead_cell: char,
        alive_cell: char,
        is_rand: bool,
        board: Option<Board>,
    ) -> (r: Self)
        requires
            board is None ==> board_dims.0 * board_dims.1 <= usize::MAX,
            board matches Some(b) ==> b.wf(),
        ensures
            r.wf(),
            !r.spec_dead(),
            r.cursor_pos == (Pos { x: 0, y: 0 }),
            r.initial_cursor_pos is None,
            r.dead_cell == dead_cell,
            r.alive_cell == alive_cell,
            match board {
                Some(b) => r.board == b,
                None => {
                    &&& bwidth(&r.board) == board_dims.0
                    &&& bheight(&r.board) == board_dims.1
                    &&& !is_rand ==> forall|i: int|
                        0 <= i < bcells(&r.board).len() ==> bcells(&r.board)[i] == Cell::Dead
                },
            },
            forall|i: int|
                0 <= i < bcells(&r.snapshot()).len() ==> bcells(&r.snapshot())[i] == Cell::Dead,
    {
        let (w, h) = board_dims;
        match board {
            Some(b) => {
                proof {
                    lemma_board_ok(&b);
                    b.lemma_data_len_bound();
                }
                let bw = b.width();
                let bh = b.height();
                let snapshot = Life::init_board(Cell::Dead, [bw, bh], false);
                proof {
                    assert(snapshot.spec_dims() =~= b.spec_dims());
                }
                Life {
                    board: b,
                    inital_state: snapshot,
                    dead_cell,
                    alive_cell,
                    dead: false,
                    cursor_pos: Pos { x: 0, y: 0 },
                    initial_cursor_pos: None,
                }
            },
            None => {
                let fresh = Life::init_board(Cell::Dead, [w, h], is_rand);
                let snapshot = Life::init_board(Cell::Dead, [w, h], false);
                Life {
                    board: fresh,
                    inital_state: snapshot,
                    dead_cell,
                    alive_cell,
                    dead: false,
                    cursor_pos: Pos { x: 0, y: 0 },
                    initial_cursor_pos: None,
                }
            },
        }
    }

    /// A board of the given dimensions, filled with `init_cell`, or with an
    /// independent coin flip per cell when `random` is set.
    fn init_board(init_cell: Cell, dims: [usize; 2], random: bool) -> (r: Board)
        requires
            dims@[0] * dims@[1] <= usize::MAX,
        ensures
            board_ok(&r),
            r.spec_dims() == dims@,
            !random ==> forall|i: int| 0 <= i < bcells(&r).len() ==> bcells(&r)[i] == init_cell,
    {
        proof {
            lemma_dims_product_2(dims@);
            assert(prod_prefix(dims@, 1) == prod_prefix(dims@, 0) * dims@[0]);
            assert(prod_prefix(dims@, 2) == prod_prefix(dims@, 1) * dims@[1]);
        }
        if random {
            let n = dims[0] * dims[1];
            let mut cells: Vec<Cell> = Vec::new();
            while cells.len() < n
                invariant
                    cells@.len() <= n,
                decreases n - cells@.len(),
            {
                cells.push(
                    if random_bool() {
                        Cell::Alive
                    } else {
                        Cell::Dead
                    },
                );
            }
            let b = Board::new_from_data(dims, cells);
            proof {
                lemma_board_ok(&b);
            }
            b
        } else {
            proof {
                assert forall|k: int| 0 <= k <= 2 implies prod_prefix(dims@, k) <= usize::MAX by {
                    if k == 0 {
                        assert(prod_prefix(dims@, 0) == 1);
                    }
                }
            }
            let b = Board::new(dims, init_cell);
            proof {
                lemma_board_ok(&b);
            }
            b
        }
    }

    /// Copies the live board, cell for cell in linear order, into the
    /// snapshot.
    pub fn save_state(&mut self)
        requires
            old(self).wf(),
        ensures
            final(self).wf(),
            final(self).snapshot().spec_dims() == old(self).board.spec_dims(),
            bcells(&final(self).snapshot()) == bcells(&old(self).board),
            final(self).board == old(self).board,
            final(self).cursor_pos == old(self).cursor_pos,
            final(self).initial_cursor_pos == old(self).initial_cursor_pos,
            final(self).dead_cell == old(self).dead_cell,
            final(self).alive_cell == old(self).alive_cell,
            final(self).spec_dead() == old(self).spec_dead(),
    {
        let w = self.board.width();
        let h = self.board.height();
        let data = self.board.to_data();
        proof {
            lemma_dims_product_2([w, h]@);
        }
        self.inital_state = Board::new_from_data([w, h], data);
        proof {
            assert(self.inital_state.spec_dims() =~= self.board.spec_dims());
            lemma_board_ok(&self.inital_state);
        }
    }

    /// Copies the snapshot back onto the live board, the inverse of
    /// `save_state`. The terminal flag is left alone.
    pub fn load_inital(&mut self)
        requires
            old(self).wf(),
        ensures
            final(self).wf(),
            final(self).board.spec_dims() == old(self).board.spec_dims(),
            bcells(&final(self).board) == bcells(&old(self).snapshot()),
            final(self).snapshot() == old(self).snapshot(),
            final(self).cursor_pos == old(self).cursor_pos,
            final(self).initial_cursor_pos == old(self).initial_cursor_pos,
            final(self).dead_cell == old(self).dead_cell,
            final(self).alive_cell == old(self).alive_cell,
            final(self).spec_dead() == old(self).spec_dead(),
    {
        let w = self.inital_state.width();
        let h = self.inital_state.height();
        let data = self.inital_state.to_data();
        proof {
            lemma_dims_product_2([w, h]@);
        }
        self.board = Board::new_from_data([w, h], data);
        proof {
            assert(self.board.spec_dims() =~= self.inital_state.spec_dims());
            lemma_board_ok(&self.board);
        }
    }

    /// Restores the snapshot and returns the engine to its running state.
    /// The cursor is left where it was.
    pub fn reset(&mut self)
        requires
            old(self).wf(),
        ensures
            final(self).wf(),
            final(self).board.spec_dims() == old(self).board.spec_dims(),
            bcells(&final(self).board) == bcells(&old(self).snapshot()),
            final(self).snapshot() == old(self).snapshot(),
            !final(self).spec_dead(),
            final(self).cursor_pos == old(self).cursor_pos,
            final(self).initial_cursor_pos == old(self).initial_cursor_pos,
            final(self).dead_cell == old(self).dead_cell,
            final(self).alive_cell == old(self).alive_cell,
    {
        self.load_inital();
        self.dead = false;
    }

    /// The cell at `pos`, or None when `pos` lies outside the board.
    fn get_board_cell(pos: Pos, board: &Board) -> (r: Option<Cell>)
        requires
            board_ok(board),
        ensures
            r == if pos.x < bwidth(board) && pos.y < bheight(board) {
                Some(bcell(board, pos.x as int, pos.y as int))
            } else {
                None::<Cell>
            },
    {
        if pos.x >= board.width() || pos.y >= board.height() {
            return None;
        }
        let index = [pos.x, pos.y];
        proof {
            board.lemma_data_len_bound();
            lemma_linear_index_2(board.spec_dims(), index@);
        }
        Some(*board.get(index.as_slice()))
    }

    /// Writes `cell` at `pos` and returns the written value, or None when
    /// `pos` lies outside the board, which leaves it untouched.
    fn set_board_cell(pos: Pos, cell: Cell, board: &mut Board) -> (r: Option<Cell>)
        requires
            board_ok(old(board)),
        ensures
            board_ok(final(board)),
            final(board).spec_dims() == old(board).spec_dims(),
            if pos.x < bwidth(old(board)) && pos.y < bheight(old(board)) {
                &&& r == Some(cell)
                &&& bcells(final(board)) == bcells(old(board)).update(
                    pos.x + pos.y * bwidth(old(board)),
                    cell,
                )
            } else {
                &&& r == None::<Cell>
                &&& *final(board) == *old(board)
            },
    {
        if pos.x >= board.width() || pos.y >= board.height() {
            return None;
        }
        let index = [pos.x, pos.y];
        proof {
            board.lemma_data_len_bound();
            lemma_linear_index_2(board.spec_dims(), index@);
        }
        board.set(index.as_slice(), cell);
        Some(cell)
    }

    /// Flips the cell at `pos` and returns the new value; positions off
    /// the board are reported as an error and change nothing.
    pub fn toggle_cell(&mut self, pos: Pos) -> (r: Result<Cell, ()>)
        requires
            old(self).wf(),
        ensures
            final(self).wf(),
            final(self).board.spec_dims() == old(self).board.spec_dims(),
            final(self).snapshot() == old(self).snapshot(),
            final(self).cursor_pos == old(self).cursor_pos,
            final(self).initial_cursor_pos == old(self).initial_cursor_pos,
            final(self).dead_cell == old(self).dead_cell,
            final(self).alive_cell == old(self).alive_cell,
            final(self).spec_dead() == old(self).spec_dead(),
            if pos.x < bwidth(&old(self).board) && pos.y < bheight(&old(self).board) {
                &&& r == Ok::<Cell, ()>(flipped(bcell(&old(self).board, pos.x as int, pos.y as int)))
                &&& bcells(&final(self).board) == bcells(&old(self).board).update(
                    pos.x + pos.y * bwidth(&old(self).board),
                    flipped(bcell(&old(self).board, pos.x as int, pos.y as int)),
                )
            } else {
                &&& r == Err::<Cell, ()>(())
                &&& *final(self) == *old(self)
            },
    {
        let current = match Life::get_board_cell(pos, &self.board) {
            Some(c) => c,
            None => Cell::Dead,
        };
        self.set_cell(
            pos,
            match current {
                Cell::Dead => Cell::Alive,
                Cell::Alive => Cell::Dead,
            },
        )
    }

    /// Writes `cell` at `pos` unconditionally and returns the written
    /// value; positions off the board are reported as an error and change
    /// nothing.
    pub fn set_cell(&mut self, pos: Pos, cell: Cell) -> (r: Result<Cell, ()>)
        requires
            old(self).wf(),
        ensures
            final(self).wf(),
            final(self).board.spec_dims() == old(self).board.spec_dims(),
            final(self).snapshot() == old(self).snapshot(),
            final(self).cursor_pos == old(self).cursor_pos,
            final(self).initial_cursor_pos == old(self).initial_cursor_pos,
            final(self).dead_cell == old(self).dead_cell,
            final(self).alive_cell == old(self).alive_cell,
            final(self).spec_dead() == old(self).spec_dead(),
            if pos.x < bwidth(&old(self).board) && pos.y < bheight(&old(self).board) {
                &&& r == Ok::<Cell, ()>(cell)
                &&& bcells(&final(self).board) == bcells(&old(self).board).update(
                    pos.x + pos.y * bwidth(&old(self).board),
                    cell,
                )
            } else {
                &&& r == Err::<Cell, ()>(())
                &&& *final(self) == *old(self)
            },
    {
        match Life::set_board_cell(pos, cell, &mut self.board) {
            Some(c) => Ok(c),
            None => Err(()),
        }
    }

    /// Sets every cell of the half-open rectangle `[ul.x, lr.x) x
    /// [ul.y, lr.y)` to `cell`. A rectangle with a corner off the board,
    /// or one that is empty in either direction, is rejected and nothing
    /// changes.
    pub fn fill_rect(&mut self, ul: Pos, lr: Pos, cell: Cell) -> (r: bool)
        requires
            old(self).wf(),
        ensures
            final(self).wf(),
            final(self).board.spec_dims() == old(self).board.spec_dims(),
            final(self).inital_state == old(self).inital_state,
            final(self).cursor_pos == old(self).cursor_pos,
            final(self).initial_cursor_pos == old(self).initial_cursor_pos,
            final(self).dead_cell == old(self).dead_cell,
            final(self).alive_cell == old(self).alive_cell,
            final(self).dead == old(self).dead,
            r == rect_ok(bwidth(&old(self).board), bheight(&old(self).board), ul, lr),
            !r ==> *final(self) == *old(self),
            r ==> forall|gx: int, gy: int|
                0 <= gx < bwidth(&old(self).board) && 0 <= gy < bheight(&old(self).board)
                    ==> bcell(&final(self).board, gx, gy) == (if in_rect(ul, lr, gx, gy) {
                    cell
                } else {
                    bcell(&old(self).board, gx, gy)
                }),
    {
        let w = self.board.width();
        let h = self.board.height();
        if ul.x >= w || ul.y >= h || lr.x >= w || lr.y >= h || lr.x <= ul.x || lr.y <= ul.y {
            return false;
        }
        let ghost pre = *self;
        let mut x = ul.x;
        while x < lr.x
            invariant
                pre.wf(),
                self.wf(),
                w == bwidth(&pre.board),
                h == bheight(&pre.board),
                rect_ok(w as int, h as int, ul, lr),
                ul.x <= x <= lr.x,
                self.board.spec_dims() == pre.board.spec_dims(),
                self.inital_state == pre.inital_state,
                self.cursor_pos == pre.cursor_pos,
                self.initial_cursor_pos == pre.initial_cursor_pos,
                self.dead_cell == pre.dead_cell,
                self.alive_cell == pre.alive_cell,
                self.dead == pre.dead,
                forall|gx: int, gy: int|
                    0 <= gx < w && 0 <= gy < h ==> bcell(&self.board, gx, gy) == (if ul.x <= gx < x
                        && ul.y <= gy < lr.y {
                        cell
                    } else {
                        bcell(&pre.board, gx, gy)
                    }),
            decreases lr.x - x,
        {
            let mut y = ul.y;
            while y < lr.y
                invariant
                    pre.wf(),
                    self.wf(),
                    w == bwidth(&pre.board),
                    h == bheight(&pre.board),
                    rect_ok(w as int, h as int, ul, lr),
                    ul.x <= x < lr.x,
                    ul.y <= y <= lr.y,
                    self.board.spec_dims() == pre.board.spec_dims(),
                    self.inital_state == pre.inital_state,
                    self.cursor_pos == pre.cursor_pos,
                    self.initial_cursor_pos == pre.initial_cursor_pos,
                    self.dead_cell == pre.dead_cell,
                    self.alive_cell == pre.alive_cell,
                    self.dead == pre.dead,
                    forall|gx: int, gy: int|
                        0 <= gx < w && 0 <= gy < h ==> bcell(&self.board, gx, gy) == (if (ul.x <= gx
                            < x && ul.y <= gy < lr.y) || (gx == x && ul.y <= gy < y) {
                            cell
                        } else {
                            bcell(&pre.board, gx, gy)
                        }),
                decreases lr.y - y,
            {
                let ghost before = self.board;
                Life::set_board_cell(Pos { x, y }, cell, &mut self.board);
                proof {
                    assert forall|gx: int, gy: int| 0 <= gx < w && 0 <= gy < h implies bcell(
                        &self.board,
                        gx,
                        gy,
                    ) == (if (ul.x <= gx < x && ul.y <= gy < lr.y) || (gx == x && ul.y <= gy < y
                        + 1) {
                        cell
                    } else {
                        bcell(&pre.board, gx, gy)
                    }) by {
                        lemma_grid_index_bound(w as int, h as int, gx, gy);
                        lemma_grid_index_bound(w as int, h as int, x as int, y as int);
                        assert(bwidth(&self.board) == w);
                        assert(bcells(&self.board) == bcells(&before).update(
                            x + y * (w as int),
                            cell,
                        ));
                        assert(bcell(&before, gx, gy) == (if (ul.x <= gx < x && ul.y <= gy < lr.y)
                            || (gx == x && ul.y <= gy < y) {
                            cell
                        } else {
                            bcell(&pre.board, gx, gy)
                        }));
                        if gx + gy * w == x + y * w {
                            lemma_grid_index_injective(w as int, gx, gy, x as int, y as int);
                        }
                    }
                }
                y = y + 1;
            }
            x = x + 1;
        }
        true
    }

    /// Whether any cell of the board is Alive.
    fn board_has_alive(board: &Board) -> (r: bool)
        requires
            board_ok(board),
        ensures
            r == has_alive(bcells(board)),
    {
        let data = board.data();
        let n = data.len();
        let mut i: usize = 0;
        while i < n
            invariant
                n == bcells(board).len(),
                data@ == bcells(board),
                0 <= i <= n,
                forall|j: int| 0 <= j < i ==> bcells(board)[j] != Cell::Alive,
            decreases n - i,
        {
            if data[i] == Cell::Alive {
                proof {
                    assert(bcells(board)[i as int] == Cell::Alive);
                }
                return true;
            }
            i = i + 1;
        }
        false
    }

    /// How many of the up to eight neighbours of `pos` are Alive; offsets
    /// that fall outside the board are excluded, never wrapped.
    #[verifier::spinoff_prover]
    #[verifier::rlimit(100)]
    fn alive_neighbors(pos: Pos, board: &Board) -> (n: usize)
        requires
            board_ok(board),
            pos.x < bwidth(board),
            pos.y < bheight(board),
        ensures
            n == neighbor_count(
                bwidth(board),
                bheight(board),
                bcells(board),
                pos.x as int,
                pos.y as int,
            ),
    {
        let w = board.width();
        let h = board.height();
        let ghost gw = bwidth(board);
        let ghost gh = bheight(board);
        let ghost cells = bcells(board);
        let ghost px = pos.x as int;
        let ghost py = pos.y as int;
        let ghost c1 = count1(alive_at(gw, gh, cells, px + 1, py + 1));
        let ghost c2 = count1(alive_at(gw, gh, cells, px, py + 1));
        let ghost c3 = count1(alive_at(gw, gh, cells, px - 1, py + 1));
        let ghost c4 = count1(alive_at(gw, gh, cells, px + 1, py));
        let ghost c5 = count1(alive_at(gw, gh, cells, px - 1, py));
        let ghost c6 = count1(alive_at(gw, gh, cells, px + 1, py - 1));
        let ghost c7 = count1(alive_at(gw, gh, cells, px, py - 1));
        let ghost c8 = count1(alive_at(gw, gh, cells, px - 1, py - 1));
        let mut count: usize = 0;
        if pos.x < w - 1 && pos.y < h - 1 {
            if Life::cell_or_dead(Pos { x: pos.x + 1, y: pos.y + 1 }, board) == Cell::Alive {
                count = count + 1;
            }
        }
        proof {
            assert(count == c1);
        }
        if pos.y < h - 1 {
            if Life::cell_or_dead(Pos { x: pos.x, y: pos.y + 1 }, board) == Cell::Alive {
                count = count + 1;
            }
        }
        proof {
            assert(count == c1 + c2);
        }
        if pos.x > 0 && pos.y < h - 1 {
            if Life::cell_or_dead(Pos { x: pos.x - 1, y: pos.y + 1 }, board) == Cell::Alive {
                count = count + 1;
            }
        }
        proof {
            assert(count == c1 + c2 + c3);
        }
        if pos.x < w - 1 {
            if Life::cell_or_dead(Pos { x: pos.x + 1, y: pos.y }, board) == Cell::Alive {
                count = count + 1;
            }
        }
        proof {
            assert(count == c1 + c2 + c3 + c4);
        }
        if pos.x > 0 {
            if Life::cell_or_dead(Pos { x: pos.x - 1, y: pos.y }, board) == Cell::Alive {
                count = count + 1;
            }
        }
        proof {
            assert(count == c1 + c2 + c3 + c4 + c5);
        }
        if pos.x < w - 1 && pos.y > 0 {
            if Life::cell_or_dead(Pos { x: pos.x + 1, y: pos.y - 1 }, board) == Cell::Alive {
                count = count + 1;
            }
        }
        proof {
            assert(count == c1 + c2 + c3 + c4 + c5 + c6);
        }
        if pos.y > 0 {
            if Life::cell_or_dead(Pos { x: pos.x, y: pos.y - 1 }, board) == Cell::Alive {
                count = count + 1;
            }
        }
        proof {
            assert(count == c1 + c2 + c3 + c4 + c5 + c6 + c7);
        }
        if pos.x > 0 && pos.y > 0 {
            if Life::cell_or_dead(Pos { x: pos.x - 1, y: pos.y - 1 }, board) == Cell::Alive {
                count = count + 1;
            }
        }
        proof {
            assert(count == c1 + c2 + c3 + c4 + c5 + c6 + c7 + c8);
        }
        count
    }

    /// The cell at `pos`, with anything off the board read as Dead.
    pub(crate) fn cell_or_dead(pos: Pos, board: &Board) -> (r: Cell)
        requires
            board_ok(board),
        ensures
            (r == Cell::Alive) == alive_at(
                bwidth(board),
                bheight(board),
                bcells(board),
                pos.x as int,
                pos.y as int,
            ),
    {
        match Life::get_board_cell(pos, board) {
            Some(c) => c,
            None => Cell::Dead,
        }
    }

    /// One generation. A terminated engine does nothing. A board without
    /// a single live cell terminates the engine and stays as it is.
    /// Otherwise every cell follows the standard rule applied to the
    /// current board, synchronously, and the whole board is replaced at
    /// once.
    pub fn tick(&mut self)
        requires
            old(self).wf(),
        ensures
            final(self).wf(),
            final(self).board.spec_dims() == old(self).board.spec_dims(),
            final(self).inital_state == old(self).inital_state,
            final(self).cursor_pos == old(self).cursor_pos,
            final(self).initial_cursor_pos == old(self).initial_cursor_pos,
            final(self).dead_cell == old(self).dead_cell,
            final(self).alive_cell == old(self).alive_cell,
            old(self).dead ==> *final(self) == *old(self),
            !old(self).dead && !has_alive(bcells(&old(self).board)) ==> final(self).dead
                && final(self).board == old(self).board,
            !old(self).dead && has_alive(bcells(&old(self).board)) ==> !final(self).dead
                && bcells(&final(self).board) == step(
                bwidth(&old(self).board),
                bheight(&old(self).board),
                bcells(&old(self).board),
            ),
    {
        if self.dead {
            return ;
        }
        if !Life::board_has_alive(&self.board) {
            self.dead = true;
            return ;
        }
        let w = self.board.width();
        let h = self.board.height();
        let ghost pre = *self;
        let ghost cells = bcells(&pre.board);
        proof {
            lemma_nonempty_grid(w as int, h as int);
            pre.board.lemma_data_len_bound();
        }
        let mut newdata: Vec<Cell> = Vec::new();
        let mut y: usize = 0;
        while y < h
            invariant
                pre.wf(),
                *self == pre,
                w == bwidth(&pre.board),
                h == bheight(&pre.board),
                cells == bcells(&pre.board),
                w >= 1,
                0 <= y <= h,
                newdata@.len() == y * w,
                forall|j: int|
                    0 <= j < newdata@.len() ==> newdata@[j] == next_cell(
                        w as int,
                        h as int,
                        cells,
                        j % (w as int),
                        j / (w as int),
                    ),
            decreases h - y,
        {
            let mut x: usize = 0;
            while x < w
                invariant
                    pre.wf(),
                    *self == pre,
                    w == bwidth(&pre.board),
                    h == bheight(&pre.board),
                    cells == bcells(&pre.board),
                    w >= 1,
                    0 <= y < h,
                    0 <= x <= w,
                    newdata@.len() == y * w + x,
                    forall|j: int|
                        0 <= j < newdata@.len() ==> newdata@[j] == next_cell(
                            w as int,
                            h as int,
                            cells,
                            j % (w as int),
                            j / (w as int),
                        ),
                decreases w - x,
            {
                let cur = Life::cell_or_dead(Pos { x, y }, &self.board);
                let alive = Life::alive_neighbors(Pos { x, y }, &self.board);
                let next = match cur {
                    Cell::Dead => if alive == 3 {
                        Cell::Alive
                    } else {
                        Cell::Dead
                    },
                    Cell::Alive => if alive == 2 || alive == 3 {
                        Cell::Alive
                    } else {
                        Cell::Dead
                    },
                };
                newdata.push(next);
                proof {
                    vstd::arithmetic::div_mod::lemma_fundamental_div_mod_converse(
                        (y * w + x) as int,
                        w as int,
                        y as int,
                        x as int,
                    );
                    assert(next == next_cell(w as int, h as int, cells, x as int, y as int));
                }
                x = x + 1;
            }
            proof {
                assert((y + 1) * w == y * w + w) by (nonlinear_arith);
            }
            y = y + 1;
        }
        proof {
            lemma_dims_product_2([w, h]@);
            assert(newdata@.len() == h * w);
            assert(newdata@ =~= step(w as int, h as int, cells));
        }
        self.board = Board::new_from_data([w, h], newdata);
        proof {
            assert(self.board.spec_dims() =~= pre.board.spec_dims());
            lemma_board_ok(&self.board);
        }
    }

    /// The board's width and height.
    pub fn dims(&self) -> (r: (usize, usize))
        ensures
            r.0 == bwidth(&self.board),
            r.1 == bheight(&self.board),
    {
        (self.board.width(), self.board.height())
    }

    /// Whether the engine has reached its terminal state.
    pub fn is_dead(&self) -> (r: bool)
        ensures
            r == self.spec_dead(),
    {
        self.dead
    }
}

} // verus!
