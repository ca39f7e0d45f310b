//! Prefab geometry: the eight rotation/reflection transforms of a pattern
//! board and collision-checked placement onto the live board at the
//! engine's cursor.

use vstd::prelude::*;

use crate::engine::Board;
use crate::engine::Cell;
use crate::engine::Life;
use crate::engine::Pos;
use crate::engine::bcell;
use crate::engine::alive_at;
use crate::engine::bcells;
use crate::engine::bheight;
use crate::engine::board_ok;
use crate::engine::bwidth;
use crate::engine::lemma_grid_index_bound;
use crate::engine::lemma_grid_index_injective;
use crate::engine::lemma_nonempty_grid;

verus! {

/// A named, immutable pattern: itself a board, placeable onto a live one.
pub struct Prefab {
    pub board: Board,
    pub name: String,
}

/// Why a placement was refused. `OutOfBounds` carries one flag per axis on
/// which the pattern's bounding box leaves the board.
#[derive(Copy, Clone, Debug, PartialEq, Eq, Structural)]
pub enum PrefabPlaceError {
    OutOfBounds(bool, bool),
    CellOverlap,
}

/// One of the eight placements of a pattern: four quarter-turns, each
/// plain or mirrored. `Right` is the identity.
pub enum Rotation {
    Up,
    Down,
    Left,
    Right,
    UpFlipped,
    DownFlipped,
    LeftFlipped,
    RightFlipped,
}

/// Whether the transform turns the pattern by a quarter, swapping the
/// bounding box's axes.
pub open spec fn rot_swaps_axes(rot: Rotation) -> bool {
    match rot {
        Rotation::Up | Rotation::Down | Rotation::UpFlipped | Rotation::DownFlipped => true,
        Rotation::Left | Rotation::Right | Rotation::LeftFlipped | Rotation::RightFlipped => false,
    }
}

/// Width of the transformed pattern's bounding box.
pub open spec fn rot_width(rot: Rotation, pw: int, ph: int) -> int {
    if rot_swaps_axes(rot) {
        ph
    } else {
        pw
    }
}

/// Height of the transformed pattern's bounding box.
pub open spec fn rot_height(rot: Rotation, pw: int, ph: int) -> int {
    if rot_swaps_axes(rot) {
        pw
    } else {
        ph
    }
}

/// Destination x of source coordinate `(x, y)` in a `pw` by `ph` pattern.
pub open spec fn rot_x(rot: Rotation, pw: int, ph: int, x: int, y: int) -> int {
    match rot {
        Rotation::Up => y,
        Rotation::Down => ph - 1 - y,
        Rotation::Left => pw - 1 - x,
        Rotation::Right => x,
        Rotation::UpFlipped => ph - 1 - y,
        Rotation::DownFlipped => y,
        Rotation::LeftFlipped => pw - 1 - x,
        Rotation::RightFlipped => x,
    }
}

/// Destination y of source coordinate `(x, y)` in a `pw` by `ph` pattern.
pub open spec fn rot_y(rot: Rotation, pw: int, ph: int, x: int, y: int) -> int {
    match rot {
        Rotation::Up => pw - 1 - x,
        Rotation::Down => x,
        Rotation::Left => ph - 1 - y,
        Rotation::Right => y,
        Rotation::UpFlipped => pw - 1 - x,
        Rotation::DownFlipped => x,
        Rotation::LeftFlipped => y,
        Rotation::RightFlipped => ph - 1 - y,
    }
}

/// Some Alive cell of the pattern lands on destination-local coordinate
/// `(dx, dy)` under the transform.
pub open spec fn covers(pb: &Board, rot: Rotation, dx: int, dy: int) -> bool {
    exists|sx: int, sy: int|
        {
            &&& 0 <= sx < bwidth(pb)
            &&& 0 <= sy < bheight(pb)
            &&& #[trigger] bcell(pb, sx, sy) == Cell::Alive
            &&& rot_x(rot, bwidth(pb), bheight(pb), sx, sy) == dx
            &&& rot_y(rot, bwidth(pb), bheight(pb), sx, sy) == dy
        }
}

/// Every transform keeps a source coordinate inside the transformed
/// bounding box.
pub proof fn lemma_rot_in_bbox(rot: Rotation, pw: int, ph: int, sx: int, sy: int)
    requires
        0 <= sx < pw,
        0 <= sy < ph,
    ensures
        0 <= rot_x(rot, pw, ph, sx, sy) < rot_width(rot, pw, ph),
        0 <= rot_y(rot, pw, ph, sx, sy) < rot_height(rot, pw, ph),
{
}

/// A covered destination-local coordinate lies inside the transformed
/// bounding box.
pub proof fn lemma_covers_in_bbox(pb: &Board, rot: Rotation, dx: int, dy: int)
    requires
        covers(pb, rot, dx, dy),
    ensures
        0 <= dx < rot_width(rot, bwidth(pb), bheight(pb)),
        0 <= dy < rot_height(rot, bwidth(pb), bheight(pb)),
{
    let (sx, sy) = choose|sx: int, sy: int|
        {
            &&& 0 <= sx < bwidth(pb)
            &&& 0 <= sy < bheight(pb)
            &&& #[trigger] bcell(pb, sx, sy) == Cell::Alive
            &&& rot_x(rot, bwidth(pb), bheight(pb), sx, sy) == dx
            &&& rot_y(rot, bwidth(pb), bheight(pb), sx, sy) == dy
        };
    lemma_rot_in_bbox(rot, bwidth(pb), bheight(pb), sx, sy);
}

/// What placement needs of a pattern: its bounding box and the
/// coordinates of its Alive cells.
pub trait Prefabable {
    /// The board the pattern stands on.
    spec fn pattern(&self) -> Board;

    /// The pattern's width.
    fn width(&self) -> (w: usize)
        ensures
            w as int == bwidth(&self.pattern()),
    ;

    /// The pattern's height.
    fn height(&self) -> (h: usize)
        ensures
            h as int == bheight(&self.pattern()),
    ;

    /// The coordinates of the pattern's Alive cells: each listed
    /// coordinate is Alive, and every Alive coordinate is listed.
    fn cells(&self) -> (c: Vec<Pos>)
        requires
            board_ok(&self.pattern()),
        ensures
            forall|i: int|
                #![trigger c@[i]]
                0 <= i < c@.len() ==> alive_at(
                    bwidth(&self.pattern()),
                    bheight(&self.pattern()),
                    bcells(&self.pattern()),
                    c@[i].x as int,
                    c@[i].y as int,
                ),
            forall|x: int, y: int|
                #[trigger] alive_at(
                    bwidth(&self.pattern()),
                    bheight(&self.pattern()),
                    bcells(&self.pattern()),
                    x,
                    y,
                ) ==> exists|i: int|
                    #![trigger c@[i]]
                    0 <= i < c@.len() && c@[i].x == x && c@[i].y == y,
    ;
}

impl Prefabable for Prefab {
    /// The pattern is its board.
    open spec fn pattern(&self) -> Board {
        self.board
    }

    /// The pattern's width.
    fn width(&self) -> (w: usize) {
        self.board.width()
    }

    /// The pattern's height.
    fn height(&self) -> (h: usize) {
        self.board.height()
    }

    /// The coordinates of the pattern's Alive cells, in linear order.
    fn cells(&self) -> (c: Vec<Pos>) {
        let w = self.board.width();
        let h = self.board.height();
        let ghost cells = bcells(&self.board);
        let data = self.board.data();
        let n = data.len();
        let mut out: Vec<Pos> = Vec::new();
        let mut k: usize = 0;
        while k < n
            invariant
                board_ok(&self.board),
                w == bwidth(&self.board),
                h == bheight(&self.board),
                cells == bcells(&self.board),
                data@ == cells,
                n == cells.len(),
                0 <= k <= n,
                forall|i: int|
                    #![trigger out@[i]]
                    0 <= i < out@.len() ==> alive_at(
                        w as int,
                        h as int,
                        cells,
                        out@[i].x as int,
                        out@[i].y as int,
                    ),
                forall|sx: int, sy: int|
                    {
                        &&& 0 <= sx < w
                        &&& 0 <= sy < h
                        &&& sx + sy * w < k
                        &&& #[trigger] alive_at(w as int, h as int, cells, sx, sy)
                    } ==> exists|i: int|
                        #![trigger out@[i]]
                        0 <= i < out@.len() && out@[i].x == sx && out@[i].y == sy,
            decreases n - k,
        {
            proof {
                lemma_nonempty_grid(w as int, h as int);
            }
            let sx = k % w;
            let sy = k / w;
            proof {
                vstd::arithmetic::div_mod::lemma_fundamental_div_mod(k as int, w as int);
                vstd::arithmetic::mul::lemma_mul_is_commutative(sy as int, w as int);
                assert(sx + sy * w == k);
                assert(sy < h) by (nonlinear_arith)
                    requires
                        0 <= k < w * h,
                        w >= 1,
                        sx + sy * w == k,
                        0 <= sx < w,
                        0 <= sy,
                ;
            }
            let ghost out0 = out@;
            if data[k] == Cell::Alive {
                out.push(Pos { x: sx, y: sy });
            }
            proof {
                assert forall|sx2: int, sy2: int|
                    {
                        &&& 0 <= sx2 < w
                        &&& 0 <= sy2 < h
                        &&& sx2 + sy2 * w < k + 1
                        &&& #[trigger] alive_at(w as int, h as int, cells, sx2, sy2)
                    } implies exists|i: int|
                    #![trigger out@[i]]
                    0 <= i < out@.len() && out@[i].x == sx2 && out@[i].y == sy2 by {
                    if sx2 + sy2 * w == k {
                        lemma_grid_index_injective(w as int, sx2, sy2, sx as int, sy as int);
                        assert(cells[k as int] == Cell::Alive);
                        assert(out@ == out0.push(Pos { x: sx, y: sy }));
                        assert(out@[out@.len() - 1] == (Pos { x: sx, y: sy }));
                    } else {
                        let i1 = choose|i: int|
                            #![trigger out0[i]]
                            0 <= i < out0.len() && out0[i].x == sx2 && out0[i].y == sy2;
                        assert(out@[i1] == out0[i1]);
                    }
                }
            }
            k = k + 1;
        }
        proof {
            assert forall|x: int, y: int| #[trigger]
                alive_at(w as int, h as int, cells, x, y) implies exists|i: int|
                #![trigger out@[i]]
                0 <= i < out@.len() && out@[i].x == x && out@[i].y == y by {
                lemma_grid_index_bound(w as int, h as int, x, y);
            }
        }
        out
    }
}

impl Life {
    /// The destination-local coordinates of the pattern's Alive cells
    /// under the transform: exactly the covered coordinates, as a list.
    fn rotate_prefab(prefab: &Board, rot: Rotation) -> (r: Vec<Pos>)
        requires
            board_ok(prefab),
        ensures
            forall|i: int|
                #![trigger r@[i]]
                0 <= i < r@.len() ==> covers(prefab, rot, r@[i].x as int, r@[i].y as int),
            forall|dx: int, dy: int|
                #[trigger] covers(prefab, rot, dx, dy) ==> exists|i: int|
                    #![trigger r@[i]]
                    0 <= i < r@.len() && r@[i].x == dx && r@[i].y == dy,
    {
        let pw = prefab.width();
        let ph = prefab.height();
        let ghost cells = bcells(prefab);
        let data = prefab.data();
        let n = data.len();
        let mut out: Vec<Pos> = Vec::new();
        let mut k: usize = 0;
        while k < n
            invariant
                board_ok(prefab),
                pw == bwidth(prefab),
                ph == bheight(prefab),
                cells == bcells(prefab),
                data@ == cells,
                n == cells.len(),
                0 <= k <= n,
                forall|i: int|
                    #![trigger out@[i]]
                    0 <= i < out@.len() ==> covers(prefab, rot, out@[i].x as int, out@[i].y as int),
                forall|sx: int, sy: int|
                    {
                        &&& 0 <= sx < pw
                        &&& 0 <= sy < ph
                        &&& sx + sy * pw < k
                        &&& #[trigger] bcell(prefab, sx, sy) == Cell::Alive
                    } ==> exists|i: int|
                        #![trigger out@[i]]
                        0 <= i < out@.len() && out@[i].x == rot_x(rot, pw as int, ph as int, sx, sy)
                            && out@[i].y == rot_y(rot, pw as int, ph as int, sx, sy),
            decreases n - k,
        {
            proof {
                lemma_nonempty_grid(pw as int, ph as int);
            }
            let sx = k % pw;
            let sy = k / pw;
            proof {
                vstd::arithmetic::div_mod::lemma_fundamental_div_mod(k as int, pw as int);
                vstd::arithmetic::mul::lemma_mul_is_commutative(sy as int, pw as int);
                assert(sx + sy * pw == k);
                assert(sy < ph) by (nonlinear_arith)
                    requires
                        0 <= k < pw * ph,
                        pw >= 1,
                        sx + sy * pw == k,
                        0 <= sx < pw,
                        0 <= sy,
                ;
            }
            let coords = match rot {
                Rotation::Up => Pos { x: sy, y: pw - 1 - sx },
                Rotation::Down => Pos { x: ph - 1 - sy, y: sx },
                Rotation::Left => Pos { x: pw - 1 - sx, y: ph - 1 - sy },
                Rotation::Right => Pos { x: sx, y: sy },
                Rotation::UpFlipped => Pos { x: ph - 1 - sy, y: pw - 1 - sx },
                Rotation::DownFlipped => Pos { x: sy, y: sx },
                Rotation::LeftFlipped => Pos { x: pw - 1 - sx, y: sy },
                Rotation::RightFlipped => Pos { x: sx, y: ph - 1 - sy },
            };
            proof {
                assert(coords.x == rot_x(rot, pw as int, ph as int, sx as int, sy as int));
                assert(coords.y == rot_y(rot, pw as int, ph as int, sx as int, sy as int));
            }
            let ghost out0 = out@;
            if data[k] == Cell::Alive {
                out.push(coords);
                proof {
                    assert(bcell(prefab, sx as int, sy as int) == Cell::Alive);
                    assert(covers(prefab, rot, coords.x as int, coords.y as int));
                }
            }
            proof {
                assert forall|sx2: int, sy2: int|
                    {
                        &&& 0 <= sx2 < pw
                        &&& 0 <= sy2 < ph
                        &&& sx2 + sy2 * pw < k + 1
                        &&& #[trigger] bcell(prefab, sx2, sy2) == Cell::Alive
                    } implies exists|i: int|
                    #![trigger out@[i]]
                    0 <= i < out@.len() && out@[i].x == rot_x(rot, pw as int, ph as int, sx2, sy2)
                        && out@[i].y == rot_y(rot, pw as int, ph as int, sx2, sy2) by {
                    if sx2 + sy2 * pw == k {
                        lemma_grid_index_injective(pw as int, sx2, sy2, sx as int, sy as int);
                        assert(cells[k as int] == Cell::Alive);
                        assert(out@ == out0.push(coords));
                        assert(out@[out@.len() - 1] == coords);
                    } else {
                        let i1 = choose|i: int|
                            #![trigger out0[i]]
                            0 <= i < out0.len() && out0[i].x == rot_x(
                                rot,
                                pw as int,
                                ph as int,
                                sx2,
                                sy2,
                            ) && out0[i].y == rot_y(rot, pw as int, ph as int, sx2, sy2);
                        assert(out@[i1] == out0[i1]);
                    }
                }
            }
            k = k + 1;
        }
        proof {
            assert forall|dx: int, dy: int| #[trigger]
                covers(prefab, rot, dx, dy) implies exists|i: int|
                #![trigger out@[i]]
                0 <= i < out@.len() && out@[i].x == dx && out@[i].y == dy by {
                let (sx, sy) = choose|sx: int, sy: int|
                    {
                        &&& 0 <= sx < bwidth(prefab)
                        &&& 0 <= sy < bheight(prefab)
                        &&& #[trigger] bcell(prefab, sx, sy) == Cell::Alive
                        &&& rot_x(rot, bwidth(prefab), bheight(prefab), sx, sy) == dx
                        &&& rot_y(rot, bwidth(prefab), bheight(prefab), sx, sy) == dy
                    };
                lemma_grid_index_bound(pw as int, ph as int, sx, sy);
            }
        }
        out
    }

    /// Stamps the pattern, transformed, onto the live board with the
    /// cursor at the bounding box's upper-left corner. Placement is
    /// additive: only the pattern's Alive cells are written. It is refused
    /// whole when the bounding box leaves the board, or when any cell of
    /// the destination footprint is already Alive.
    pub fn place_prefab(&mut self, prefab: &Board, rot: Rotation) -> (r: Result<
        (),
        PrefabPlaceError,
    >)
        requires
            old(self).wf(),
            board_ok(prefab),
        ensures
            final(self).wf(),
            final(self).board.spec_dims() == old(self).board.spec_dims(),
            final(self).inital_state == old(self).inital_state,
            final(self).cursor_pos == old(self).cursor_pos,
            final(self).initial_cursor_pos == old(self).initial_cursor_pos,
            final(self).dead_cell == old(self).dead_cell,
            final(self).alive_cell == old(self).alive_cell,
            final(self).dead == old(self).dead,
            ({
                let w = bwidth(&old(self).board);
                let h = bheight(&old(self).board);
                let rw = rot_width(rot, bwidth(prefab), bheight(prefab));
                let rh = rot_height(rot, bwidth(prefab), bheight(prefab));
                let cx = old(self).cursor_pos.x as int;
                let cy = old(self).cursor_pos.y as int;
                let oob_x = cx + rw > w;
                let oob_y = cy + rh > h;
                if oob_x || oob_y {
                    &&& r == Err::<(), PrefabPlaceError>(
                        PrefabPlaceError::OutOfBounds(oob_x, oob_y),
                    )
                    &&& *final(self) == *old(self)
                } else if exists|x: int, y: int|
                    cx <= x < cx + rw && cy <= y < cy + rh && #[trigger] bcell(
                        &old(self).board,
                        x,
                        y,
                    ) == Cell::Alive {
                    &&& r == Err::<(), PrefabPlaceError>(PrefabPlaceError::CellOverlap)
                    &&& *final(self) == *old(self)
                } else {
                    &&& r == Ok::<(), PrefabPlaceError>(())
                    &&& forall|x: int, y: int|
                        0 <= x < w && 0 <= y < h ==> #[trigger] bcell(&final(self).board, x, y) == (
                        if covers(prefab, rot, x - cx, y - cy) {
                            Cell::Alive
                        } else {
                            bcell(&old(self).board, x, y)
                        })
                }
            }),
    {
        let width = match rot {
            Rotation::Up | Rotation::Down | Rotation::UpFlipped | Rotation::DownFlipped => {
                prefab.height()
            },
            Rotation::Right | Rotation::Left | Rotation::RightFlipped | Rotation::LeftFlipped => {
                prefab.width()
            },
        };
        let height = match rot {
            Rotation::Up | Rotation::Down | Rotation::UpFlipped | Rotation::DownFlipped => {
                prefab.width()
            },
            Rotation::Right | Rotation::Left | Rotation::RightFlipped | Rotation::LeftFlipped => {
                prefab.height()
            },
        };
        proof {
            assert(width == rot_width(rot, bwidth(prefab), bheight(prefab)));
            assert(height == rot_height(rot, bwidth(prefab), bheight(prefab)));
        }
        let bw = self.board.width();
        let bh = self.board.height();
        let check_x = width > bw || self.cursor_pos.x > bw - width;
        let check_y = height > bh || self.cursor_pos.y > bh - height;
        proof {
            assert(check_x == (self.cursor_pos.x + width > bw));
            assert(check_y == (self.cursor_pos.y + height > bh));
        }
        if check_x || check_y {
            return Err(PrefabPlaceError::OutOfBounds(check_x, check_y));
        }
        let cx = self.cursor_pos.x;
        let cy = self.cursor_pos.y;
        let ghost pre = *self;
        let mut x = cx;
        while x < cx + width
            invariant
                pre.wf(),
                *self == pre,
                pre == *old(self),
                width == rot_width(rot, bwidth(prefab), bheight(prefab)),
                height == rot_height(rot, bwidth(prefab), bheight(prefab)),
                bw == bwidth(&pre.board),
                bh == bheight(&pre.board),
                cx == pre.cursor_pos.x,
                cy == pre.cursor_pos.y,
                cx + width <= bw,
                cy + height <= bh,
                cx <= x <= cx + width,
                forall|gx: int, gy: int|
                    cx <= gx < x && cy <= gy < cy + height ==> #[trigger] bcell(
                        &pre.board,
                        gx,
                        gy,
                    ) != Cell::Alive,
            decreases cx + width - x,
        {
            let mut y = cy;
            while y < cy + height
                invariant
                    pre.wf(),
                    *self == pre,
                    pre == *old(self),
                    width == rot_width(rot, bwidth(prefab), bheight(prefab)),
                    height == rot_height(rot, bwidth(prefab), bheight(prefab)),
                    bw == bwidth(&pre.board),
                    bh == bheight(&pre.board),
                    cx == pre.cursor_pos.x,
                    cy == pre.cursor_pos.y,
                    cx + width <= bw,
                    cy + height <= bh,
                    cx <= x < cx + width,
                    cy <= y <= cy + height,
                    forall|gx: int, gy: int|
                        cx <= gx < x && cy <= gy < cy + height ==> #[trigger] bcell(
                            &pre.board,
                            gx,
                            gy,
                        ) != Cell::Alive,
                    forall|gy: int|
                        cy <= gy < y ==> #[trigger] bcell(&pre.board, x as int, gy) != Cell::Alive,
                decreases cy + height - y,
            {
                if Life::cell_or_dead(Pos { x, y }, &self.board) == Cell::Alive {
                    proof {
                        assert(cx <= x < cx + width && cy <= y < cy + height);
                        assert(bcell(&old(self).board, x as int, y as int) == Cell::Alive);
                    }
                    return Err(PrefabPlaceError::CellOverlap);
                }
                y = y + 1;
            }
            x = x + 1;
        }
        let coords = Life::rotate_prefab(prefab, rot);
        let ghost pw = bwidth(prefab);
        let ghost ph = bheight(prefab);
        let mut j: usize = 0;
        while j < coords.len()
            invariant
                pre.wf(),
                self.wf(),
                pre == *old(self),
                board_ok(prefab),
                pw == bwidth(prefab),
                ph == bheight(prefab),
                bw == bwidth(&pre.board),
                bh == bheight(&pre.board),
                cx == pre.cursor_pos.x,
                cy == pre.cursor_pos.y,
                cx + rot_width(rot, pw, ph) <= bw,
                cy + rot_height(rot, pw, ph) <= bh,
                0 <= j <= coords@.len(),
                self.board.spec_dims() == pre.board.spec_dims(),
                self.inital_state == pre.inital_state,
                self.cursor_pos == pre.cursor_pos,
                self.initial_cursor_pos == pre.initial_cursor_pos,
                self.dead_cell == pre.dead_cell,
                self.alive_cell == pre.alive_cell,
                self.dead == pre.dead,
                forall|i: int|
                    #![trigger coords@[i]]
                    0 <= i < coords@.len() ==> covers(
                        prefab,
                        rot,
                        coords@[i].x as int,
                        coords@[i].y as int,
                    ),
                forall|dx: int, dy: int|
                    #[trigger] covers(prefab, rot, dx, dy) ==> exists|i: int|
                        #![trigger coords@[i]]
                        0 <= i < coords@.len() && coords@[i].x == dx && coords@[i].y == dy,
                forall|gx: int, gy: int|
                    0 <= gx < bw && 0 <= gy < bh ==> #[trigger] bcell(&self.board, gx, gy) == (
                    if exists|i: int|
                        #![trigger coords@[i]]
                        0 <= i < j && coords@[i].x + cx == gx && coords@[i].y + cy == gy {
                        Cell::Alive
                    } else {
                        bcell(&pre.board, gx, gy)
                    }),
            decreases coords@.len() - j,
        {
            let p = coords[j];
            proof {
                lemma_covers_in_bbox(prefab, rot, p.x as int, p.y as int);
            }
            let gx = cx + p.x;
            let gy = cy + p.y;
            let ghost mid = *self;
            let res = self.set_cell(Pos { x: gx, y: gy }, Cell::Alive);
            proof {
                assert(res is Ok);
                assert forall|ax: int, ay: int| 0 <= ax < bw && 0 <= ay < bh implies #[trigger] bcell(
                    &self.board,
                    ax,
                    ay,
                ) == (if exists|i: int|
                    #![trigger coords@[i]]
                    0 <= i < j + 1 && coords@[i].x + cx == ax && coords@[i].y + cy == ay {
                    Cell::Alive
                } else {
                    bcell(&pre.board, ax, ay)
                }) by {
                    lemma_grid_index_bound(bw as int, bh as int, ax, ay);
                    lemma_grid_index_bound(bw as int, bh as int, gx as int, gy as int);
                    assert(bcell(&mid.board, ax, ay) == (if exists|i: int|
                        #![trigger coords@[i]]
                        0 <= i < j && coords@[i].x + cx == ax && coords@[i].y + cy == ay {
                        Cell::Alive
                    } else {
                        bcell(&pre.board, ax, ay)
                    }));
                    if ax + ay * bw == gx + gy * bw {
                        lemma_grid_index_injective(bw as int, ax, ay, gx as int, gy as int);
                    }
                    if ax == gx && ay == gy {
                        assert(coords@[j as int].x + cx == ax && coords@[j as int].y + cy == ay);
                    }
                }
            }
            j = j + 1;
        }
        proof {
            assert forall|gx: int, gy: int| 0 <= gx < bw && 0 <= gy < bh implies #[trigger] bcell(
                &self.board,
                gx,
                gy,
            ) == (if covers(prefab, rot, gx - cx, gy - cy) {
                Cell::Alive
            } else {
                bcell(&pre.board, gx, gy)
            }) by {
                if covers(prefab, rot, gx - cx, gy - cy) {
                    assert(exists|i: int|
                        #![trigger coords@[i]]
                        0 <= i < coords@.len() && coords@[i].x == gx - cx && coords@[i].y == gy
                            - cy);
                }
                if exists|i: int|
                    #![trigger coords@[i]]
                    0 <= i < coords@.len() && coords@[i].x + cx == gx && coords@[i].y + cy == gy {
                    let i = choose|i: int|
                        #![trigger coords@[i]]
                        0 <= i < coords@.len() && coords@[i].x + cx == gx && coords@[i].y + cy
                            == gy;
                    assert(covers(prefab, rot, coords@[i].x as int, coords@[i].y as int));
                }
            }
        }
        Ok(())
    }
}

} // verus!
