//! Collision testing: whether a piece fits on the board at a position.

use vstd::prelude::*;
use crate::board::Board;
use crate::board::Cell;
use crate::board::lemma_idx;
use crate::board::spec_covers;
use crate::board::spec_idx;
use crate::board::spec_in_bounds;
use crate::board::spec_interior;
use crate::board::spec_lock;
use crate::board::board_wf;
use crate::shapes::occupancy;
use crate::shapes::spec_occupied;
use crate::shapes::lemma_mask_nonempty;

verus! {

/// Whether the piece with shape `s` and rotation `r` fits at origin (x, y):
/// every occupied local cell must land on the board and on an `Empty` cell.
pub open spec fn spec_fits(b: Seq<Cell>, s: int, r: int, x: int, y: int) -> bool {
    forall|px: int, py: int|
        0 <= px < 4 && 0 <= py < 4 && #[trigger] spec_occupied(s, r, px, py) ==> spec_in_bounds(
            x + px,
            y + py,
        ) && b[spec_idx(x + px, y + py)] == Cell::Empty
}

/// Whether the piece fits on the board at the given position: all sixteen
/// local cells are scanned, occupied ones must land in bounds and on `Empty`
/// cells.  Pure; called speculatively, the caller applies a move only on
/// `true`.  Any rotation is accepted and reduced modulo 4.
pub fn does_piece_fit(
    p_field: &Board,
    n_tetromino: u8,
    n_rotation: u8,
    n_pos_x: i32,
    n_pos_y: i32,
) -> (b: bool)
    requires
        p_field.wf(),
        n_tetromino < 7,
        -1000 <= n_pos_x <= 1000,
        -1000 <= n_pos_y <= 1000,
    ensures
        b == spec_fits(
            p_field@,
            n_tetromino as int,
            n_rotation as int,
            n_pos_x as int,
            n_pos_y as int,
        ),
{
    let ghost s = n_tetromino as int;
    let ghost r = n_rotation as int;
    let ghost gx = n_pos_x as int;
    let ghost gy = n_pos_y as int;
    let mut px: u8 = 0;
    while px < 4
        invariant
            p_field.wf(),
            n_tetromino < 7,
            -1000 <= n_pos_x <= 1000,
            -1000 <= n_pos_y <= 1000,
            s == n_tetromino as int,
            r == n_rotation as int,
            gx == n_pos_x as int,
            gy == n_pos_y as int,
            0 <= px <= 4,
            forall|a: int, b: int|
                0 <= a < px && 0 <= b < 4 && #[trigger] spec_occupied(s, r, a, b)
                    ==> spec_in_bounds(gx + a, gy + b) && p_field@[spec_idx(gx + a, gy + b)]
                    == Cell::Empty,
        decreases 4 - px,
    {
        let mut py: u8 = 0;
        while py < 4
            invariant
                p_field.wf(),
                n_tetromino < 7,
                -1000 <= n_pos_x <= 1000,
                -1000 <= n_pos_y <= 1000,
                s == n_tetromino as int,
                r == n_rotation as int,
                gx == n_pos_x as int,
                gy == n_pos_y as int,
                0 <= px < 4,
                0 <= py <= 4,
                forall|a: int, b: int|
                    0 <= a < px && 0 <= b < 4 && #[trigger] spec_occupied(s, r, a, b)
                        ==> spec_in_bounds(gx + a, gy + b) && p_field@[spec_idx(gx + a, gy + b)]
                        == Cell::Empty,
                forall|b: int|
                    0 <= b < py && #[trigger] spec_occupied(s, r, px as int, b) ==> spec_in_bounds(
                        gx + px as int,
                        gy + b,
                    ) && p_field@[spec_idx(gx + px as int, gy + b)] == Cell::Empty,
            decreases 4 - py,
        {
            if occupancy(n_tetromino, n_rotation, px, py) {
                let bx: i32 = n_pos_x + px as i32;
                let by: i32 = n_pos_y + py as i32;
                if !(0 <= bx && bx < 12 && 0 <= by && by < 18) {
                    return false;
                }
                if p_field.get(bx, by) != Cell::Empty {
                    return false;
                }
            }
            py = py + 1;
        }
        px = px + 1;
    }
    true
}

/// Law: a fit test fails whenever any occupied piece cell maps onto an
/// in-bounds board cell holding `Locked` or `Border`, for every shape,
/// rotation and position.
pub proof fn lemma_fits_rejects_collision(
    b: Seq<Cell>,
    s: int,
    r: int,
    x: int,
    y: int,
    px: int,
    py: int,
)
    requires
        0 <= px < 4,
        0 <= py < 4,
        spec_occupied(s, r, px, py),
        spec_in_bounds(x + px, y + py),
        b[spec_idx(x + px, y + py)] == Cell::Locked || b[spec_idx(x + px, y + py)] == Cell::Border,
    ensures
        !spec_fits(b, s, r, x, y),
{
}

/// Law: after locking a piece whose occupied cells all lie on interior
/// positions, the same piece no longer fits at the same rotation and
/// position: locking makes its own region unfit.
pub proof fn lemma_lock_then_unfit(b: Seq<Cell>, s: int, r: int, x: int, y: int)
    requires
        b.len() == 216,
        0 <= s < 7,
        0 <= r < 4,
        forall|px: int, py: int|
            0 <= px < 4 && 0 <= py < 4 && #[trigger] spec_occupied(s, r, px, py)
                ==> spec_interior(x + px, y + py),
    ensures
        !spec_fits(spec_lock(b, s, r, x, y), s, r, x, y),
{
    lemma_mask_nonempty(s, r);
    let (px, py) = choose|px: int, py: int|
        0 <= px < 4 && 0 <= py < 4 && #[trigger] spec_occupied(s, r, px, py);
    let cx = x + px;
    let cy = y + py;
    lemma_idx(cx, cy);
    assert(spec_covers(s, r, x, y, cx, cy));
    assert(spec_lock(b, s, r, x, y)[spec_idx(cx, cy)] == Cell::Locked);
}

/// Law: a well-formed board never lets a piece fit over a border position;
/// a fitting piece sits entirely on interior cells.
pub proof fn lemma_fits_interior(b: Seq<Cell>, s: int, r: int, x: int, y: int)
    requires
        board_wf(b),
        spec_fits(b, s, r, x, y),
    ensures
        forall|px: int, py: int|
            0 <= px < 4 && 0 <= py < 4 && #[trigger] spec_occupied(s, r, px, py)
                ==> spec_interior(x + px, y + py),
{
    assert forall|px: int, py: int|
        0 <= px < 4 && 0 <= py < 4 && #[trigger] spec_occupied(s, r, px, py) implies spec_interior(
        x + px,
        y + py,
    ) by {
        lemma_idx(x + px, y + py);
    }
}

} // verus!
