//! The fixed tetromino shape table and rotation-index arithmetic.
//!
//! Each of the seven shapes is a 16-cell occupancy mask over a 4x4 local
//! grid, stored for rotation state 0 in row-major order.  The other three
//! rotation states are derived by a fixed linear index transform per state
//! rather than being stored separately.

use vstd::prelude::*;

verus! {

/// The mask index that local cell `(px, py)` reads at rotation state `r`.
///
/// State 0 is the identity (row-major), states 1..3 are the quarter-turn
/// transforms of the 4x4 grid.
pub open spec fn spec_rotate_index(r: int, px: int, py: int) -> int {
    if r == 0 {
        py * 4 + px
    } else if r == 1 {
        12 + py - 4 * px
    } else if r == 2 {
        15 - 4 * py - px
    } else {
        3 - py + 4 * px
    }
}

/// Whether mask index `i` of shape `s` is occupied, for rotation state 0.
///
/// The seven standard tetrominoes; shapes 2 and 3 are both the square.
pub open spec fn spec_mask(s: int, i: int) -> bool {
    if s == 0 {
        i == 2 || i == 6 || i == 10 || i == 14
    } else if s == 1 {
        i == 2 || i == 5 || i == 6 || i == 10
    } else if s == 2 {
        i == 5 || i == 6 || i == 9 || i == 10
    } else if s == 3 {
        i == 5 || i == 6 || i == 9 || i == 10
    } else if s == 4 {
        i == 1 || i == 5 || i == 6 || i == 10
    } else if s == 5 {
        i == 1 || i == 5 || i == 9 || i == 10
    } else {
        i == 2 || i == 6 || i == 9 || i == 10
    }
}

/// Whether local cell `(px, py)` of shape `s` is occupied at rotation `r`.
/// The rotation is reduced modulo 4, so every integer rotation is meaningful.
pub open spec fn spec_occupied(s: int, r: int, px: int, py: int) -> bool {
    spec_mask(s, spec_rotate_index(r % 4, px, py))
}

/// The mask index that local cell `(px, py)` reads at rotation `r`.
///
/// Callers reduce the rotation modulo 4 before the lookup, so a negative
/// rotation is a caller contract violation and is excluded here.
pub fn rotate(px: i32, py: i32, r: i32) -> (res: Result<i32, &'static str>)
    requires
        0 <= px < 4,
        0 <= py < 4,
        0 <= r,
    ensures
        res is Ok,
        res->Ok_0 == spec_rotate_index(r as int % 4, px as int, py as int),
        0 <= res->Ok_0 < 16,
{
    let rotation: i32 = r % 4;
    match rotation {
        0 => Ok(py * 4 + px),
        1 => Ok(12 + py - (px * 4)),
        2 => Ok(15 - (py * 4) - px),
        3 => Ok(3 - py + (px * 4)),
        _ => Err("invalid rotation"),
    }
}

/// Whether mask index `i` of shape `shape` is set; matches `spec_mask`.
pub fn mask_at(shape: u8, i: i32) -> (b: bool)
    requires
        shape < 7,
        0 <= i < 16,
    ensures
        b == spec_mask(shape as int, i as int),
{
    match shape {
        0 => i == 2 || i == 6 || i == 10 || i == 14,
        1 => i == 2 || i == 5 || i == 6 || i == 10,
        2 => i == 5 || i == 6 || i == 9 || i == 10,
        3 => i == 5 || i == 6 || i == 9 || i == 10,
        4 => i == 1 || i == 5 || i == 6 || i == 10,
        5 => i == 1 || i == 5 || i == 9 || i == 10,
        _ => i == 2 || i == 6 || i == 9 || i == 10,
    }
}

/// Whether local cell `(px, py)` of shape `shape` is occupied at rotation
/// `rotation`; matches `spec_occupied`.  Pure, total for valid inputs.
pub fn occupancy(shape: u8, rotation: u8, px: u8, py: u8) -> (b: bool)
    requires
        shape < 7,
        px < 4,
        py < 4,
    ensures
        b == spec_occupied(shape as int, rotation as int, px as int, py as int),
{
    let pxi: i32 = px as i32;
    let pyi: i32 = py as i32;
    match rotate(pxi, pyi, rotation as i32) {
        Ok(i) => mask_at(shape, i),
        Err(_) => false,
    }
}

/// Law: the rotation states are periodic with period four.  Rotating four
/// more quarter-turns yields exactly the same occupancy mask, for every
/// shape, rotation, and local cell.
pub proof fn lemma_rotation_period(s: int, r: int, px: int, py: int)
    ensures
        spec_occupied(s, r + 4, px, py) == spec_occupied(s, r, px, py),
{
    assert((r + 4) % 4 == r % 4) by (nonlinear_arith);
}

/// Law: every shape occupies at least one local cell in every rotation state.
pub proof fn lemma_mask_nonempty(s: int, r: int)
    requires
        0 <= s < 7,
        0 <= r < 4,
    ensures
        exists|px: int, py: int| 0 <= px < 4 && 0 <= py < 4 && #[trigger] spec_occupied(
            s,
            r,
            px,
            py,
        ),
{
    let (wx, wy): (int, int) = if s == 0 {
        if r == 0 {
            (2, 0)
        } else if r == 1 {
            (0, 2)
        } else if r == 2 {
            (1, 0)
        } else {
            (0, 1)
        }
    } else if s == 1 {
        if r == 0 {
            (2, 0)
        } else if r == 1 {
            (2, 1)
        } else if r == 2 {
            (1, 1)
        } else {
            (0, 1)
        }
    } else if s == 2 || s == 3 {
        (1, 1)
    } else if s == 4 {
        if r == 0 {
            (1, 0)
        } else if r == 1 {
            (2, 1)
        } else if r == 2 {
            (1, 1)
        } else {
            (0, 2)
        }
    } else if s == 5 {
        if r == 0 {
            (1, 0)
        } else if r == 1 {
            (2, 1)
        } else if r == 2 {
            (1, 1)
        } else {
            (0, 2)
        }
    } else {
        if r == 0 {
            (2, 0)
        } else if r == 1 {
            (1, 1)
        } else if r == 2 {
            (1, 1)
        } else {
            (0, 1)
        }
    };
    assert(spec_occupied(s, r, wx, wy));
}

} // verus!
