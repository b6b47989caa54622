//! The persistent board grid: bordered cells, piece locking, full-row
//! detection, row clearing and row collapse.
//!
//! The grid is a fixed 12x18 field in row-major order.  Column 0, column 11
//! and row 17 are an immutable border; the interior cells hold `Empty` or
//! `Locked` terrain.

use vstd::prelude::*;
use crate::shapes::occupancy;
use crate::shapes::spec_occupied;

verus! {

/// Total board width in cells, including the two border columns.
pub const FIELD_WIDTH: i32 = 12;

/// Total board height in cells, including the floor border row.
pub const FIELD_HEIGHT: i32 = 18;

/// One cell of the board or of a render snapshot.
///
/// Board cells are only ever `Empty`, `Border` or `Locked`; `Active` marks
/// the falling piece's cells in a render snapshot.
#[derive(Clone, Copy, PartialEq, Eq, Structural, Debug)]
pub enum Cell {
    Empty,
    Border,
    Locked,
    Active,
}

/// The row-major index of cell (x, y).
pub open spec fn spec_idx(x: int, y: int) -> int {
    y * 12 + x
}

/// Whether (x, y) lies on the board at all.
pub open spec fn spec_in_bounds(x: int, y: int) -> bool {
    0 <= x < 12 && 0 <= y < 18
}

/// Whether (x, y) is a border position: the two side columns or the floor.
pub open spec fn spec_is_border_pos(x: int, y: int) -> bool {
    x == 0 || x == 11 || y == 17
}

/// Whether (x, y) is an interior position: on the board and not border.
pub open spec fn spec_interior(x: int, y: int) -> bool {
    1 <= x <= 10 && 0 <= y <= 16
}

/// Well-formedness of a board image: 216 cells, border positions hold
/// `Border` and only they do, interior positions hold `Empty` or `Locked`.
pub open spec fn board_wf(b: Seq<Cell>) -> bool {
    &&& b.len() == 216
    &&& forall|x: int, y: int|
        spec_in_bounds(x, y) && spec_is_border_pos(x, y) ==> b[#[trigger] spec_idx(x, y)]
            == Cell::Border
    &&& forall|x: int, y: int|
        spec_interior(x, y) ==> b[#[trigger] spec_idx(x, y)] == Cell::Empty || b[spec_idx(x, y)]
            == Cell::Locked
}

/// Recovering a cell position from its row-major index.
pub proof fn lemma_idx(x: int, y: int)
    requires
        spec_in_bounds(x, y),
    ensures
        0 <= spec_idx(x, y) < 216,
        spec_idx(x, y) % 12 == x,
        spec_idx(x, y) / 12 == y,
{
    vstd::arithmetic::div_mod::lemma_fundamental_div_mod_converse(spec_idx(x, y), 12, y, x);
}

/// Two board images that agree on every position are equal.
pub proof fn lemma_pointwise_eq(a: Seq<Cell>, b: Seq<Cell>)
    requires
        a.len() == 216,
        b.len() == 216,
        forall|x: int, y: int|
            spec_in_bounds(x, y) ==> a[#[trigger] spec_idx(x, y)] == b[spec_idx(x, y)],
    ensures
        a == b,
{
    assert forall|i: int| 0 <= i < 216 implies a[i] == b[i] by {
        vstd::arithmetic::div_mod::lemma_fundamental_div_mod(i, 12);
        let x = i % 12;
        let y = i / 12;
        assert(0 <= x < 12);
        assert(0 <= y < 18) by (nonlinear_arith)
            requires
                0 <= i < 216,
                y == i / 12,
        ;
        assert(spec_idx(x, y) == i);
        assert(a[spec_idx(x, y)] == b[spec_idx(x, y)]);
    };
    assert(a =~= b);
}

/// Whether the piece with shape `s` and rotation `r`, at origin (x, y),
/// occupies the absolute board position (cx, cy).
pub open spec fn spec_covers(s: int, r: int, x: int, y: int, cx: int, cy: int) -> bool {
    0 <= cx - x < 4 && 0 <= cy - y < 4 && spec_occupied(s, r, cx - x, cy - y)
}

/// The board image after locking the piece: every position the piece covers
/// becomes `Locked`, all other positions are unchanged.
pub open spec fn spec_lock(b: Seq<Cell>, s: int, r: int, x: int, y: int) -> Seq<Cell> {
    Seq::new(
        b.len(),
        |i: int|
            if spec_covers(s, r, x, y, i % 12, i / 12) {
                Cell::Locked
            } else {
                b[i]
            },
    )
}

/// Whether every interior cell of row `y` is locked.
pub open spec fn spec_row_full(b: Seq<Cell>, y: int) -> bool {
    forall|x: int| 1 <= x <= 10 ==> b[#[trigger] spec_idx(x, y)] == Cell::Locked
}

/// The ascending list of full rows among rows `start <= y < end`.
pub open spec fn spec_full_rows(b: Seq<Cell>, start: int, end: int) -> Seq<int>
    decreases end - start,
{
    if start >= end {
        Seq::empty()
    } else {
        spec_full_rows(b, start, end - 1) + if spec_row_full(b, end - 1) {
            seq![end - 1]
        } else {
            Seq::empty()
        }
    }
}

/// The board image after clearing the given rows: their interior cells
/// become `Empty`, everything else is unchanged.
pub open spec fn spec_clear(b: Seq<Cell>, rows: Seq<int>) -> Seq<Cell> {
    Seq::new(
        b.len(),
        |i: int|
            if rows.contains(i / 12) && 1 <= i % 12 <= 10 {
                Cell::Empty
            } else {
                b[i]
            },
    )
}

/// The board image after collapsing one cleared row `v`: each interior cell
/// of rows 1..=v takes the previous content of the row above it, row 0's
/// interior becomes `Empty`, and everything else is unchanged.
pub open spec fn spec_collapse_one(b: Seq<Cell>, v: int) -> Seq<Cell> {
    Seq::new(
        b.len(),
        |i: int|
            if 1 <= i % 12 <= 10 {
                if 1 <= i / 12 <= v {
                    b[i - 12]
                } else if i / 12 == 0 {
                    Cell::Empty
                } else {
                    b[i]
                }
            } else {
                b[i]
            },
    )
}

/// The board image after collapsing every row in `rows`, in list order.
pub open spec fn spec_collapse_all(b: Seq<Cell>, rows: Seq<int>) -> Seq<Cell>
    decreases rows.len(),
{
    if rows.len() == 0 {
        b
    } else {
        spec_collapse_all(spec_collapse_one(b, rows[0]), rows.drop_first())
    }
}

/// The sequence of row indices of a vector, as mathematical integers.
pub open spec fn rows_int(s: Seq<i32>) -> Seq<int> {
    s.map_values(|v: i32| v as int)
}

/// The board grid.  Owns the 216 cells in row-major order.
pub struct Board {
    cells: Vec<Cell>,
}

impl View for Board {
    type V = Seq<Cell>;

    closed spec fn view(&self) -> Seq<Cell> {
        self.cells@
    }
}

impl Board {
    /// Well-formedness of this board.
    pub open spec fn wf(&self) -> bool {
        board_wf(self@)
    }

    /// The cell at position (x, y).
    pub open spec fn spec_cell(&self, x: int, y: int) -> Cell {
        self@[spec_idx(x, y)]
    }

    /// A fresh board: bordered on both sides and the floor, empty inside.
    pub fn new() -> (b: Board)
        ensures
            b.wf(),
            forall|x: int, y: int|
                spec_in_bounds(x, y) ==> b.spec_cell(x, y) == (if spec_is_border_pos(x, y) {
                    Cell::Border
                } else {
                    Cell::Empty
                }),
    {
        let mut cells: Vec<Cell> = Vec::new();
        let mut y: i32 = 0;
        while y < 18
            invariant
                0 <= y <= 18,
                cells@.len() == 12 * y,
                forall|xx: int, yy: int|
                    0 <= xx < 12 && 0 <= yy < y ==> cells@[#[trigger] spec_idx(xx, yy)] == (
                    if spec_is_border_pos(xx, yy) {
                        Cell::Border
                    } else {
                        Cell::Empty
                    }),
            decreases 18 - y,
        {
            let mut x: i32 = 0;
            while x < 12
                invariant
                    0 <= y < 18,
                    0 <= x <= 12,
                    cells@.len() == 12 * y + x,
                    forall|xx: int, yy: int|
                        0 <= xx < 12 && 0 <= yy < y ==> cells@[#[trigger] spec_idx(xx, yy)] == (
                        if spec_is_border_pos(xx, yy) {
                            Cell::Border
                        } else {
                            Cell::Empty
                        }),
                    forall|xx: int|
                        0 <= xx < x ==> cells@[#[trigger] spec_idx(xx, y as int)] == (
                        if spec_is_border_pos(xx, y as int) {
                            Cell::Border
                        } else {
                            Cell::Empty
                        }),
                decreases 12 - x,
            {
                let c = if x == 0 || x == 11 || y == 17 {
                    Cell::Border
                } else {
                    Cell::Empty
                };
                cells.push(c);
                x = x + 1;
            }
            y = y + 1;
        }
        let b = Board { cells };
        proof {
            assert forall|x: int, y: int|
                spec_in_bounds(x, y) && spec_is_border_pos(x, y) implies b@[#[trigger] spec_idx(
                x,
                y,
            )] == Cell::Border by {
                assert(b.spec_cell(x, y) == Cell::Border);
            };
            assert forall|x: int, y: int| spec_interior(x, y) implies b@[#[trigger] spec_idx(x, y)]
                == Cell::Empty || b@[spec_idx(x, y)] == Cell::Locked by {
                assert(!spec_is_border_pos(x, y));
                assert(b.spec_cell(x, y) == Cell::Empty);
            };
        }
        b
    }

    /// Read the cell at (x, y).
    pub fn get(&self, x: i32, y: i32) -> (c: Cell)
        requires
            self.wf(),
            spec_in_bounds(x as int, y as int),
        ensures
            c == self.spec_cell(x as int, y as int),
    {
        let i: usize = (y * 12 + x) as usize;
        self.cells[i]
    }

    /// Write `c` into the interior cell (x, y).  Only `Empty` and `Locked`
    /// may be written, so well-formedness is preserved.
    pub fn set(&mut self, x: i32, y: i32, c: Cell)
        requires
            old(self).wf(),
            spec_interior(x as int, y as int),
            c == Cell::Empty || c == Cell::Locked,
        ensures
            final(self).wf(),
            final(self)@ == old(self)@.update(spec_idx(x as int, y as int), c),
    {
        proof {
            lemma_idx(x as int, y as int);
        }
        let i: usize = (y * 12 + x) as usize;
        self.cells[i] = c;
        proof {
            assert forall|xx: int, yy: int|
                spec_in_bounds(xx, yy) && spec_is_border_pos(xx, yy) implies self@[
            #[trigger] spec_idx(xx, yy)] == Cell::Border by {
                lemma_idx(xx, yy);
                if spec_idx(xx, yy) != i as int {
                    assert(self@[spec_idx(xx, yy)] == old(self)@[spec_idx(xx, yy)]);
                }
            };
            assert forall|xx: int, yy: int| spec_interior(xx, yy) implies self@[
            #[trigger] spec_idx(xx, yy)] == Cell::Empty || self@[spec_idx(xx, yy)]
                == Cell::Locked by {
                lemma_idx(xx, yy);
                if spec_idx(xx, yy) != i as int {
                    assert(self@[spec_idx(xx, yy)] == old(self)@[spec_idx(xx, yy)]);
                }
            };
        }
    }

    /// Lock the piece into the board: every occupied local cell of shape
    /// `shape` at rotation `rotation` and origin (x, y) is written `Locked`.
    ///
    /// The caller must already have decided that the piece can no longer
    /// descend; locking does not re-validate a fit, it only needs every
    /// occupied cell to land on an interior position.
    pub fn lock_piece(&mut self, shape: u8, rotation: u8, x: i32, y: i32)
        requires
            old(self).wf(),
            shape < 7,
            -100 <= x <= 100,
            -100 <= y <= 100,
            forall|px: int, py: int|
                0 <= px < 4 && 0 <= py < 4 && #[trigger] spec_occupied(
                    shape as int,
                    rotation as int,
                    px,
                    py,
                ) ==> spec_interior(x + px, y + py),
        ensures
            final(self).wf(),
            final(self)@ == spec_lock(old(self)@, shape as int, rotation as int, x as int, y as int),
    {
        let ghost s = shape as int;
        let ghost r = rotation as int;
        let mut px: i32 = 0;
        while px < 4
            invariant
                old(self).wf(),
                self.wf(),
                shape < 7,
                s == shape as int,
                r == rotation as int,
                -100 <= x <= 100,
                -100 <= y <= 100,
                0 <= px <= 4,
                forall|a: int, b: int|
                    0 <= a < 4 && 0 <= b < 4 && #[trigger] spec_occupied(s, r, a, b)
                        ==> spec_interior(x + a, y + b),
                forall|cx: int, cy: int|
                    spec_in_bounds(cx, cy) ==> self@[#[trigger] spec_idx(cx, cy)] == (
                    if covered_prefix(s, r, x as int, y as int, cx, cy, px as int, 0) {
                        Cell::Locked
                    } else {
                        old(self)@[spec_idx(cx, cy)]
                    }),
            decreases 4 - px,
        {
            let mut py: i32 = 0;
            while py < 4
                invariant
                    old(self).wf(),
                    self.wf(),
                    shape < 7,
                    s == shape as int,
                    r == rotation as int,
                    -100 <= x <= 100,
                    -100 <= y <= 100,
                    0 <= px < 4,
                    0 <= py <= 4,
                    forall|a: int, b: int|
                        0 <= a < 4 && 0 <= b < 4 && #[trigger] spec_occupied(s, r, a, b)
                            ==> spec_interior(x + a, y + b),
                    forall|cx: int, cy: int|
                        spec_in_bounds(cx, cy) ==> self@[#[trigger] spec_idx(cx, cy)] == (
                        if covered_prefix(s, r, x as int, y as int, cx, cy, px as int, py as int) {
                            Cell::Locked
                        } else {
                            old(self)@[spec_idx(cx, cy)]
                        }),
                decreases 4 - py,
            {
                if occupancy(shape, rotation, px as u8, py as u8) {
                    self.set(x + px, y + py, Cell::Locked);
                    proof {
                        lemma_idx(x as int + px as int, y as int + py as int);
                    }
                }
                proof {
                    let gpx = px as int;
                    let gpy = py as int;
                    assert forall|cx: int, cy: int| spec_in_bounds(cx, cy) implies self@[
                    #[trigger] spec_idx(cx, cy)] == (if covered_prefix(
                        s,
                        r,
                        x as int,
                        y as int,
                        cx,
                        cy,
                        gpx,
                        gpy + 1,
                    ) {
                        Cell::Locked
                    } else {
                        old(self)@[spec_idx(cx, cy)]
                    }) by {
                        lemma_idx(cx, cy);
                        if covered_prefix(s, r, x as int, y as int, cx, cy, gpx, gpy + 1) {
                            let (a, b) = choose|a: int, b: int|
                                0 <= a < 4 && 0 <= b < 4 && (a < gpx || (a == gpx && b < gpy + 1))
                                    && #[trigger] spec_occupied(s, r, a, b) && cx == x + a && cy == y
                                    + b;
                            if a == gpx && b == gpy {
                                assert(self@[spec_idx(cx, cy)] == Cell::Locked);
                            } else {
                                assert(covered_prefix(s, r, x as int, y as int, cx, cy, gpx, gpy));
                            }
                        } else {
                            assert(!covered_prefix(s, r, x as int, y as int, cx, cy, gpx, gpy));
                            if spec_occupied(s, r, gpx, gpy) && cx == x + gpx && cy == y + gpy {
                                assert(covered_prefix(s, r, x as int, y as int, cx, cy, gpx, gpy + 1));
                            }
                        }
                    };
                }
                py = py + 1;
            }
            proof {
                let gpx = px as int;
                assert forall|cx: int, cy: int|
                    covered_prefix(s, r, x as int, y as int, cx, cy, gpx, 4) implies covered_prefix(
                    s,
                    r,
                    x as int,
                    y as int,
                    cx,
                    cy,
                    gpx + 1,
                    0,
                ) by {
                    let (a, b) = choose|a: int, b: int|
                        0 <= a < 4 && 0 <= b < 4 && (a < gpx || (a == gpx && b < 4))
                            && #[trigger] spec_occupied(s, r, a, b) && cx == x + a && cy == y + b;
                    assert(a < gpx + 1);
                };
                assert forall|cx: int, cy: int|
                    covered_prefix(s, r, x as int, y as int, cx, cy, gpx + 1, 0) implies
                    covered_prefix(s, r, x as int, y as int, cx, cy, gpx, 4) by {
                    let (a, b) = choose|a: int, b: int|
                        0 <= a < 4 && 0 <= b < 4 && (a < gpx + 1 || (a == gpx + 1 && b < 0))
                            && #[trigger] spec_occupied(s, r, a, b) && cx == x + a && cy == y + b;
                    assert(a < gpx || (a == gpx && b < 4));
                };
            }
            px = px + 1;
        }
        proof {
            let gx = x as int;
            let gy = y as int;
            assert forall|cx: int, cy: int| spec_in_bounds(cx, cy) implies self@[
            #[trigger] spec_idx(cx, cy)] == spec_lock(old(self)@, s, r, gx, gy)[spec_idx(cx, cy)] by {
                lemma_idx(cx, cy);
                if spec_covers(s, r, gx, gy, cx, cy) {
                    assert(covered_prefix(s, r, gx, gy, cx, cy, 4, 0));
                }
                if covered_prefix(s, r, gx, gy, cx, cy, 4, 0) {
                    let (a, b) = choose|a: int, b: int|
                        0 <= a < 4 && 0 <= b < 4 && (a < 4 || (a == 4 && b < 0))
                            && #[trigger] spec_occupied(s, r, a, b) && cx == gx + a && cy == gy + b;
                    assert(spec_covers(s, r, gx, gy, cx, cy));
                }
            };
            lemma_pointwise_eq(self@, spec_lock(old(self)@, s, r, gx, gy));
        }
    }
}

impl Board {
    /// Whether every interior cell of row `y` is locked; matches
    /// `spec_row_full`.
    pub fn row_full(&self, y: i32) -> (b: bool)
        requires
            self.wf(),
            0 <= y < 18,
        ensures
            b == spec_row_full(self@, y as int),
    {
        let mut x: i32 = 1;
        while x <= 10
            invariant
                self.wf(),
                0 <= y < 18,
                1 <= x <= 11,
                forall|xx: int|
                    1 <= xx < x ==> self@[#[trigger] spec_idx(xx, y as int)] == Cell::Locked,
            decreases 11 - x,
        {
            if self.get(x, y) != Cell::Locked {
                return false;
            }
            x = x + 1;
        }
        true
    }

    /// The ascending list of full rows among rows `start <= y < end`: rows
    /// whose every interior cell is `Locked`.
    pub fn detect_full_rows(&self, start: i32, end: i32) -> (rows: Vec<i32>)
        requires
            self.wf(),
            0 <= start <= end <= 17,
        ensures
            rows_int(rows@) == spec_full_rows(self@, start as int, end as int),
            forall|i: int| 0 <= i < rows@.len() ==> start <= #[trigger] rows@[i] < end,
    {
        let mut rows: Vec<i32> = Vec::new();
        let mut yy: i32 = start;
        proof {
            assert(rows_int(rows@) =~= spec_full_rows(self@, start as int, start as int));
        }
        while yy < end
            invariant
                self.wf(),
                0 <= start <= end <= 17,
                start <= yy <= end,
                rows_int(rows@) == spec_full_rows(self@, start as int, yy as int),
                forall|i: int| 0 <= i < rows@.len() ==> start <= #[trigger] rows@[i] < yy,
            decreases end - yy,
        {
            let ghost pre = rows_int(rows@);
            if self.row_full(yy) {
                rows.push(yy);
                proof {
                    assert(rows_int(rows@) =~= pre + seq![yy as int]);
                }
            } else {
                proof {
                    assert(rows_int(rows@) =~= pre + Seq::<int>::empty());
                }
            }
            proof {
                assert(spec_full_rows(self@, start as int, yy as int + 1) == spec_full_rows(
                    self@,
                    start as int,
                    yy as int,
                ) + if spec_row_full(self@, yy as int) {
                    seq![yy as int]
                } else {
                    Seq::<int>::empty()
                });
            }
            yy = yy + 1;
        }
        rows
    }

    /// Clear the given rows: every interior cell of each listed row becomes
    /// `Empty`; everything else is unchanged.
    pub fn clear_rows(&mut self, rows: &Vec<i32>)
        requires
            old(self).wf(),
            forall|i: int| 0 <= i < rows@.len() ==> 0 <= #[trigger] rows@[i] <= 16,
        ensures
            final(self).wf(),
            final(self)@ == spec_clear(old(self)@, rows_int(rows@)),
    {
        let n = rows.len();
        let mut k: usize = 0;
        while k < n
            invariant
                old(self).wf(),
                self.wf(),
                n == rows@.len(),
                0 <= k <= n,
                forall|i: int| 0 <= i < rows@.len() ==> 0 <= #[trigger] rows@[i] <= 16,
                forall|cx: int, cy: int|
                    spec_in_bounds(cx, cy) ==> self@[#[trigger] spec_idx(cx, cy)] == (
                    if 1 <= cx <= 10 && row_in_prefix(rows@, k as int, cy) {
                        Cell::Empty
                    } else {
                        old(self)@[spec_idx(cx, cy)]
                    }),
            decreases n - k,
        {
            let r: i32 = rows[k];
            let mut x: i32 = 1;
            while x <= 10
                invariant
                    old(self).wf(),
                    self.wf(),
                    n == rows@.len(),
                    0 <= k < n,
                    r == rows@[k as int],
                    0 <= r <= 16,
                    1 <= x <= 11,
                    forall|i: int| 0 <= i < rows@.len() ==> 0 <= #[trigger] rows@[i] <= 16,
                    forall|cx: int, cy: int|
                        spec_in_bounds(cx, cy) ==> self@[#[trigger] spec_idx(cx, cy)] == (
                        if 1 <= cx <= 10 && (row_in_prefix(rows@, k as int, cy) || (cy == r && cx
                            < x)) {
                            Cell::Empty
                        } else {
                            old(self)@[spec_idx(cx, cy)]
                        }),
                decreases 11 - x,
            {
                let ghost prev = self@;
                self.set(x, r, Cell::Empty);
                proof {
                    lemma_idx(x as int, r as int);
                    assert forall|cx: int, cy: int| spec_in_bounds(cx, cy) implies self@[
                    #[trigger] spec_idx(cx, cy)] == (if 1 <= cx <= 10 && (row_in_prefix(
                        rows@,
                        k as int,
                        cy,
                    ) || (cy == r && cx < x + 1)) {
                        Cell::Empty
                    } else {
                        old(self)@[spec_idx(cx, cy)]
                    }) by {
                        lemma_idx(cx, cy);
                        if spec_idx(cx, cy) != spec_idx(x as int, r as int) {
                            assert(self@[spec_idx(cx, cy)] == prev[spec_idx(cx, cy)]);
                        }
                    };
                }
                x = x + 1;
            }
            proof {
                assert forall|cy: int|
                    row_in_prefix(rows@, k as int, cy) || cy == r implies row_in_prefix(
                    rows@,
                    k as int + 1,
                    cy,
                ) by {
                    if cy == r {
                        assert(0 <= k as int && (k as int) < rows@.len() && rows@[k as int] == cy);
                    } else {
                        let j = choose|j: int| 0 <= j < k as int && rows@[j] == cy;
                        assert(0 <= j < k as int + 1 && rows@[j] == cy);
                    }
                };
                assert forall|cy: int| row_in_prefix(rows@, k as int + 1, cy) implies row_in_prefix(
                    rows@,
                    k as int,
                    cy,
                ) || cy == r by {
                    let j = choose|j: int| 0 <= j < k as int + 1 && rows@[j] == cy;
                    if j < k as int {
                        assert(row_in_prefix(rows@, k as int, cy));
                    }
                };
            }
            k = k + 1;
        }
        proof {
            let m = rows_int(rows@);
            assert forall|cx: int, cy: int| spec_in_bounds(cx, cy) implies self@[
            #[trigger] spec_idx(cx, cy)] == spec_clear(old(self)@, m)[spec_idx(cx, cy)] by {
                lemma_idx(cx, cy);
                if m.contains(cy) {
                    let j = choose|j: int| 0 <= j < m.len() && m[j] == cy;
                    assert(rows@[j] == cy);
                    assert(row_in_prefix(rows@, n as int, cy));
                }
                if row_in_prefix(rows@, n as int, cy) {
                    let j = choose|j: int| 0 <= j < n as int && rows@[j] == cy;
                    assert(m[j] == cy);
                    assert(m.contains(cy));
                }
            };
            lemma_pointwise_eq(self@, spec_clear(old(self)@, m));
        }
    }

    /// Collapse one cleared row `v`: every interior cell of rows 1..=v takes
    /// the previous content of the row above it, then row 0's interior
    /// becomes `Empty`.
    #[verifier::spinoff_prover]
    #[verifier::rlimit(100)]
    fn collapse_one(&mut self, v: i32)
        requires
            old(self).wf(),
            0 <= v <= 16,
        ensures
            final(self).wf(),
            final(self)@ == spec_collapse_one(old(self)@, v as int),
    {
        let ghost b0 = old(self)@;
        self.shift_rows(v);
        let ghost b1 = self@;
        self.blank_top_row();
        proof {
            assert forall|cx: int, cy: int| spec_in_bounds(cx, cy) implies self@[
            #[trigger] spec_idx(cx, cy)] == (if 1 <= cx <= 10 && 1 <= cy <= v {
                b0[spec_idx(cx, cy) - 12]
            } else if cy == 0 && 1 <= cx <= 10 {
                Cell::Empty
            } else {
                b0[spec_idx(cx, cy)]
            }) by {
                assert(b1[spec_idx(cx, cy)] == (if 1 <= cx <= 10 && 1 <= cy <= v {
                    b0[spec_idx(cx, cy) - 12]
                } else {
                    b0[spec_idx(cx, cy)]
                }));
            };
            lemma_collapse_one_eq(self@, b0, v as int);
        }
    }

    /// Shift the interior cells of rows 1..=v down from the row above each.
    fn shift_rows(&mut self, v: i32)
        requires
            old(self).wf(),
            0 <= v <= 16,
        ensures
            final(self).wf(),
            forall|cx: int, cy: int|
                spec_in_bounds(cx, cy) ==> final(self)@[#[trigger] spec_idx(cx, cy)] == (
                if 1 <= cx <= 10 && 1 <= cy <= v {
                    old(self)@[spec_idx(cx, cy) - 12]
                } else {
                    old(self)@[spec_idx(cx, cy)]
                }),
    {
        let mut yy: i32 = v;
        while yy >= 1
            invariant
                old(self).wf(),
                self.wf(),
                0 <= v <= 16,
                0 <= yy <= v,
                forall|cx: int, cy: int|
                    spec_in_bounds(cx, cy) ==> self@[#[trigger] spec_idx(cx, cy)] == (
                    if 1 <= cx <= 10 && yy < cy <= v {
                        old(self)@[spec_idx(cx, cy) - 12]
                    } else {
                        old(self)@[spec_idx(cx, cy)]
                    }),
            decreases yy,
        {
            let mut x: i32 = 1;
            while x <= 10
                invariant
                    old(self).wf(),
                    self.wf(),
                    0 <= v <= 16,
                    1 <= yy <= v,
                    1 <= x <= 11,
                    forall|cx: int, cy: int|
                        spec_in_bounds(cx, cy) ==> self@[#[trigger] spec_idx(cx, cy)] == (
                        if 1 <= cx <= 10 && yy < cy <= v {
                            old(self)@[spec_idx(cx, cy) - 12]
                        } else if cy == yy && 1 <= cx < x {
                            old(self)@[spec_idx(cx, cy) - 12]
                        } else {
                            old(self)@[spec_idx(cx, cy)]
                        }),
                decreases 11 - x,
            {
                let c = self.get(x, yy - 1);
                proof {
                    assert(spec_interior(x as int, yy as int - 1));
                }
                let ghost prev = self@;
                self.set(x, yy, c);
                proof {
                    lemma_idx(x as int, yy as int);
                    assert forall|cx: int, cy: int| spec_in_bounds(cx, cy) implies self@[
                    #[trigger] spec_idx(cx, cy)] == (if 1 <= cx <= 10 && yy < cy <= v {
                        old(self)@[spec_idx(cx, cy) - 12]
                    } else if cy == yy as int && 1 <= cx < x + 1 {
                        old(self)@[spec_idx(cx, cy) - 12]
                    } else {
                        old(self)@[spec_idx(cx, cy)]
                    }) by {
                        lemma_idx(cx, cy);
                        if spec_idx(cx, cy) != spec_idx(x as int, yy as int) {
                            assert(self@[spec_idx(cx, cy)] == prev[spec_idx(cx, cy)]);
                        }
                    };
                }
                x = x + 1;
            }
            yy = yy - 1;
        }
    }

    /// Blank the interior of the top row.
    fn blank_top_row(&mut self)
        requires
            old(self).wf(),
        ensures
            final(self).wf(),
            forall|cx: int, cy: int|
                spec_in_bounds(cx, cy) ==> final(self)@[#[trigger] spec_idx(cx, cy)] == (
                if cy == 0 && 1 <= cx <= 10 {
                    Cell::Empty
                } else {
                    old(self)@[spec_idx(cx, cy)]
                }),
    {
        let mut x: i32 = 1;
        while x <= 10
            invariant
                old(self).wf(),
                self.wf(),
                1 <= x <= 11,
                forall|cx: int, cy: int|
                    spec_in_bounds(cx, cy) ==> self@[#[trigger] spec_idx(cx, cy)] == (
                    if cy == 0 && 1 <= cx < x {
                        Cell::Empty
                    } else {
                        old(self)@[spec_idx(cx, cy)]
                    }),
            decreases 11 - x,
        {
            let ghost prev = self@;
            self.set(x, 0, Cell::Empty);
            proof {
                lemma_idx(x as int, 0);
                assert forall|cx: int, cy: int| spec_in_bounds(cx, cy) implies self@[
                #[trigger] spec_idx(cx, cy)] == (if cy == 0 && 1 <= cx < x + 1 {
                    Cell::Empty
                } else {
                    old(self)@[spec_idx(cx, cy)]
                }) by {
                    lemma_idx(cx, cy);
                    if spec_idx(cx, cy) != spec_idx(x as int, 0) {
                        assert(self@[spec_idx(cx, cy)] == prev[spec_idx(cx, cy)]);
                    }
                };
            }
            x = x + 1;
        }
    }

    /// Collapse every row in `rows`, in list order: rows above each cleared
    /// row drop by one and a fresh empty row appears at the top.
    pub fn collapse_rows_down(&mut self, rows: &Vec<i32>)
        requires
            old(self).wf(),
            forall|i: int| 0 <= i < rows@.len() ==> 0 <= #[trigger] rows@[i] <= 16,
        ensures
            final(self).wf(),
            final(self)@ == spec_collapse_all(old(self)@, rows_int(rows@)),
    {
        let ghost target = spec_collapse_all(old(self)@, rows_int(rows@));
        let n = rows.len();
        proof {
            assert(rows@.skip(0) =~= rows@);
            assert(rows_int(rows@.skip(0)) =~= rows_int(rows@));
        }
        let mut k: usize = 0;
        while k < n
            invariant
                self.wf(),
                n == rows@.len(),
                0 <= k <= n,
                forall|i: int| 0 <= i < rows@.len() ==> 0 <= #[trigger] rows@[i] <= 16,
                spec_collapse_all(self@, rows_int(rows@.skip(k as int))) == target,
            decreases n - k,
        {
            let v: i32 = rows[k];
            let ghost s = rows_int(rows@.skip(k as int));
            proof {
                assert(rows@.skip(k as int)[0] == rows@[k as int]);
                assert(s.len() > 0);
                assert(s[0] == v as int);
                assert(s.drop_first() =~= rows_int(rows@.skip(k as int + 1)));
            }
            self.collapse_one(v);
            proof {
                assert(spec_collapse_all(self@, rows_int(rows@.skip(k as int + 1))) == target);
            }
            k = k + 1;
        }
        proof {
            assert(rows_int(rows@.skip(n as int)).len() == 0);
        }
    }
}

/// Helper: a board that pointwise matches the one-row collapse of `b` is
/// exactly `spec_collapse_one(b, v)`.
proof fn lemma_collapse_one_eq(a: Seq<Cell>, b: Seq<Cell>, v: int)
    requires
        a.len() == 216,
        b.len() == 216,
        0 <= v <= 16,
        forall|cx: int, cy: int|
            spec_in_bounds(cx, cy) ==> a[#[trigger] spec_idx(cx, cy)] == (if 1 <= cx <= 10 && 1
                <= cy <= v {
                b[spec_idx(cx, cy) - 12]
            } else if cy == 0 && 1 <= cx <= 10 {
                Cell::Empty
            } else {
                b[spec_idx(cx, cy)]
            }),
    ensures
        a == spec_collapse_one(b, v),
{
    assert forall|cx: int, cy: int| spec_in_bounds(cx, cy) implies a[#[trigger] spec_idx(cx, cy)]
        == spec_collapse_one(b, v)[spec_idx(cx, cy)] by {
        lemma_idx(cx, cy);
        if 1 <= cx <= 10 && 1 <= cy <= v {
            lemma_idx(cx, cy - 1);
            assert(spec_idx(cx, cy) - 12 == spec_idx(cx, cy - 1));
        }
    };
    lemma_pointwise_eq(a, spec_collapse_one(b, v));
}

/// Whether one of the first `k` entries of `rows` is the row `cy`.
pub open spec fn row_in_prefix(rows: Seq<i32>, k: int, cy: int) -> bool {
    exists|j: int| 0 <= j < k && rows[j] == cy
}

/// Helper for the detection law: a row is in the detected list exactly when
/// it lies in the scanned range and is full.
pub proof fn lemma_full_rows_contains(b: Seq<Cell>, start: int, end: int, row: int)
    requires
        start <= end,
    ensures
        spec_full_rows(b, start, end).contains(row) <==> (start <= row < end && spec_row_full(
            b,
            row,
        )),
    decreases end - start,
{
    if start >= end {
    } else {
        lemma_full_rows_contains(b, start, end - 1, row);
        let pre = spec_full_rows(b, start, end - 1);
        let tail: Seq<int> = if spec_row_full(b, end - 1) {
            seq![end - 1]
        } else {
            Seq::empty()
        };
        assert(spec_full_rows(b, start, end) == pre + tail);
        if (pre + tail).contains(row) {
            let i = choose|i: int| 0 <= i < (pre + tail).len() && (pre + tail)[i] == row;
            if i < pre.len() {
                assert(pre[i] == row);
                assert(pre.contains(row));
            } else {
                assert(tail[i - pre.len()] == row);
            }
        }
        if pre.contains(row) {
            let i = choose|i: int| 0 <= i < pre.len() && pre[i] == row;
            assert((pre + tail)[i] == row);
        }
        if start <= row < end && spec_row_full(b, row) && row == end - 1 {
            assert((pre + tail)[pre.len() as int] == row);
        }
    }
}

/// Helper: the detected list never holds more rows than the scanned range.
pub proof fn lemma_full_rows_len(b: Seq<Cell>, start: int, end: int)
    requires
        start <= end,
    ensures
        spec_full_rows(b, start, end).len() <= end - start,
    decreases end - start,
{
    if start < end {
        lemma_full_rows_len(b, start, end - 1);
    }
}

/// Law: full-row detection reports exactly the full rows.  A row whose
/// interior cells are all `Locked` appears in the detected list, and turning
/// any single interior cell of it `Empty` removes it from the list.
pub proof fn lemma_detect_full_row(b: Seq<Cell>, start: int, end: int, row: int, cx: int)
    requires
        b.len() == 216,
        0 <= start <= end <= 17,
        start <= row < end,
        spec_row_full(b, row),
        1 <= cx <= 10,
    ensures
        spec_full_rows(b, start, end).contains(row),
        !spec_full_rows(b.update(spec_idx(cx, row), Cell::Empty), start, end).contains(row),
{
    lemma_full_rows_contains(b, start, end, row);
    lemma_idx(cx, row);
    let b2 = b.update(spec_idx(cx, row), Cell::Empty);
    assert(b2[spec_idx(cx, row)] == Cell::Empty);
    assert(!spec_row_full(b2, row));
    lemma_full_rows_contains(b2, start, end, row);
}

/// Whether some occupied local cell scanned before (px, py), in column-major
/// scan order, puts the piece at the absolute position (cx, cy).
pub open spec fn covered_prefix(
    s: int,
    r: int,
    x: int,
    y: int,
    cx: int,
    cy: int,
    px: int,
    py: int,
) -> bool {
    exists|a: int, b: int|
        0 <= a < 4 && 0 <= b < 4 && (a < px || (a == px && b < py)) && #[trigger] spec_occupied(
            s,
            r,
            a,
            b,
        ) && cx == x + a && cy == y + b
}

} // verus!
