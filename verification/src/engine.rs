//! The game engine: active piece state, board, score, difficulty and the
//! game-over flag, advanced one discrete tick at a time.
//!
//! One tick applies the player intents, then gravity; when the piece can no
//! longer descend it is locked, full rows are detected and cleared, score
//! and difficulty are updated and a new piece spawns.  Cleared rows stay
//! pending until they are collapsed, so a presentation layer can pause on
//! them before the collapse.

use vstd::prelude::*;
use rand::Rng;
use crate::board::Board;
use crate::board::Cell;
use crate::board::board_wf;
use crate::board::lemma_full_rows_len;
use crate::board::lemma_idx;
use crate::board::lemma_pointwise_eq;
use crate::board::rows_int;
use crate::board::spec_clear;
use crate::board::spec_collapse_all;
use crate::board::spec_covers;
use crate::board::spec_full_rows;
use crate::board::spec_idx;
use crate::board::spec_in_bounds;
use crate::board::spec_interior;
use crate::board::spec_is_border_pos;
use crate::board::spec_lock;
use crate::collision::does_piece_fit;
use crate::collision::lemma_fits_interior;
use crate::collision::spec_fits;
use crate::shapes::lemma_mask_nonempty;
use crate::shapes::occupancy;
use crate::shapes::spec_occupied;

verus! {

/// Cap on the number of lock events the engine counts.  It is far beyond
/// any real play session and keeps the score arithmetic inside `u64`.
pub const MAX_PIECE_COUNT: u64 = 0x1000_0000_0000;

#[verifier::external_type_specification]
#[verifier::external_body]
pub struct ExThreadRng(rand::rngs::ThreadRng);

/// Relies on rand::thread_rng: a handle to the thread-local random number
/// generator.  Nothing is assumed of the handle.
#[verifier::external_body]
fn fresh_rng() -> rand::rngs::ThreadRng {
    rand::thread_rng()
}

/// Relies on rand::Rng::gen_range over the half-open range 0..n: it returns
/// a uniformly distributed value of that range and panics only when the
/// range is empty, which `n > 0` excludes.
#[verifier::external_body]
fn gen_below(rng: &mut rand::rngs::ThreadRng, n: u8) -> (r: u8)
    requires
        n > 0,
    ensures
        r < n,
{
    rng.gen_range(0..n)
}

/// The mathematical image of the whole engine state.
#[verifier::ext_equal]
pub ghost struct GameState {
    pub board: Seq<Cell>,
    pub piece: int,
    pub rotation: int,
    pub x: int,
    pub y: int,
    pub speed: int,
    pub speed_count: int,
    pub piece_count: int,
    pub score: int,
    pub pending: Seq<int>,
    pub game_over: bool,
}

/// Whether every occupied cell of the active piece lies on an interior
/// board position.
pub open spec fn spec_piece_interior(s: GameState) -> bool {
    forall|px: int, py: int|
        0 <= px < 4 && 0 <= py < 4 && #[trigger] spec_occupied(s.piece, s.rotation, px, py)
            ==> spec_interior(s.x + px, s.y + py)
}

/// Well-formedness of an engine state.
pub open spec fn st_wf(s: GameState) -> bool {
    &&& board_wf(s.board)
    &&& 0 <= s.piece < 7
    &&& 0 <= s.rotation < 4
    &&& spec_piece_interior(s)
    &&& 0 <= s.y
    &&& 10 <= s.speed <= 20
    &&& 0 <= s.speed_count < s.speed
    &&& 0 <= s.piece_count
    &&& 0 <= s.score <= 1650 * s.piece_count
    &&& forall|i: int| 0 <= i < s.pending.len() ==> 0 <= #[trigger] s.pending[i] <= 16
}

/// One horizontal step: applied only when the piece fits at the new origin.
pub open spec fn st_move(s: GameState, dx: int) -> GameState {
    if spec_fits(s.board, s.piece, s.rotation, s.x + dx, s.y) {
        GameState { x: s.x + dx, ..s }
    } else {
        s
    }
}

/// One soft-drop step: applied only when the piece fits one row lower.
pub open spec fn st_down(s: GameState) -> GameState {
    if spec_fits(s.board, s.piece, s.rotation, s.x, s.y + 1) {
        GameState { y: s.y + 1, ..s }
    } else {
        s
    }
}

/// One clockwise rotation: applied only when the rotated piece fits.
pub open spec fn st_rot(s: GameState) -> GameState {
    if spec_fits(s.board, s.piece, s.rotation + 1, s.x, s.y) {
        GameState { rotation: (s.rotation + 1) % 4, ..s }
    } else {
        s
    }
}

/// The intent phase: right, left, soft drop, then rotate, each attempted
/// once and applied only if the result fits.
pub open spec fn st_intents(
    s: GameState,
    move_right: bool,
    move_left: bool,
    soft_drop: bool,
    rotate_cw: bool,
) -> GameState {
    let s1 = if move_right {
        st_move(s, 1)
    } else {
        s
    };
    let s2 = if move_left {
        st_move(s1, -1)
    } else {
        s1
    };
    let s3 = if soft_drop {
        st_down(s2)
    } else {
        s2
    };
    if rotate_cw {
        st_rot(s3)
    } else {
        s3
    }
}

/// Two to the power `n`.
pub open spec fn spec_pow2(n: int) -> int
    decreases n,
{
    if n <= 0 {
        1
    } else {
        2 * spec_pow2(n - 1)
    }
}

/// The line-clear bonus: nothing for zero rows, otherwise 2^rows x 100.
pub open spec fn spec_line_bonus(n: int) -> int {
    if n <= 0 {
        0
    } else {
        spec_pow2(n) * 100
    }
}

/// The lock event: the piece is written into the board, full rows in its
/// bounding rows are detected and cleared (they stay pending for the next
/// collapse), score and difficulty are updated, and a new piece spawns at
/// the fixed origin; if it does not fit the game is over.
pub open spec fn st_lock(s: GameState, ns: int) -> GameState {
    let locked = spec_lock(s.board, s.piece, s.rotation, s.x, s.y);
    let end = if s.y + 4 < 17 {
        s.y + 4
    } else {
        17
    };
    let rows = spec_full_rows(locked, s.y, end);
    let cleared = spec_clear(locked, rows);
    let pc = s.piece_count + 1;
    let sp = if pc % 50 == 0 && s.speed > 10 {
        s.speed - 1
    } else {
        s.speed
    };
    GameState {
        board: cleared,
        piece: ns,
        rotation: 0,
        x: 6,
        y: 0,
        speed: sp,
        speed_count: 0,
        piece_count: pc,
        score: s.score + 25 + spec_line_bonus(rows.len() as int),
        pending: rows,
        game_over: !spec_fits(cleared, ns, 0, 6, 0),
    }
}

/// The gravity phase: the fall counter advances; when it reaches the fall
/// interval it resets and the piece descends one row, or locks if it
/// cannot.
pub open spec fn st_gravity(s: GameState, ns: int) -> GameState {
    let sc = s.speed_count + 1;
    if sc < s.speed {
        GameState { speed_count: sc, ..s }
    } else if spec_fits(s.board, s.piece, s.rotation, s.x, s.y + 1) {
        GameState { speed_count: 0, y: s.y + 1, ..s }
    } else {
        st_lock(s, ns)
    }
}

/// The collapse phase: rows cleared by the previous lock event drop the
/// rows above them by one; nothing happens when none are pending.
pub open spec fn st_collapse(s: GameState) -> GameState {
    if s.pending.len() == 0 {
        s
    } else {
        GameState { board: spec_collapse_all(s.board, s.pending), pending: Seq::empty(), ..s }
    }
}

/// One full tick: nothing after game over; otherwise pending rows collapse,
/// the intents apply, then gravity, with `ns` as the shape that spawns if a
/// lock event occurs.
pub open spec fn spec_tick(
    s: GameState,
    move_right: bool,
    move_left: bool,
    soft_drop: bool,
    rotate_cw: bool,
    ns: int,
) -> GameState {
    if s.game_over {
        s
    } else {
        st_gravity(st_intents(st_collapse(s), move_right, move_left, soft_drop, rotate_cw), ns)
    }
}

/// The render snapshot: the board overlaid with the active piece's occupied
/// cells marked `Active`.
pub open spec fn spec_snapshot(s: GameState) -> Seq<Cell> {
    Seq::new(
        s.board.len(),
        |i: int|
            if spec_covers(s.piece, s.rotation, s.x, s.y, i % 12, i / 12) {
                Cell::Active
            } else {
                s.board[i]
            },
    )
}

/// Bounds on the active piece origin that follow from well-formedness.
pub proof fn lemma_state_bounds(s: GameState)
    requires
        st_wf(s),
    ensures
        -2 <= s.x <= 10,
        0 <= s.y <= 16,
{
    lemma_mask_nonempty(s.piece, s.rotation);
    let (px, py) = choose|px: int, py: int|
        0 <= px < 4 && 0 <= py < 4 && #[trigger] spec_occupied(s.piece, s.rotation, px, py);
    assert(spec_interior(s.x + px, s.y + py));
}

/// The game engine.  Owns the board, the active piece, score, difficulty
/// counters, the pending cleared rows and the game-over flag.
pub struct Engine {
    pub board: Board,
    pub piece: u8,
    pub rotation: u8,
    pub x: i32,
    pub y: i32,
    pub speed: u32,
    pub speed_count: u32,
    pub piece_count: u64,
    pub score: u64,
    pub pending: Vec<i32>,
    pub game_over: bool,
}

impl View for Engine {
    type V = GameState;

    open spec fn view(&self) -> GameState {
        GameState {
            board: self.board@,
            piece: self.piece as int,
            rotation: self.rotation as int,
            x: self.x as int,
            y: self.y as int,
            speed: self.speed as int,
            speed_count: self.speed_count as int,
            piece_count: self.piece_count as int,
            score: self.score as int,
            pending: rows_int(self.pending@),
            game_over: self.game_over,
        }
    }
}

impl Engine {
    /// A fresh game: bordered empty board, the first piece at the spawn
    /// origin, fall interval 20, score zero.
    pub fn new() -> (e: Engine)
        ensures
            st_wf(e@),
            e@.piece == 1,
            e@.rotation == 0,
            e@.x == 6,
            e@.y == 0,
            e@.speed == 20,
            e@.speed_count == 0,
            e@.piece_count == 0,
            e@.score == 0,
            e@.pending == Seq::<int>::empty(),
            !e@.game_over,
            forall|x: int, y: int|
                spec_in_bounds(x, y) ==> e@.board[#[trigger] spec_idx(x, y)] == (
                if spec_is_border_pos(x, y) {
                    Cell::Border
                } else {
                    Cell::Empty
                }),
    {
        let board = Board::new();
        let e = Engine {
            board,
            piece: 1,
            rotation: 0,
            x: 6,
            y: 0,
            speed: 20,
            speed_count: 0,
            piece_count: 0,
            score: 0,
            pending: Vec::new(),
            game_over: false,
        };
        proof {
            assert(rows_int(e.pending@) =~= Seq::<int>::empty());
            assert forall|px: int, py: int|
                0 <= px < 4 && 0 <= py < 4 && #[trigger] spec_occupied(e@.piece, e@.rotation, px, py)
                implies spec_interior(e@.x + px, e@.y + py) by {};
        }
        e
    }

    /// Collapse the rows cleared by the last lock event: each pending row
    /// drops the rows above it by one and a fresh empty row appears at the
    /// top.  Nothing happens when no rows are pending.
    pub fn collapse_pending(&mut self)
        requires
            st_wf(old(self)@),
        ensures
            st_wf(final(self)@),
            final(self)@ == st_collapse(old(self)@),
    {
        if self.pending.len() > 0 {
            proof {
                assert forall|i: int| 0 <= i < self.pending@.len() implies 0 <= #[trigger] self
                    .pending@[i] <= 16 by {
                    assert(self@.pending[i] == self.pending@[i] as int);
                };
            }
            Board::collapse_rows_down(&mut self.board, &self.pending);
            self.pending = Vec::new();
            proof {
                assert(rows_int(self.pending@) =~= Seq::<int>::empty());
                assert(self@ =~= st_collapse(old(self)@));
            }
        } else {
            proof {
                assert(self@ =~= st_collapse(old(self)@));
            }
        }
    }

    /// The intent phase of one tick: try right, left, soft drop, rotate, in
    /// that order, applying each only where the piece fits.
    fn intents_phase(&mut self, move_right: bool, move_left: bool, soft_drop: bool, rotate_cw: bool)
        requires
            st_wf(old(self)@),
        ensures
            st_wf(final(self)@),
            final(self)@ == st_intents(old(self)@, move_right, move_left, soft_drop, rotate_cw),
    {
        proof {
            lemma_state_bounds(old(self)@);
        }
        let ghost s0 = self@;
        if move_right {
            if does_piece_fit(&self.board, self.piece, self.rotation, self.x + 1, self.y) {
                self.x = self.x + 1;
                proof {
                    lemma_fits_interior(self.board@, self@.piece, self@.rotation, self@.x, self@.y);
                }
            }
        }
        proof {
            assert(self@ =~= if move_right {
                st_move(s0, 1)
            } else {
                s0
            });
            assert(st_wf(self@));
        }
        let ghost s1 = self@;
        if move_left {
            if does_piece_fit(&self.board, self.piece, self.rotation, self.x - 1, self.y) {
                self.x = self.x - 1;
                proof {
                    lemma_fits_interior(self.board@, self@.piece, self@.rotation, self@.x, self@.y);
                }
            }
        }
        proof {
            assert(self@ =~= if move_left {
                st_move(s1, -1)
            } else {
                s1
            });
            assert(st_wf(self@));
        }
        let ghost s2 = self@;
        if soft_drop {
            if does_piece_fit(&self.board, self.piece, self.rotation, self.x, self.y + 1) {
                self.y = self.y + 1;
                proof {
                    lemma_fits_interior(self.board@, self@.piece, self@.rotation, self@.x, self@.y);
                }
            }
        }
        proof {
            assert(self@ =~= if soft_drop {
                st_down(s2)
            } else {
                s2
            });
            assert(st_wf(self@));
        }
        let ghost s3 = self@;
        if rotate_cw {
            if does_piece_fit(&self.board, self.piece, self.rotation + 1, self.x, self.y) {
                proof {
                    lemma_fits_interior(
                        self.board@,
                        self@.piece,
                        self@.rotation + 1,
                        self@.x,
                        self@.y,
                    );
                }
                self.rotation = (self.rotation + 1) % 4;
            }
        }
        proof {
            if rotate_cw && spec_fits(s3.board, s3.piece, s3.rotation + 1, s3.x, s3.y) {
                assert((s3.rotation + 1) % 4 % 4 == (s3.rotation + 1) % 4);
                assert forall|px: int, py: int|
                    0 <= px < 4 && 0 <= py < 4 && #[trigger] spec_occupied(
                        self@.piece,
                        self@.rotation,
                        px,
                        py,
                    ) implies spec_interior(self@.x + px, self@.y + py) by {
                    assert(spec_occupied(s3.piece, s3.rotation + 1, px, py));
                };
            }
            assert(self@ =~= if rotate_cw {
                st_rot(s3)
            } else {
                s3
            });
            assert(st_wf(self@));
        }
    }

    /// The lock event: write the piece into the board, detect and clear
    /// full rows among its bounding rows, award score, update difficulty,
    /// spawn the next piece and decide game over.
    fn lock_respawn(&mut self, next_shape: u8)
        requires
            st_wf(old(self)@),
            old(self)@.piece_count < MAX_PIECE_COUNT as int,
            next_shape < 7,
            old(self)@.speed_count == 0,
        ensures
            st_wf(final(self)@),
            final(self)@ == st_lock(old(self)@, next_shape as int),
    {
        proof {
            lemma_state_bounds(old(self)@);
        }
        let ghost s = old(self)@;
        Board::lock_piece(&mut self.board, self.piece, self.rotation, self.x, self.y);
        let end: i32 = if self.y + 4 < 17 {
            self.y + 4
        } else {
            17
        };
        let rows = Board::detect_full_rows(&self.board, self.y, end);
        proof {
            lemma_full_rows_len(self.board@, self@.y, end as int);
        }
        Board::clear_rows(&mut self.board, &rows);
        self.piece_count = self.piece_count + 1;
        if self.piece_count % 50 == 0 && self.speed > 10 {
            self.speed = self.speed - 1;
        }
        let k = rows.len();
        let bonus: u64 = if k == 0 {
            0
        } else if k == 1 {
            200
        } else if k == 2 {
            400
        } else if k == 3 {
            800
        } else {
            1600
        };
        proof {
            reveal_with_fuel(spec_pow2, 5);
            assert(bonus as int == spec_line_bonus(k as int));
            assert(self@.score + 25 + bonus <= 1650 * (s.piece_count + 1)) by {
                assert(self@.score <= 1650 * s.piece_count);
            };
        }
        self.score = self.score + 25 + bonus;
        self.pending = rows;
        self.piece = next_shape;
        self.rotation = 0;
        self.x = 6;
        self.y = 0;
        self.game_over = !does_piece_fit(&self.board, next_shape, 0, 6, 0);
        proof {
            assert forall|px: int, py: int|
                0 <= px < 4 && 0 <= py < 4 && #[trigger] spec_occupied(self@.piece, 0, px, py)
                implies spec_interior(self@.x + px, self@.y + py) by {};
            assert(self@ =~= st_lock(s, next_shape as int));
            assert(st_wf(self@));
        }
    }

    /// The gravity phase of one tick: advance the fall counter; at the fall
    /// interval, descend one row or lock.
    fn gravity_phase(&mut self, next_shape: u8)
        requires
            st_wf(old(self)@),
            old(self)@.piece_count < MAX_PIECE_COUNT as int,
            next_shape < 7,
        ensures
            st_wf(final(self)@),
            final(self)@ == st_gravity(old(self)@, next_shape as int),
    {
        proof {
            lemma_state_bounds(old(self)@);
        }
        let ghost s = old(self)@;
        self.speed_count = self.speed_count + 1;
        if self.speed_count >= self.speed {
            self.speed_count = 0;
            if does_piece_fit(&self.board, self.piece, self.rotation, self.x, self.y + 1) {
                self.y = self.y + 1;
                proof {
                    lemma_fits_interior(self.board@, self@.piece, self@.rotation, self@.x, self@.y);
                    assert(self@ =~= st_gravity(s, next_shape as int));
                    assert(st_wf(self@));
                }
            } else {
                proof {
                    assert(st_wf(self@));
                }
                self.lock_respawn(next_shape);
                proof {
                    assert(self@ =~= st_gravity(s, next_shape as int));
                }
            }
        } else {
            proof {
                assert(self@ =~= st_gravity(s, next_shape as int));
                assert(st_wf(self@));
            }
        }
    }

    /// One tick with the next spawn shape supplied by the caller: nothing
    /// after game over; otherwise pending rows collapse, the intents apply,
    /// then gravity, locking and spawning `next_shape` if the piece cannot
    /// descend.
    pub fn tick_with_next(
        &mut self,
        move_right: bool,
        move_left: bool,
        soft_drop: bool,
        rotate_cw: bool,
        next_shape: u8,
    )
        requires
            st_wf(old(self)@),
            old(self)@.piece_count < MAX_PIECE_COUNT as int,
            next_shape < 7,
        ensures
            st_wf(final(self)@),
            final(self)@ == spec_tick(
                old(self)@,
                move_right,
                move_left,
                soft_drop,
                rotate_cw,
                next_shape as int,
            ),
            old(self)@.game_over ==> final(self)@ == old(self)@,
    {
        if self.game_over {
            return;
        }
        self.collapse_pending();
        self.intents_phase(move_right, move_left, soft_drop, rotate_cw);
        self.gravity_phase(next_shape);
    }

    /// One tick with a uniformly random next shape.  Whatever the draw, the
    /// result is one tick for some shape index below 7, and nothing changes
    /// after game over.
    pub fn tick(&mut self, move_right: bool, move_left: bool, soft_drop: bool, rotate_cw: bool)
        requires
            st_wf(old(self)@),
            old(self)@.piece_count < MAX_PIECE_COUNT as int,
        ensures
            st_wf(final(self)@),
            exists|ns: int|
                0 <= ns < 7 && final(self)@ == #[trigger] spec_tick(
                    old(self)@,
                    move_right,
                    move_left,
                    soft_drop,
                    rotate_cw,
                    ns,
                ),
            old(self)@.game_over ==> final(self)@ == old(self)@,
    {
        let mut rng = fresh_rng();
        let ns = gen_below(&mut rng, 7);
        self.tick_with_next(move_right, move_left, soft_drop, rotate_cw, ns);
        proof {
            assert(final(self)@ == spec_tick(
                old(self)@,
                move_right,
                move_left,
                soft_drop,
                rotate_cw,
                ns as int,
            ));
        }
    }

    /// The render snapshot: a copy of the board with the active piece's
    /// occupied cells marked `Active`, for a presentation layer to draw.
    pub fn render_snapshot(&self) -> (v: Vec<Cell>)
        requires
            st_wf(self@),
        ensures
            v@ == spec_snapshot(self@),
    {
        proof {
            lemma_state_bounds(self@);
        }
        let mut v: Vec<Cell> = Vec::new();
        let mut cy: i32 = 0;
        while cy < 18
            invariant
                st_wf(self@),
                -2 <= self@.x <= 10,
                0 <= self@.y <= 16,
                0 <= cy <= 18,
                v@.len() == 12 * cy,
                forall|xx: int, yy: int|
                    0 <= xx < 12 && 0 <= yy < cy ==> v@[#[trigger] spec_idx(xx, yy)] == (
                    if spec_covers(self@.piece, self@.rotation, self@.x, self@.y, xx, yy) {
                        Cell::Active
                    } else {
                        self@.board[spec_idx(xx, yy)]
                    }),
            decreases 18 - cy,
        {
            let mut cx: i32 = 0;
            while cx < 12
                invariant
                    st_wf(self@),
                    -2 <= self@.x <= 10,
                    0 <= self@.y <= 16,
                    0 <= cy < 18,
                    0 <= cx <= 12,
                    v@.len() == 12 * cy + cx,
                    forall|xx: int, yy: int|
                        0 <= xx < 12 && 0 <= yy < cy ==> v@[#[trigger] spec_idx(xx, yy)] == (
                        if spec_covers(self@.piece, self@.rotation, self@.x, self@.y, xx, yy) {
                            Cell::Active
                        } else {
                            self@.board[spec_idx(xx, yy)]
                        }),
                    forall|xx: int|
                        0 <= xx < cx ==> v@[#[trigger] spec_idx(xx, cy as int)] == (
                        if spec_covers(self@.piece, self@.rotation, self@.x, self@.y, xx, cy as int) {
                            Cell::Active
                        } else {
                            self@.board[spec_idx(xx, cy as int)]
                        }),
                decreases 12 - cx,
            {
                let dx = cx - self.x;
                let dy = cy - self.y;
                let c: Cell = if 0 <= dx && dx < 4 && 0 <= dy && dy < 4 && occupancy(
                    self.piece,
                    self.rotation,
                    dx as u8,
                    dy as u8,
                ) {
                    Cell::Active
                } else {
                    self.board.get(cx, cy)
                };
                v.push(c);
                cx = cx + 1;
            }
            cy = cy + 1;
        }
        proof {
            assert forall|cx: int, cy: int| spec_in_bounds(cx, cy) implies v@[#[trigger] spec_idx(
                cx,
                cy,
            )] == spec_snapshot(self@)[spec_idx(cx, cy)] by {
                lemma_idx(cx, cy);
            };
            lemma_pointwise_eq(v@, spec_snapshot(self@));
        }
        v
    }
}

/// Law: one lock event awards a flat 25 points plus the line bonus for the
/// rows it cleared: nothing for zero rows, 200 for one, 400 for two, 800
/// for three, 1600 for four.
pub proof fn lemma_lock_scoring(s: GameState, ns: int)
    requires
        st_wf(s),
    ensures
        ({
            let locked = spec_lock(s.board, s.piece, s.rotation, s.x, s.y);
            let end = if s.y + 4 < 17 {
                s.y + 4
            } else {
                17
            };
            let k = spec_full_rows(locked, s.y, end).len() as int;
            &&& st_lock(s, ns).score == s.score + 25 + spec_line_bonus(k)
            &&& spec_line_bonus(0) == 0
            &&& spec_line_bonus(1) == 200
            &&& spec_line_bonus(2) == 400
            &&& spec_line_bonus(3) == 800
            &&& spec_line_bonus(4) == 1600
        }),
{
    reveal_with_fuel(spec_pow2, 5);
}

/// Helper: a fit test ignores whole turns of the rotation index.
proof fn lemma_fit_mod_rotation(b: Seq<Cell>, s: int, r: int, x: int, y: int)
    ensures
        spec_fits(b, s, r, x, y) == spec_fits(b, s, r % 4, x, y),
{
    assert forall|px: int, py: int|
        #[trigger] spec_occupied(s, r, px, py) == spec_occupied(s, r % 4, px, py) by {
        assert(r % 4 % 4 == r % 4);
    };
    if spec_fits(b, s, r, x, y) {
        assert forall|px: int, py: int|
            0 <= px < 4 && 0 <= py < 4 && #[trigger] spec_occupied(s, r % 4, px, py) implies
            spec_in_bounds(x + px, y + py) && b[spec_idx(x + px, y + py)] == Cell::Empty by {
            assert(spec_occupied(s, r, px, py));
        };
    }
    if spec_fits(b, s, r % 4, x, y) {
        assert forall|px: int, py: int|
            0 <= px < 4 && 0 <= py < 4 && #[trigger] spec_occupied(s, r, px, py) implies
            spec_in_bounds(x + px, y + py) && b[spec_idx(x + px, y + py)] == Cell::Empty by {
            assert(spec_occupied(s, r % 4, px, py));
        };
    }
}

/// Law: the intent phase keeps a fitting piece fitting — every applied
/// move or rotation is itself gated on a fit test.
pub proof fn lemma_intents_keep_fit(
    s: GameState,
    move_right: bool,
    move_left: bool,
    soft_drop: bool,
    rotate_cw: bool,
)
    requires
        spec_fits(s.board, s.piece, s.rotation, s.x, s.y),
    ensures
        ({
            let t = st_intents(s, move_right, move_left, soft_drop, rotate_cw);
            spec_fits(t.board, t.piece, t.rotation, t.x, t.y)
        }),
{
    let s1 = if move_right {
        st_move(s, 1)
    } else {
        s
    };
    let s2 = if move_left {
        st_move(s1, -1)
    } else {
        s1
    };
    let s3 = if soft_drop {
        st_down(s2)
    } else {
        s2
    };
    assert(spec_fits(s1.board, s1.piece, s1.rotation, s1.x, s1.y));
    assert(spec_fits(s2.board, s2.piece, s2.rotation, s2.x, s2.y));
    assert(spec_fits(s3.board, s3.piece, s3.rotation, s3.x, s3.y));
    if rotate_cw && spec_fits(s3.board, s3.piece, s3.rotation + 1, s3.x, s3.y) {
        lemma_fit_mod_rotation(s3.board, s3.piece, s3.rotation + 1, s3.x, s3.y);
    }
}

/// Law: the gravity phase leaves the piece fitting or the game over — a
/// descent is gated on a fit test, and a lock spawns the next piece with a
/// fit test that decides game over.
pub proof fn lemma_gravity_keeps_fit_or_over(s: GameState, ns: int)
    requires
        spec_fits(s.board, s.piece, s.rotation, s.x, s.y),
    ensures
        ({
            let t = st_gravity(s, ns);
            spec_fits(t.board, t.piece, t.rotation, t.x, t.y) || t.game_over
        }),
{
}

/// Law: while no cleared rows are pending, one tick preserves the active
/// piece's validity: between ticks the piece fits on the board, or the
/// game is already over.  (A pending collapse can shift locked terrain
/// into a freshly spawned piece, so the collapse phase is excluded here.)
pub proof fn lemma_tick_keeps_piece_valid(
    s: GameState,
    move_right: bool,
    move_left: bool,
    soft_drop: bool,
    rotate_cw: bool,
    ns: int,
)
    requires
        s.pending.len() == 0,
        spec_fits(s.board, s.piece, s.rotation, s.x, s.y) || s.game_over,
    ensures
        ({
            let t = spec_tick(s, move_right, move_left, soft_drop, rotate_cw, ns);
            spec_fits(t.board, t.piece, t.rotation, t.x, t.y) || t.game_over
        }),
{
    if !s.game_over {
        assert(st_collapse(s) == s);
        lemma_intents_keep_fit(s, move_right, move_left, soft_drop, rotate_cw);
        lemma_gravity_keeps_fit_or_over(
            st_intents(s, move_right, move_left, soft_drop, rotate_cw),
            ns,
        );
    }
}

/// Law: each lock event counts one piece; at every fiftieth locked piece
/// the fall interval decreases by one, and it never drops below 10.
pub proof fn lemma_lock_difficulty(s: GameState, ns: int)
    requires
        st_wf(s),
    ensures
        st_lock(s, ns).piece_count == s.piece_count + 1,
        (s.piece_count + 1) % 50 == 0 && s.speed > 10 ==> st_lock(s, ns).speed == s.speed - 1,
        !((s.piece_count + 1) % 50 == 0 && s.speed > 10) ==> st_lock(s, ns).speed == s.speed,
        st_lock(s, ns).speed >= 10,
{
}

} // verus!
