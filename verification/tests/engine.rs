use tetris_engine::board::Cell;
use tetris_engine::collision::does_piece_fit;
use tetris_engine::engine::Engine;

/// Tick with a soft-drop intent until a piece locks, handing `next` to the
/// spawner; panics if no lock happens within a reasonable number of ticks.
fn drop_until_lock(e: &mut Engine, next: u8) {
    let before = e.piece_count;
    for _ in 0..1000 {
        e.tick_with_next(false, false, true, false, next);
        if e.piece_count > before || e.game_over {
            return;
        }
    }
    panic!("piece never locked");
}

#[test]
fn new_engine_initial_state() {
    let e = Engine::new();
    assert_eq!(e.piece, 1);
    assert_eq!(e.rotation, 0);
    assert_eq!(e.x, 6);
    assert_eq!(e.y, 0);
    assert_eq!(e.speed, 20);
    assert_eq!(e.speed_count, 0);
    assert_eq!(e.piece_count, 0);
    assert_eq!(e.score, 0);
    assert!(e.pending.is_empty());
    assert!(!e.game_over);
}

#[test]
fn soft_drop_locks_piece_at_translated_mask() {
    // the first piece (shape 1, rotation 0) falls from (6, 0) under soft
    // drop and locks with its mask translated to (6, 14)
    let mut e = Engine::new();
    drop_until_lock(&mut e, 0);
    assert_eq!(e.piece_count, 1);
    assert_eq!(e.board.get(8, 14), Cell::Locked);
    assert_eq!(e.board.get(7, 15), Cell::Locked);
    assert_eq!(e.board.get(8, 15), Cell::Locked);
    assert_eq!(e.board.get(8, 16), Cell::Locked);
    // no other interior cell was locked
    let mut locked = 0;
    for x in 1..11 {
        for y in 0..17 {
            if e.board.get(x, y) == Cell::Locked {
                locked += 1;
            }
        }
    }
    assert_eq!(locked, 4);
    // a lock with no cleared rows awards exactly 25 points
    assert_eq!(e.score, 25);
    assert!(e.pending.is_empty());
}

#[test]
fn single_line_clear_scores_225_and_collapses() {
    let mut e = Engine::new();
    // fill row 16 except the column the vertical bar will fill, and put a
    // marker above it to watch the collapse
    for x in 1..11 {
        if x != 8 {
            e.board.set(x, 16, Cell::Locked);
        }
    }
    e.board.set(5, 15, Cell::Locked);
    e.piece = 0;
    drop_until_lock(&mut e, 1);
    // the bar locked in rows 13..17 of column 8 and completed row 16
    assert_eq!(e.pending, vec![16]);
    assert_eq!(e.score, 225);
    // row 16 is cleared before the collapse
    assert_eq!(e.board.get(5, 16), Cell::Empty);
    assert_eq!(e.board.get(8, 15), Cell::Locked);
    e.collapse_pending();
    assert!(e.pending.is_empty());
    // the marker row dropped by one
    assert_eq!(e.board.get(5, 16), Cell::Locked);
    assert_eq!(e.board.get(5, 15), Cell::Empty);
    // the bar's remaining cells dropped by one as well
    assert_eq!(e.board.get(8, 16), Cell::Locked);
    assert_eq!(e.board.get(8, 15), Cell::Locked);
    assert_eq!(e.board.get(8, 14), Cell::Locked);
    assert_eq!(e.board.get(8, 13), Cell::Empty);
}

#[test]
fn double_line_clear_scores_425() {
    let mut e = Engine::new();
    for x in 1..11 {
        if x != 8 {
            e.board.set(x, 15, Cell::Locked);
            e.board.set(x, 16, Cell::Locked);
        }
    }
    e.piece = 0;
    drop_until_lock(&mut e, 1);
    assert_eq!(e.score, 425);
    assert_eq!(e.pending, vec![15, 16]);
}

#[test]
fn quadruple_line_clear_scores_1625() {
    let mut e = Engine::new();
    for x in 1..11 {
        if x != 8 {
            for y in 13..17 {
                e.board.set(x, y, Cell::Locked);
            }
        }
    }
    e.piece = 0;
    drop_until_lock(&mut e, 1);
    assert_eq!(e.score, 1625);
    assert_eq!(e.pending, vec![13, 14, 15, 16]);
}

#[test]
fn fiftieth_lock_decreases_fall_interval() {
    let mut e = Engine::new();
    e.piece_count = 49;
    e.speed_count = 19;
    e.y = 14;
    e.tick_with_next(false, false, false, false, 2);
    assert_eq!(e.piece_count, 50);
    assert_eq!(e.speed, 19);
}

#[test]
fn fall_interval_never_drops_below_ten() {
    let mut e = Engine::new();
    e.speed = 10;
    e.piece_count = 49;
    e.speed_count = 9;
    e.y = 14;
    e.tick_with_next(false, false, false, false, 2);
    assert_eq!(e.piece_count, 50);
    assert_eq!(e.speed, 10);
    // and a further fifty locks still stay at the floor
    e.piece_count = 99;
    e.speed_count = 9;
    e.y = 14;
    e.tick_with_next(false, false, false, false, 2);
    assert_eq!(e.speed, 10);
}

#[test]
fn blocked_spawn_sets_game_over_and_freezes() {
    let mut e = Engine::new();
    // wall off the spawn region, then force the current piece to lock
    for x in 6..10 {
        for y in 0..4 {
            e.board.set(x, y, Cell::Locked);
        }
    }
    e.y = 14;
    e.speed_count = 19;
    e.tick_with_next(false, false, false, false, 0);
    assert!(e.game_over);
    let score = e.score;
    let piece_count = e.piece_count;
    let speed = e.speed;
    let speed_count = e.speed_count;
    let x = e.x;
    let y = e.y;
    let piece = e.piece;
    // further ticks mutate nothing
    for _ in 0..5 {
        e.tick_with_next(true, true, true, true, 3);
        e.tick(true, true, true, true);
    }
    assert!(e.game_over);
    assert_eq!(e.score, score);
    assert_eq!(e.piece_count, piece_count);
    assert_eq!(e.speed, speed);
    assert_eq!(e.speed_count, speed_count);
    assert_eq!(e.x, x);
    assert_eq!(e.y, y);
    assert_eq!(e.piece, piece);
    assert_eq!(e.board.get(6, 0), Cell::Locked);
    assert_eq!(e.board.get(8, 14), Cell::Locked);
}

#[test]
fn intents_apply_only_when_fitting() {
    let mut e = Engine::new();
    e.tick_with_next(true, false, false, false, 0);
    assert_eq!(e.x, 7);
    e.tick_with_next(false, true, false, false, 0);
    assert_eq!(e.x, 6);
    e.tick_with_next(false, false, false, true, 0);
    assert_eq!(e.rotation, 1);
    // push against the right wall: movement stops at the border
    for _ in 0..20 {
        let x_before = e.x;
        e.tick_with_next(true, false, false, false, 0);
        assert!(e.x == x_before || e.x == x_before + 1);
    }
    assert!(e.x <= 10);
}

#[test]
fn random_spawns_stay_in_shape_range() {
    // drives many random lock events through the drawing wrapper; every
    // spawned shape index must lie below 7
    let mut e = Engine::new();
    for _ in 0..400 {
        if e.game_over {
            break;
        }
        e.speed_count = e.speed - 1;
        e.tick(false, false, true, false);
        assert!(e.piece < 7);
    }
}

#[test]
fn piece_always_fits_or_game_over() {
    // between ticks the active piece fits on the board or the game is over
    let mut e = Engine::new();
    for i in 0..600 {
        if e.game_over {
            break;
        }
        e.tick_with_next(i % 3 == 0, i % 5 == 0, true, i % 7 == 0, (i % 7) as u8);
        assert!(does_piece_fit(&e.board, e.piece, e.rotation, e.x, e.y) || e.game_over);
    }
}

#[test]
fn snapshot_overlays_active_piece() {
    let e = Engine::new();
    let v = e.render_snapshot();
    assert_eq!(v.len(), 216);
    // shape 1 at (6, 0): occupied cells (8,0), (7,1), (8,1), (8,2)
    assert_eq!(v[8], Cell::Active);
    assert_eq!(v[12 + 7], Cell::Active);
    assert_eq!(v[12 + 8], Cell::Active);
    assert_eq!(v[2 * 12 + 8], Cell::Active);
    // borders and empty interior show through everywhere else
    assert_eq!(v[0], Cell::Border);
    assert_eq!(v[11], Cell::Border);
    assert_eq!(v[17 * 12 + 5], Cell::Border);
    assert_eq!(v[5 * 12 + 5], Cell::Empty);
    let mut active = 0;
    for i in 0..216 {
        if v[i] == Cell::Active {
            active += 1;
        }
    }
    assert_eq!(active, 4);
}
