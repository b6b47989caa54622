use tetris_engine::shapes::occupancy;
use tetris_engine::shapes::rotate;

#[test]
fn rotate_identity_state() {
    // rotation state 0 is plain row-major indexing
    for px in 0..4 {
        for py in 0..4 {
            assert_eq!(rotate(px, py, 0), Ok(py * 4 + px));
        }
    }
}

#[test]
fn rotate_quarter_turn_formulas() {
    assert_eq!(rotate(1, 2, 1), Ok(10));
    assert_eq!(rotate(1, 2, 2), Ok(6));
    assert_eq!(rotate(1, 2, 3), Ok(5));
    assert_eq!(rotate(3, 0, 1), Ok(0));
    assert_eq!(rotate(0, 3, 2), Ok(3));
    assert_eq!(rotate(3, 3, 3), Ok(12));
}

#[test]
fn rotate_period_four() {
    // four more quarter-turns always come back to the same lookup
    for px in 0..4 {
        for py in 0..4 {
            for r in 0..8 {
                assert_eq!(rotate(px, py, r + 4), rotate(px, py, r));
            }
        }
    }
}

#[test]
fn occupancy_period_four() {
    for s in 0..7 {
        for r in 0..4 {
            for px in 0..4 {
                for py in 0..4 {
                    assert_eq!(occupancy(s, r + 4, px, py), occupancy(s, r, px, py));
                }
            }
        }
    }
}

#[test]
fn occupancy_vertical_bar_shape() {
    // shape 0, rotation 0: a vertical bar in local column 2
    for py in 0..4 {
        for px in 0..4 {
            assert_eq!(occupancy(0, 0, px, py), px == 2);
        }
    }
}

#[test]
fn occupancy_vertical_bar_rotated() {
    // shape 0, rotation 1: a horizontal bar in local row 2
    for py in 0..4 {
        for px in 0..4 {
            assert_eq!(occupancy(0, 1, px, py), py == 2);
        }
    }
}

#[test]
fn occupancy_square_shape_all_rotations() {
    // shapes 2 and 3 are the square: rotation never changes them
    for s in 2..4 {
        for r in 0..4 {
            for px in 0..4 {
                for py in 0..4 {
                    let expect = (px == 1 || px == 2) && (py == 1 || py == 2);
                    assert_eq!(occupancy(s, r, px, py), expect);
                }
            }
        }
    }
}

#[test]
fn occupancy_each_shape_has_four_cells() {
    for s in 0..7 {
        for r in 0..4 {
            let mut count = 0;
            for px in 0..4 {
                for py in 0..4 {
                    if occupancy(s, r, px, py) {
                        count += 1;
                    }
                }
            }
            assert_eq!(count, 4);
        }
    }
}
