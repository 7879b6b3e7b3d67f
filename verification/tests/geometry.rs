use merge_puzzle::grid::{Direction, Position};

#[test]
fn from_displacement_examples() {
    assert_eq!(Direction::from_displacement(5, 1), Direction::Right);
    assert_eq!(Direction::from_displacement(1, 5), Direction::Down);
    assert_eq!(Direction::from_displacement(-5, 1), Direction::Left);
    assert_eq!(Direction::from_displacement(1, -5), Direction::Up);
}

#[test]
fn from_displacement_ties_fall_vertical() {
    assert_eq!(Direction::from_displacement(0, 0), Direction::Up);
    assert_eq!(Direction::from_displacement(3, 3), Direction::Down);
    assert_eq!(Direction::from_displacement(3, -3), Direction::Up);
    assert_eq!(Direction::from_displacement(-4, 4), Direction::Down);
}

#[test]
fn as_pair_offsets() {
    assert_eq!(Direction::Up.as_pair(), (-1, 0));
    assert_eq!(Direction::Down.as_pair(), (1, 0));
    assert_eq!(Direction::Left.as_pair(), (0, -1));
    assert_eq!(Direction::Right.as_pair(), (0, 1));
}

#[test]
fn traversal_down_visits_row_3_first() {
    let t = Direction::Down.build_traversal();
    assert_eq!(t.len(), 16);
    assert_eq!(t[0], Position::new(3, 0));
    assert_eq!(t[3], Position::new(3, 3));
    assert_eq!(t[12], Position::new(0, 0));
    assert_eq!(t[15], Position::new(0, 3));
    for w in 0..12 {
        assert!(t[w].i >= t[w + 4].i);
    }
}

#[test]
fn traversal_right_visits_column_3_first() {
    let t = Direction::Right.build_traversal();
    assert_eq!(t.len(), 16);
    assert_eq!(t[0], Position::new(0, 3));
    assert_eq!(t[3], Position::new(0, 0));
    assert_eq!(t[15], Position::new(3, 0));
    for row in 0..4 {
        for col in 0..3 {
            assert!(t[row * 4 + col].j > t[row * 4 + col + 1].j);
        }
    }
}

#[test]
fn traversal_up_and_left_ascend() {
    let up = Direction::Up.build_traversal();
    let left = Direction::Left.build_traversal();
    for k in 0..16 {
        assert_eq!(up[k], Position::new(k / 4, k % 4));
        assert_eq!(left[k], Position::new(k / 4, k % 4));
    }
}

#[test]
fn position_index_round_trip() {
    for k in 0..16 {
        let p = Position::from_index(k);
        assert!(!p.is_out_of_bounds());
        assert_eq!(p.index(), k);
        assert_eq!(Position::from_index(p.index()), p);
    }
    assert_eq!(Position::new(2, 1).index(), 9);
    assert!(Position::new(4, 0).is_out_of_bounds());
    assert!(Position::new(0, 4).is_out_of_bounds());
    assert!(!Position::new(3, 3).is_out_of_bounds());
}

#[test]
fn step_stays_on_board() {
    assert_eq!(Position::new(0, 0).step(Direction::Up), None);
    assert_eq!(Position::new(0, 0).step(Direction::Left), None);
    assert_eq!(Position::new(0, 0).step(Direction::Down), Some(Position::new(1, 0)));
    assert_eq!(Position::new(0, 0).step(Direction::Right), Some(Position::new(0, 1)));
    assert_eq!(Position::new(3, 3).step(Direction::Down), None);
    assert_eq!(Position::new(3, 3).step(Direction::Right), None);
    assert_eq!(Position::new(3, 3).step(Direction::Up), Some(Position::new(2, 3)));
}
