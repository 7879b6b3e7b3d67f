use merge_puzzle::grid::{Direction, Grid, Position};
use merge_puzzle::tile::{Tile, TileState};

fn empty_cells() -> Vec<Option<Tile>> {
    let mut cells: Vec<Option<Tile>> = Vec::new();
    for _ in 0..16 {
        cells.push(None);
    }
    cells
}

fn place(cells: &mut Vec<Option<Tile>>, i: usize, j: usize, number: u64) {
    cells[i * 4 + j] = Some(Tile::new(number));
}

fn occupied(g: &Grid) -> usize {
    let mut n = 0;
    for k in 0..16 {
        if g.get(Position::from_index(k)).is_some() {
            n += 1;
        }
    }
    n
}

fn number_at(g: &Grid, i: usize, j: usize) -> Option<u64> {
    g.get(Position::new(i, j)).map(|t| t.number)
}

#[test]
fn tile_new_is_new() {
    let t = Tile::new(2);
    assert_eq!(t.number, 2);
    assert_eq!(t.state, TileState::New);
    assert!(t.previous_position.is_none());
}

#[test]
fn default_board_has_two_new_tiles() {
    let g = Grid::default();
    assert_eq!(occupied(&g), 2);
    assert!(!g.is_end());
    for k in 0..16 {
        if let Some(t) = g.get(Position::from_index(k)) {
            assert_eq!(t.state, TileState::New);
            assert!(t.number == 2 || t.number == 4);
            assert!(t.previous_position.is_none());
        }
    }
}

#[test]
fn disable_new_tiles_marks_end() {
    let mut g = Grid::default();
    assert!(!g.is_end());
    g.disable_new_tiles();
    assert!(g.is_end());
}

#[test]
fn simple_slide_left_then_spawn() {
    let mut cells = empty_cells();
    place(&mut cells, 0, 3, 2);
    let mut g = Grid::new_seeded(cells, 7);
    g.move_in(Direction::Left);
    let slid = g.get(Position::new(0, 0)).expect("tile slid to the left edge");
    assert_eq!(slid.number, 2);
    assert_eq!(slid.state, TileState::Static);
    assert_eq!(slid.previous_position, Some(Position::new(0, 3)));
    assert_eq!(occupied(&g), 2);
    let mut new_tiles = 0;
    for k in 0..16 {
        if let Some(t) = g.get(Position::from_index(k)) {
            if t.state == TileState::New {
                new_tiles += 1;
                assert_ne!(k, 0);
                assert!(t.number == 2 || t.number == 4);
                assert!(t.previous_position.is_none());
            }
        }
    }
    assert_eq!(new_tiles, 1);
}

#[test]
fn no_op_move_does_not_spawn() {
    let mut cells = empty_cells();
    place(&mut cells, 0, 0, 2);
    let mut g = Grid::new_seeded(cells, 11);
    g.move_in(Direction::Left);
    assert_eq!(occupied(&g), 1);
    let t = g.get(Position::new(0, 0)).unwrap();
    assert_eq!(t.number, 2);
    assert_eq!(t.state, TileState::Static);
    assert_eq!(t.previous_position, Some(Position::new(0, 0)));
}

#[test]
fn adjacent_pair_merges_left_and_spawns() {
    let mut cells = empty_cells();
    place(&mut cells, 0, 0, 2);
    place(&mut cells, 0, 1, 2);
    let mut g = Grid::new_seeded(cells, 3);
    g.move_in(Direction::Left);
    let merged = g.get(Position::new(0, 0)).expect("merged tile at the edge");
    assert_eq!(merged.number, 4);
    assert_eq!(merged.state, TileState::Merged);
    assert_eq!(merged.previous_position, Some(Position::new(0, 1)));
    assert_eq!(occupied(&g), 2);
}

#[test]
fn adjacent_pair_merges_right() {
    let mut cells = empty_cells();
    place(&mut cells, 1, 2, 4);
    place(&mut cells, 1, 3, 4);
    let mut g = Grid::new_seeded(cells, 3);
    g.move_in(Direction::Right);
    assert_eq!(number_at(&g, 1, 3), Some(8));
    assert_eq!(g.get(Position::new(1, 3)).unwrap().state, TileState::Merged);
    assert_eq!(occupied(&g), 2);
}

#[test]
fn adjacent_pair_merges_up() {
    let mut cells = empty_cells();
    place(&mut cells, 0, 2, 2);
    place(&mut cells, 1, 2, 2);
    let mut g = Grid::new_seeded(cells, 3);
    g.move_in(Direction::Up);
    assert_eq!(number_at(&g, 0, 2), Some(4));
    assert_eq!(occupied(&g), 2);
}

#[test]
fn adjacent_pair_merges_down() {
    let mut cells = empty_cells();
    place(&mut cells, 2, 1, 2);
    place(&mut cells, 3, 1, 2);
    let mut g = Grid::new_seeded(cells, 3);
    g.move_in(Direction::Down);
    assert_eq!(number_at(&g, 3, 1), Some(4));
    assert_eq!(occupied(&g), 2);
}

#[test]
fn three_equal_tiles_merge_once() {
    let mut cells = empty_cells();
    place(&mut cells, 0, 0, 2);
    place(&mut cells, 0, 1, 2);
    place(&mut cells, 0, 2, 2);
    let mut g = Grid::new_seeded(cells, 5);
    g.disable_new_tiles();
    g.move_in(Direction::Left);
    assert_eq!(number_at(&g, 0, 0), Some(4));
    assert_eq!(number_at(&g, 0, 1), Some(2));
    assert_eq!(number_at(&g, 0, 2), None);
    assert_eq!(number_at(&g, 0, 3), None);
    assert_eq!(g.get(Position::new(0, 0)).unwrap().state, TileState::Merged);
    assert_eq!(g.get(Position::new(0, 1)).unwrap().state, TileState::Static);
    assert_eq!(occupied(&g), 2);
}

#[test]
fn four_equal_tiles_merge_pairwise() {
    let mut cells = empty_cells();
    for j in 0..4 {
        place(&mut cells, 2, j, 2);
    }
    let mut g = Grid::new_seeded(cells, 5);
    g.disable_new_tiles();
    g.move_in(Direction::Left);
    assert_eq!(number_at(&g, 2, 0), Some(4));
    assert_eq!(number_at(&g, 2, 1), Some(4));
    assert_eq!(number_at(&g, 2, 2), None);
    assert_eq!(number_at(&g, 2, 3), None);
}

#[test]
fn merged_blocker_is_not_absorbed() {
    // [4, 2, 2, _] moving Left: the pair merges to 4 behind the blocker,
    // and the fresh 4 does not merge into the old 4 this move.
    let mut cells = empty_cells();
    place(&mut cells, 0, 0, 4);
    place(&mut cells, 0, 1, 2);
    place(&mut cells, 0, 2, 2);
    let mut g = Grid::new_seeded(cells, 5);
    g.disable_new_tiles();
    g.move_in(Direction::Left);
    assert_eq!(number_at(&g, 0, 0), Some(4));
    assert_eq!(number_at(&g, 0, 1), Some(4));
    assert_eq!(number_at(&g, 0, 2), None);
    assert_eq!(g.get(Position::new(0, 1)).unwrap().state, TileState::Merged);
}

#[test]
fn repeated_terminal_move_is_noop() {
    let mut cells = empty_cells();
    place(&mut cells, 1, 0, 2);
    place(&mut cells, 1, 1, 2);
    place(&mut cells, 2, 3, 4);
    let mut g = Grid::new_seeded(cells.clone(), 9);
    g.disable_new_tiles();
    let mut h = Grid::new_seeded(cells, 10);
    h.disable_new_tiles();
    g.move_in(Direction::Left);
    h.move_in(Direction::Left);
    assert!(g == h);
    g.move_in(Direction::Left);
    assert!(g == h);
    g.move_in(Direction::Left);
    assert!(g == h);
}

#[test]
fn disabled_spawning_never_raises_occupancy() {
    let mut g = Grid::default();
    g.disable_new_tiles();
    let at_disable = occupied(&g);
    let dirs = [Direction::Left, Direction::Down, Direction::Right, Direction::Up];
    for round in 0..40 {
        g.move_in(dirs[round % 4]);
        assert!(occupied(&g) <= at_disable);
    }
}

#[test]
fn render_without_merges_has_no_ghosts() {
    let mut cells = empty_cells();
    place(&mut cells, 0, 0, 2);
    place(&mut cells, 1, 2, 4);
    place(&mut cells, 3, 3, 8);
    let g = Grid::new_seeded(cells, 1);
    let entries = g.tiles();
    assert_eq!(entries.len(), 3);
    assert_eq!(entries[0], (Position::new(0, 0), Tile::new(2)));
    assert_eq!(entries[1].0, Position::new(1, 2));
    assert_eq!(entries[1].1.number, 4);
    assert_eq!(entries[2].0, Position::new(3, 3));
    assert_eq!(entries[2].1.number, 8);
}

#[test]
fn render_expands_merged_tile_into_ghost_pair() {
    let mut cells = empty_cells();
    place(&mut cells, 0, 0, 2);
    place(&mut cells, 0, 1, 2);
    let mut g = Grid::new_seeded(cells, 5);
    g.disable_new_tiles();
    g.move_in(Direction::Left);
    let entries = g.tiles();
    assert_eq!(occupied(&g), 1);
    assert_eq!(entries.len(), 2);
    assert_eq!(entries[0].0, Position::new(0, 0));
    assert_eq!(entries[0].1.number, 4);
    assert_eq!(entries[0].1.state, TileState::Merged);
    assert_eq!(entries[1].0, Position::new(0, 0));
    assert_eq!(entries[1].1.number, 2);
    assert_eq!(entries[1].1.state, TileState::Static);
}

#[test]
fn board_equality_ignores_metadata() {
    let mut a = empty_cells();
    place(&mut a, 0, 0, 2);
    let mut b = empty_cells();
    b[0] = Some(Tile {
        number: 2,
        state: TileState::Static,
        previous_position: Some(Position::new(0, 3)),
    });
    let g = Grid::new_seeded(a, 1);
    let h = Grid::new_seeded(b, 2);
    assert!(g == h);
    let mut c = empty_cells();
    place(&mut c, 0, 0, 4);
    let k = Grid::new_seeded(c, 1);
    assert!(g != k);
}

#[test]
fn spawn_distribution_is_about_ten_percent_fours() {
    let rounds: u64 = 100_000;
    let mut fours: u64 = 0;
    for seed in 0..rounds {
        let mut cells = empty_cells();
        place(&mut cells, 0, 1, 2);
        let mut g = Grid::new_seeded(cells, seed);
        g.move_in(Direction::Left);
        assert_eq!(occupied(&g), 2);
        let mut found = false;
        for k in 0..16 {
            if let Some(t) = g.get(Position::from_index(k)) {
                if t.state == TileState::New {
                    assert!(!found);
                    found = true;
                    // The slid tile rests on slot 0; the spawn took a cell
                    // that was empty after the slide.
                    assert_ne!(k, 0);
                    if t.number == 4 {
                        fours += 1;
                    } else {
                        assert_eq!(t.number, 2);
                    }
                }
            }
        }
        assert!(found);
    }
    let fraction = fours as f64 / rounds as f64;
    assert!(fraction > 0.08 && fraction < 0.12, "fraction of fours: {}", fraction);
}

#[test]
fn merge_headroom_guard() {
    let mut cells = empty_cells();
    place(&mut cells, 0, 0, 2);
    let g = Grid::new_seeded(cells, 1);
    assert!(g.has_merge_headroom());
    let mut big = empty_cells();
    place(&mut big, 0, 0, 1u64 << 62);
    let h = Grid::new_seeded(big, 1);
    assert!(h.has_merge_headroom());
    let mut too_big = empty_cells();
    place(&mut too_big, 0, 0, 1u64 << 63);
    let k = Grid::new_seeded(too_big, 1);
    assert!(!k.has_merge_headroom());
}

#[test]
fn equal_seeds_replay_equal_spawns() {
    let mut a = empty_cells();
    place(&mut a, 2, 3, 2);
    let b = a.clone();
    let mut g = Grid::new_seeded(a, 42);
    let mut h = Grid::new_seeded(b, 42);
    for d in [Direction::Left, Direction::Up, Direction::Right, Direction::Down] {
        g.move_in(d);
        h.move_in(d);
        assert!(g == h);
    }
}
