use hexsix::game_map::{CheckResult, GameMap, LineChecker, Tile, WIN_LEN};
use hexsix::game_threats::GameThreats;

#[test]
fn board_reads_back_writes() {
    let mut m = GameMap::new();
    assert!(m.get_tile(0, 0) == Tile::Empty);
    m.set_tile(5, -3, Tile::X);
    m.set_tile(-100, 77, Tile::O);
    m.set_tile(1 << 20, 7, Tile::X);
    assert!(m.get_tile(5, -3) == Tile::X);
    assert!(m.get_tile(-100, 77) == Tile::O);
    assert!(m.get_tile(1 << 20, 7) == Tile::X);
    assert!(m.get_tile(5, -2) == Tile::Empty);
    m.set_tile(5, -3, Tile::Empty);
    assert!(m.get_tile(5, -3) == Tile::Empty);
    assert!(m.get_tile(-100, 77) == Tile::O);
}

#[test]
fn board_neighbouring_tiles_are_independent() {
    let mut m = GameMap::new();
    for x in 0..4 {
        m.set_tile(x, 0, Tile::X);
    }
    for x in 0..4 {
        assert!(m.get_tile(x, 0) == Tile::X);
    }
}

#[test]
fn board_tile_symbols() {
    assert_eq!(Tile::Empty.to_char(), ' ');
    assert_eq!(Tile::X.to_char(), 'X');
    assert_eq!(Tile::O.to_char(), 'O');
}

#[test]
fn line_counts_are_always_accepted() {
    let mut g = GameThreats::new();
    let line: [Tile; WIN_LEN] = [Tile::X, Tile::X, Tile::Empty, Tile::Empty, Tile::Empty, Tile::Empty];
    let r: CheckResult = g.on_line(&line);
    assert_eq!(r, Ok(()));
    let mixed: [Tile; WIN_LEN] = [Tile::X, Tile::O, Tile::Empty, Tile::Empty, Tile::Empty, Tile::Empty];
    assert_eq!(g.on_line(&mixed), Ok(()));
    let full: [Tile; WIN_LEN] = [Tile::O; WIN_LEN];
    assert_eq!(g.on_line(&full), Ok(()));
}

#[test]
fn board_view_matches_reads() {
    let mut m = GameMap::new();
    m.set_tile(-3, 2, Tile::O);
    assert_eq!(m.level(), 1);
    let (min_x, max_x, min_y, max_y) = m.display_bounds();
    assert_eq!((min_x, max_x, min_y, max_y), (-8, 8, 0, 16));
    for x in min_x..max_x {
        for y in min_y..max_y {
            assert!(m.tile_view(x, y) == m.get_tile(x, y));
        }
    }
    assert!(m.tile_view(-3, 2) == Tile::O);
    assert!(m.tile_view(i64::MAX, i64::MIN) == Tile::Empty);
}

#[test]
fn far_tiles_read_empty() {
    let mut m = GameMap::new();
    m.set_tile(5, -3, Tile::X);
    assert!(m.get_tile(i64::MIN, i64::MAX) == Tile::Empty);
    assert!(m.get_tile(i64::MAX, i64::MIN) == Tile::Empty);
    assert!(m.get_tile(5, -3) == Tile::X);
}
