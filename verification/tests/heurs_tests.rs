use hexsix::heurs::game_threats::GameThreats;
use hexsix::heurs::heuristic::{from, update, Heuristic};
use hexsix::map::chunk::Chunk;
use hexsix::map::neighbours::Neighbours;
use hexsix::map::tile::Tile;
use std::cmp::Ordering;

#[test]
fn neighbours_read_across_chunks() {
    let mut mid = Chunk::new();
    mid.set_tile(0, 0, Tile::X);
    let mut left = Chunk::new();
    left.set_tile(7, 3, Tile::O);
    let mut chunks: [[Option<&Chunk>; 3]; 3] = [[None; 3]; 3];
    chunks[1][1] = Some(&mid);
    chunks[0][1] = Some(&left);
    let n = Neighbours { chunks };
    assert!(n.get_tile(0, 0) == Tile::X);
    assert!(n.get_tile(-1, 3) == Tile::O);
    assert!(n.get_tile(-1, 4) == Tile::Empty);
    assert!(n.get_tile(9, 9) == Tile::Empty);
}

#[test]
fn all_tiles_of_a_chunk() {
    let n = Neighbours { chunks: [[None; 3]; 3] };
    let cells = n.on_all_tiles(5);
    assert_eq!(cells.len(), 169);
    assert_eq!(cells[0], (-5, -5));
    assert_eq!(cells[1], (-5, -4));
    assert_eq!(cells[168], (7, 7));
}

#[test]
fn owned_tiles_leave_out_what_neighbours_own() {
    let c = Chunk::new();
    let alone = Neighbours { chunks: [[None; 3]; 3] };
    assert_eq!(alone.on_owned_tiles(5), alone.on_all_tiles(5));
    let mut chunks: [[Option<&Chunk>; 3]; 3] = [[None; 3]; 3];
    chunks[0][1] = Some(&c);
    let n = Neighbours { chunks };
    let owned = n.on_owned_tiles(5);
    assert_eq!(owned.len(), 8 * 13);
    assert_eq!(owned[0], (0, -5));
    let mut chunks2: [[Option<&Chunk>; 3]; 3] = [[None; 3]; 3];
    chunks2[0][0] = Some(&c);
    let n2 = Neighbours { chunks: chunks2 };
    let owned2 = n2.on_owned_tiles(5);
    assert_eq!(owned2.len(), 5 * 8 + 8 * 13);
    assert_eq!(owned2[0], (-5, 0));
}

#[test]
fn one_stone_makes_eighteen_lines() {
    let mut mid = Chunk::new();
    mid.set_tile(0, 0, Tile::X);
    let mut chunks: [[Option<&Chunk>; 3]; 3] = [[None; 3]; 3];
    chunks[1][1] = Some(&mid);
    let n = Neighbours { chunks };
    let g: GameThreats = from(vec![n]);
    assert_eq!(g.threats_x, [18, 0, 0, 0, 0, 0]);
    assert_eq!(g.threats_o, [0; 6]);
}

#[test]
fn counting_back_cancels() {
    let mut mid = Chunk::new();
    mid.set_tile(2, 2, Tile::O);
    mid.set_tile(3, 3, Tile::O);
    let mut chunks: [[Option<&Chunk>; 3]; 3] = [[None; 3]; 3];
    chunks[1][1] = Some(&mid);
    let n = Neighbours { chunks };
    let mut g = GameThreats::new();
    update(&mut g, &n, 1);
    assert_eq!(g.threats_o[1], 5);
    assert!(g.threats_o[0] > 0);
    update(&mut g, &n, -1);
    assert_eq!(g.threats_x, [0; 6]);
    assert_eq!(g.threats_o, [0; 6]);
}

#[test]
fn run_heuristic_counts_three_lines() {
    let mut mid = Chunk::new();
    mid.set_tile(1, 1, Tile::X);
    let mut chunks: [[Option<&Chunk>; 3]; 3] = [[None; 3]; 3];
    chunks[1][1] = Some(&mid);
    let n = Neighbours { chunks };
    let mut g = GameThreats::new();
    g.run_heuristic(&n, 1, 1, 2);
    assert_eq!(g.threats_x[0], 6);
    g.run_heuristic(&n, 0, 0, 1);
    assert_eq!(g.threats_x[0], 7);
}

#[test]
fn every_two_counts_compare_equal() {
    let a = GameThreats::new_max();
    let b = GameThreats::new_min();
    assert!(a.cmp(&b) == Ordering::Equal);
    assert!(b.partial_cmp(&a) == Some(Ordering::Equal));
    assert_eq!(a.get_extra(), 5);
}

#[test]
fn threat_counts_compare_by_their_fields() {
    let a = GameThreats { threats_x: [1, 0, 0, 0, 0, 0], threats_o: [0; 6] };
    let b = GameThreats { threats_x: [1, 0, 0, 0, 0, 0], threats_o: [0; 6] };
    let c = GameThreats { threats_x: [0; 6], threats_o: [0; 6] };
    assert!(a == b);
    assert!(a != c);
}
