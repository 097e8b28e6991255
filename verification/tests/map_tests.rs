use hexsix::map::quad_root::delimiter;
use hexsix::map::chunk::Chunk;
use hexsix::map::game_map::GameMap;
use hexsix::map::heurs::heuristic::Heuristic;
use hexsix::map::heurs::GameMeasure;
use hexsix::map::quad_node::QuadNode;
use hexsix::map::quad_root::QuadRoot;
use hexsix::map::tile::Tile;
use std::cmp::Ordering;

#[test]
fn tile_chars() {
    assert_eq!(Tile::Empty.to_char(), ' ');
    assert_eq!(Tile::X.to_char(), 'X');
    assert_eq!(Tile::O.to_char(), 'O');
    assert_eq!(Tile::Empty.code(), 0);
    assert_eq!(Tile::X.code(), 1);
    assert_eq!(Tile::O.code(), 2);
}

#[test]
fn chunk_starts_empty() {
    let c = Chunk::new();
    assert!(c.is_empty());
    for x in 0..8 {
        for y in 0..8 {
            assert!(c.get_tile(x, y) == Tile::Empty);
        }
    }
}

#[test]
fn chunk_reads_back_a_write() {
    let mut c = Chunk::new();
    c.set_tile(5, 6, Tile::O);
    assert!(c.get_tile(5, 6) == Tile::O);
    assert!(!c.is_empty());
    c.set_tile(5, 6, Tile::Empty);
    assert!(c.is_empty());
}

#[test]
fn chunk_write_clears_lower_fields_of_its_word() {
    // Tiles (1, 0) and (3, 0) share a storage word; writing the higher field
    // clears the lower ones.
    let mut c = Chunk::new();
    c.set_tile(1, 0, Tile::X);
    c.set_tile(3, 0, Tile::O);
    assert!(c.get_tile(1, 0) == Tile::Empty);
    assert!(c.get_tile(3, 0) == Tile::O);
    // The other way round nothing is cleared.
    let mut d = Chunk::new();
    d.set_tile(3, 0, Tile::O);
    d.set_tile(1, 0, Tile::X);
    assert!(d.get_tile(1, 0) == Tile::X);
    assert!(d.get_tile(3, 0) == Tile::O);
}

#[test]
fn quad_node_chunks() {
    let mut n = QuadNode::new();
    assert!(n.is_empty());
    assert!(n.try_get_chunk(1, 2, 2).is_none());
    n.get_chunk_mut(1, 2, 2).set_tile(0, 0, Tile::X);
    assert!(!n.is_empty());
    assert!(n.try_get_chunk(1, 2, 2).unwrap().get_tile(0, 0) == Tile::X);
    assert!(n.try_get_chunk(2, 1, 2).is_none());
    match n.try_get_chunk_mut(1, 2, 2) {
        Some(c) => c.set_tile(0, 0, Tile::Empty),
        None => panic!("chunk expected"),
    }
    assert!(n.clean());
    assert!(n.try_get_chunk(1, 2, 2).is_none());
}

#[test]
fn quad_root_grows_and_reads_back() {
    let mut r = QuadRoot::new();
    assert_eq!(r.get_lvl(), 1);
    assert!(r.get_tile(0, 0) == Tile::Empty);
    assert!(r.set_tile(3, 4, Tile::X) == Tile::Empty);
    assert!(r.set_tile(-1000, 2000, Tile::O) == Tile::Empty);
    assert!(r.get_lvl() > 1);
    assert!(r.get_tile(3, 4) == Tile::X);
    assert!(r.get_tile(-1000, 2000) == Tile::O);
    assert!(r.get_tile(-1000, 2001) == Tile::Empty);
    assert!(r.set_tile(3, 4, Tile::Empty) == Tile::X);
    let lvl = r.get_lvl();
    r.clean();
    assert_eq!(r.get_lvl(), lvl);
    assert!(r.get_tile(-1000, 2000) == Tile::O);
    assert!(r.get_tile(3, 4) == Tile::Empty);
    assert!(QuadRoot::in_reach(-1000, 2000));
    assert!(!QuadRoot::in_reach(i64::MAX, 0));
}

#[test]
fn game_map_start() {
    let m = GameMap::new(0);
    assert_eq!(m.get_move_list().clone(), vec![(0i64, 0i64)]);
    assert_eq!(m.get_depth(), 0);
    assert!(m.get_tile(0, 0) == Tile::X);
    assert!(m.get_tile(1, 1) == Tile::Empty);
    assert_eq!(m.get_heuristic().won_by(), 0);
    assert!(!m.get_heuristic().is_critical());
}

#[test]
fn players_take_two_moves_each() {
    let mut m = GameMap::new(0);
    let expected = [Tile::O, Tile::O, Tile::X, Tile::X, Tile::O, Tile::O];
    for (i, t) in expected.iter().enumerate() {
        assert!(m.get_player() == *t);
        m.place(10 * (i as i64 + 1), 0);
    }
    assert_eq!(m.get_depth(), 6);
}

#[test]
fn peek_hash_is_hash_after_place() {
    let mut m = GameMap::new(0);
    let peek = m.peek_hash(20, 20);
    m.place(20, 20);
    assert_eq!(m.get_hash(), peek);
    assert!(m.get_tile(20, 20) == Tile::O);
}

#[test]
fn place_then_undo_restores_moves_depth_and_hash() {
    let mut m = GameMap::new(5);
    let h = m.get_hash();
    m.place(-30, 17);
    assert_eq!(m.get_depth(), 6);
    assert_eq!(m.get_move_list().len(), 2);
    m.undo();
    assert_eq!(m.get_depth(), 5);
    assert_eq!(m.get_move_list().clone(), vec![(0i64, 0i64)]);
    assert_eq!(m.get_hash(), h);
    assert!(m.get_tile(-30, 17) == Tile::Empty);
}

#[test]
fn place_next_to_origin_clears_the_origin_stone() {
    // (1, 0) lies in the storage word of (0, 0), in a higher field.
    let mut m = GameMap::new(0);
    m.place(1, 0);
    assert!(m.get_tile(1, 0) == Tile::O);
    assert!(m.get_tile(0, 0) == Tile::Empty);
}

#[test]
fn six_in_a_row_wins() {
    let mut m = GameMap::new(2);
    // X plays down the column of its first stone, O far away.
    let mut x_col = 1;
    let mut o_col = 0;
    while m.get_heuristic().won_by() == 0 {
        if m.get_player() == Tile::X {
            m.place(0, x_col);
            x_col += 1;
        } else {
            m.place(100, 100 + 8 * o_col);
            o_col += 1;
        }
        assert!(m.get_depth() < 40);
    }
    assert!(m.get_heuristic().won_by() > 0);
}

#[test]
fn measures_order() {
    let zero = GameMeasure::new();
    let max = GameMeasure::new_max();
    let min = GameMeasure::new_min();
    assert!(max.cmp(&zero) == Ordering::Greater);
    assert!(min.cmp(&zero) == Ordering::Less);
    assert!(zero.cmp(&zero) == Ordering::Equal);
    assert!(min.partial_cmp(&max) == Some(Ordering::Less));
    assert_eq!(max.won_by(), 1);
    assert_eq!(min.won_by(), -1);
    assert!(max.is_critical());
    assert_eq!(zero.get_extra(), 5);
}

#[test]
fn clean_tree_keeps_the_position() {
    let mut m = GameMap::new(0);
    m.place(50, 50);
    m.undo();
    let h = m.get_hash();
    m.clean_tree();
    assert_eq!(m.get_hash(), h);
    assert!(m.get_tile(50, 50) == Tile::Empty);
    assert!(m.get_tile(0, 0) == Tile::X);
    let _ = m.tree_level();
}

#[test]
fn counting_a_tile_back_cancels() {
    let mut board = QuadRoot::new();
    board.set_tile(0, 0, Tile::X);
    board.set_tile(0, 1, Tile::X);
    let mut g = GameMeasure::new();
    g.update(&mut board, 0, 0, 3);
    g.update_done(0);
    assert!(g.cmp(&GameMeasure::new()) == Ordering::Greater);
    g.update(&mut board, 0, 0, -3);
    g.update_done(0);
    assert!(g.cmp(&GameMeasure::new()) == Ordering::Equal);
}

#[test]
fn undo_after_a_clearing_write_keeps_stale_counts() {
    // Playing at (1, 0) clears the stone at (0, 0) without taking its lines
    // out of the measure; taking the move back does not bring them back.
    let fresh = GameMap::new(0);
    let mut m = GameMap::new(0);
    m.place(1, 0);
    m.undo();
    assert!(m.get_tile(0, 0) == Tile::Empty);
    assert!(m.get_heuristic().cmp(fresh.get_heuristic()) != Ordering::Equal);
    assert_eq!(m.get_hash(), fresh.get_hash());
}

#[test]
fn text_view_of_the_board() {
    let r = QuadRoot::new();
    assert_eq!(r.display_bounds(), (-8, 8, -8, 8));
    assert_eq!(delimiter(0, 5), '-');
    assert_eq!(delimiter(3, 1), '|');
    assert_eq!(delimiter(-3, -2), '|');
    assert_eq!(delimiter(4, 2), ' ');
    assert_eq!(delimiter(3, 2), ' ');
}

#[test]
fn game_map_start_counts_eighteen_lone_x_windows() {
    let m = GameMap::new(0);
    let h = *m.get_heuristic();
    assert!(h.cmp(&GameMeasure::new()) == Ordering::Greater);
    assert_eq!(h.won_by(), 0);
    assert!(!h.is_critical());
}

#[test]
fn clean_drops_nodes_left_without_chunks() {
    let mut n = QuadNode::new();
    n.get_chunk_mut(3, 2, 2);
    assert!(n.clean());
    assert!(n.is_empty());
    assert!(n.try_get_chunk(3, 2, 2).is_none());
}

#[test]
fn clean_keeps_a_node_with_a_stone() {
    let mut n = QuadNode::new();
    n.get_chunk_mut(3, 2, 2).set_tile(1, 1, Tile::O);
    n.get_chunk_mut(0, 0, 2);
    assert!(!n.clean());
    assert!(n.try_get_chunk(0, 0, 2).is_none());
    assert!(n.try_get_chunk(3, 2, 2).unwrap().get_tile(1, 1) == Tile::O);
}

#[test]
fn try_get_chunk_mut_finds_nothing_where_nothing_is_stored() {
    let mut n = QuadNode::new();
    assert!(n.try_get_chunk_mut(2, 3, 2).is_none());
    assert!(n.is_empty());
}

#[test]
fn place_then_undo_far_away_restores_measure_and_tiles() {
    let mut m = GameMap::new(0);
    let measure = *m.get_heuristic();
    let h = m.get_hash();
    m.place(50, 50);
    assert!(*m.get_heuristic() != measure);
    m.undo();
    assert!(*m.get_heuristic() == measure);
    assert_eq!(m.get_hash(), h);
    assert!(m.get_tile(0, 0) == Tile::X);
    assert!(m.get_tile(50, 50) == Tile::Empty);
}
