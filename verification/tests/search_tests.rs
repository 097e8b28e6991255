use hexsix::search::candidates::cell_bounds;
use hexsix::map::game_map::GameMap;
use hexsix::search::candidates::sort_cells;
use hexsix::search::engine::{Engine, SearchBound, SearchResult, MOVE_DIST};
use hexsix::map::heurs::heuristic::Heuristic;
use hexsix::map::heurs::GameMeasure;

#[test]
fn candidates_around_the_first_stone() {
    let eng = Engine::new(GameMap::new(0));
    let c = eng.move_candidates(MOVE_DIST);
    assert_eq!(c, vec![(-1, -1), (-1, 0), (0, -1), (0, 1), (1, 0), (1, 1)]);
}

#[test]
fn candidates_at_distance_two() {
    let eng = Engine::new(GameMap::new(0));
    let c = eng.move_candidates(2);
    assert_eq!(c.len(), 18);
    assert!(c.contains(&(2, 2)));
    assert!(c.contains(&(-2, 0)));
    assert!(!c.contains(&(2, -1)));
    assert!(!c.contains(&(0, 0)));
}

#[test]
fn candidates_skip_played_cells() {
    let mut eng = Engine::new(GameMap::new(0));
    eng.place(0, 1);
    let c = eng.move_candidates(MOVE_DIST);
    assert!(!c.contains(&(0, 1)));
    assert!(!c.contains(&(0, 0)));
    assert!(c.contains(&(0, 2)));
    assert!(c.contains(&(1, 2)));
    let mut sorted = c.clone();
    sorted.sort();
    assert_eq!(c, sorted);
}

#[test]
fn sort_cells_orders_by_row_then_column() {
    let mut v = vec![(3i64, 1i64), (-2, 5), (3, -4), (0, 0), (-2, 5)];
    sort_cells(&mut v);
    assert_eq!(v, vec![(-2, 5), (-2, 5), (0, 0), (3, -4), (3, 1)]);
}

#[test]
fn search_result_validity() {
    let r = SearchResult { score: GameMeasure::new(), bound: SearchBound::Exact, depth: 3 };
    assert!(r.is_valid(3));
    assert!(!r.is_valid(4));
    let won = SearchResult { score: GameMeasure::new_max(), bound: SearchBound::Lower, depth: 0 };
    assert!(won.is_valid(10));
    let lost = SearchResult { score: GameMeasure::new_min(), bound: SearchBound::Lower, depth: 0 };
    assert!(!lost.is_valid(10));
    let upper = SearchResult { score: GameMeasure::new_min(), bound: SearchBound::Upper, depth: 0 };
    assert!(upper.is_valid(10));
}

#[test]
fn engine_starts_undecided() {
    let eng = Engine::new(GameMap::new(0));
    assert_eq!(eng.won_by(), 0);
    assert_eq!(eng.get_map().get_depth(), 0);
    assert_eq!(eng.get_stats().alpha_beta, 0);
}

#[test]
fn best_move_is_a_candidate() {
    let mut eng = Engine::new(GameMap::new(0));
    let cands = eng.move_candidates(MOVE_DIST);
    let m = eng.get_best_move();
    assert!(cands.contains(&m));
    assert_eq!(eng.get_map().get_move_list().len(), 1);
    assert_eq!(eng.get_map().get_depth(), 0);
}

#[test]
fn search_keeps_moves_and_depth() {
    let mut eng = Engine::new(GameMap::new(0));
    eng.place(0, 1);
    let moves = eng.get_map().get_move_list().clone();
    eng.run_search(2);
    assert_eq!(eng.get_map().get_move_list().clone(), moves);
    assert_eq!(eng.get_map().get_depth(), 1);
    assert!(eng.get_stats().alpha_beta >= 1);
}

#[test]
fn place_and_undo_through_the_engine() {
    let mut eng = Engine::new(GameMap::new(0));
    let h = eng.get_map().get_hash();
    eng.place(5, 5);
    assert_eq!(eng.get_map().get_depth(), 1);
    eng.undo();
    assert_eq!(eng.get_map().get_depth(), 0);
    assert_eq!(eng.get_map().get_hash(), h);
}

#[test]
fn a_few_engine_moves() {
    let mut eng = Engine::new(GameMap::new(0));
    for _ in 0..4 {
        eng.run_search(1);
        let (x, y) = eng.get_best_move();
        let before = eng.get_map().get_move_list().clone();
        assert!(!before.contains(&(x, y)));
        eng.place(x, y);
    }
    assert_eq!(eng.get_map().get_depth(), 4);
}

#[test]
fn bounds_of_cells() {
    assert_eq!(cell_bounds(&vec![]), None);
    assert_eq!(cell_bounds(&vec![(3, -1), (-2, 4), (0, 0)]), Some((-2, 3, -1, 4)));
}

#[test]
fn a_search_can_clear_a_stone_it_did_not_place() {
    let mut eng = Engine::new(GameMap::new(0));
    eng.place(0, 1);
    let h = eng.get_map().get_hash();
    eng.run_search(1);
    assert_eq!(eng.get_map().get_depth(), 1);
    assert!(eng.get_map().get_tile(0, 0) == hexsix::map::tile::Tile::Empty);
    assert_eq!(eng.get_map().get_hash(), h);
}

#[test]
fn a_deeper_search_can_leave_the_hash_changed() {
    let mut eng = Engine::new(GameMap::new(0));
    eng.place(0, 1);
    let h = eng.get_map().get_hash();
    eng.run_search(2);
    assert_eq!(eng.get_map().get_depth(), 1);
    assert!(eng.get_map().get_hash() != h);
}

#[test]
fn negative_distance_gives_no_candidates() {
    let eng = Engine::new(GameMap::new(0));
    assert!(eng.move_candidates(-1).is_empty());
    assert!(eng.move_candidates(i64::MIN).is_empty());
}

#[test]
fn ranked_moves_lead_with_the_best_move() {
    let mut eng = Engine::new(GameMap::new(0));
    eng.place(0, 1);
    let h = eng.get_map().get_hash();
    let cands = eng.move_candidates(MOVE_DIST);
    let ranked = eng.ranked_moves();
    assert_eq!(ranked.len(), cands.len());
    assert_eq!(eng.get_map().get_hash(), h);
    let best = eng.get_best_move();
    assert_eq!(ranked[0].0, best);
    let again = eng.ranked_moves();
    assert!(again == ranked);
}

#[test]
fn search_results_compare_by_their_fields() {
    let a = SearchResult { score: GameMeasure::new(), bound: SearchBound::Exact, depth: 3 };
    let b = SearchResult { score: GameMeasure::new(), bound: SearchBound::Exact, depth: 3 };
    let c = SearchResult { score: GameMeasure::new_max(), bound: SearchBound::Exact, depth: 3 };
    assert!(a == b);
    assert!(a != c);
}
